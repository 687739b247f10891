//! What the normalisations come to where nothing is rounded: the mean and the
//! spread of their entries.

use vstd::prelude::*;

use crate::arithmetic::Arithmetic;
use crate::fields::{
    exact, field, lemma_cancel_addend, lemma_count, lemma_exact_is_field, lemma_field_is_ring,
    lemma_multiply_back, lemma_neutral, lemma_positive, lemma_put_back, lemma_root, lemma_unit,
};
use crate::index::{at2, at3, lemma_join2, lemma_join3};
use crate::moments::{moments_of, sample_moments, sample_size, spread_sum};
use crate::ops::{
    group_norm_sequence_spec, group_norm_spec, group_norms, layer_norm_spec, squares, statistic,
    wide_squares, wide_statistic, wide_sum,
};
use crate::rings::{lemma_regroup, lemma_total_alike, total};
use crate::tensor::{volume, Grid};

verus! {

/// The sum of values.
pub open spec fn sum_of_values<A: Arithmetic>(values: Seq<A::Real>) -> A::Real {
    total::<A>(values.len() as int, |i: int| values[i])
}

/// The sum of the squared distances of values from a mean.
pub open spec fn sum_of_squares<A: Arithmetic>(values: Seq<A::Real>, mean: A::Real) -> A::Real {
    total::<A>(
        values.len() as int,
        |i: int|
            A::times_spec(A::minus_spec(values[i], mean), A::minus_spec(values[i], mean)),
    )
}

/// The mean of values, their variance, and one over the root of the variance
/// and `eps`.
pub open spec fn are_moments<A: Arithmetic>(
    values: Seq<A::Real>,
    eps: A::Real,
    mean: A::Real,
    variance: A::Real,
    inverse: A::Real,
) -> bool {
    let n = A::from_count_spec(values.len() as usize);
    &&& A::times_spec(mean, n) == sum_of_values::<A>(values)
    &&& A::times_spec(variance, n) == sum_of_squares::<A>(values, mean)
    &&& A::exceeds_spec(A::plus_spec(variance, eps), A::zero_spec()) ==> {
        &&& A::exceeds_spec(inverse, A::zero_spec())
        &&& A::times_spec(A::times_spec(inverse, inverse), A::plus_spec(variance, eps))
            == A::one_spec()
    }
}

/// The entries of a block.
pub open spec fn block<R>(data: Seq<R>, from: int, count: int) -> Seq<R> {
    Seq::new(count as nat, |i: int| data[from + i])
}

proof fn lemma_wide_sum<A: Arithmetic>(data: Seq<A::Real>, from: int, terms: int)
    requires
        exact::<A>(),
    ensures
        wide_sum::<A>(data, from, terms) == A::widen_spec(
            total::<A>(terms, |i: int| data[from + i]),
        ),
    decreases terms,
{
    reveal(exact);
    if terms > 0 {
        lemma_wide_sum::<A>(data, from, terms - 1);
        let before = total::<A>(terms - 1, |i: int| data[from + i]);
        assert(A::wide_plus_spec(
            A::widen_spec(before),
            A::widen_spec(data[from + terms - 1]),
        ) == A::widen_spec(A::plus_spec(before, data[from + terms - 1])));
    }
}

proof fn lemma_all_squares<A: Arithmetic>(
    data: Seq<A::Real>,
    from: int,
    mean: A::Real,
    terms: int,
)
    requires
        exact::<A>(),
    ensures
        ({
            let sum = A::widen_spec(
                total::<A>(
                    terms,
                    |i: int|
                        A::times_spec(
                            A::minus_spec(data[from + i], mean),
                            A::minus_spec(data[from + i], mean),
                        ),
                ),
            );
            &&& squares::<A>(data, from, mean, terms) == sum
            &&& wide_squares::<A>(data, from, A::widen_spec(mean), terms) == sum
            &&& spread_sum::<A>(data, from, A::widen_spec(mean), terms) == sum
        }),
    decreases terms,
{
    reveal(exact);
    if terms > 0 {
        lemma_all_squares::<A>(data, from, mean, terms - 1);
        let before = total::<A>(
            terms - 1,
            |i: int|
                A::times_spec(
                    A::minus_spec(data[from + i], mean),
                    A::minus_spec(data[from + i], mean),
                ),
        );
        let value = data[from + terms - 1];
        let delta = A::minus_spec(value, mean);
        assert(A::wide_minus_spec(A::widen_spec(value), A::widen_spec(mean)) == A::widen_spec(
            delta,
        ));
        assert(A::wide_times_spec(A::widen_spec(delta), A::widen_spec(delta)) == A::widen_spec(
            A::times_spec(delta, delta),
        ));
        assert(A::wide_square_spec(A::widen_spec(delta)) == A::widen_spec(
            A::times_spec(delta, delta),
        ));
        assert(A::wide_plus_spec(
            A::widen_spec(before),
            A::widen_spec(A::times_spec(delta, delta)),
        ) == A::widen_spec(A::plus_spec(before, A::times_spec(delta, delta))));
    }
}

/// The sums over a block are sums over its entries.
proof fn lemma_block_sums<A: Arithmetic>(
    data: Seq<A::Real>,
    from: int,
    mean: A::Real,
    count: int,
)
    requires
        count >= 0,
    ensures
        total::<A>(count, |i: int| data[from + i]) == sum_of_values::<A>(
            block(data, from, count),
        ),
        total::<A>(
            count,
            |i: int|
                A::times_spec(
                    A::minus_spec(data[from + i], mean),
                    A::minus_spec(data[from + i], mean),
                ),
        ) == sum_of_squares::<A>(block(data, from, count), mean),
{
    let values = block(data, from, count);
    lemma_total_alike::<A>(count, |i: int| data[from + i], |i: int| values[i]);
    lemma_total_alike::<A>(
        count,
        |i: int|
            A::times_spec(
                A::minus_spec(data[from + i], mean),
                A::minus_spec(data[from + i], mean),
            ),
        |i: int| A::times_spec(A::minus_spec(values[i], mean), A::minus_spec(values[i], mean)),
    );
}

/// One over a root, squared, times what is under the root is one.
proof fn lemma_inverse<A: Arithmetic>(value: A::Real)
    requires
        field::<A>(),
        A::exceeds_spec(value, A::zero_spec()),
    ensures
        ({
            let inverse = A::over_spec(A::one_spec(), A::square_root_spec(value));
            &&& A::exceeds_spec(inverse, A::zero_spec())
            &&& A::times_spec(A::times_spec(inverse, inverse), value) == A::one_spec()
        }),
{
    lemma_field_is_ring::<A>();
    lemma_root::<A>(value);
    let root = A::square_root_spec(value);
    let inverse = A::over_spec(A::one_spec(), root);
    lemma_multiply_back::<A>(A::one_spec(), root);
    assert(A::exceeds_spec(inverse, A::zero_spec())) by {
        reveal(field);
    }
    // (i * i) * (r * r) == (i * r) * (i * r)
    lemma_regroup::<A>(inverse, inverse, value);
    lemma_regroup::<A>(inverse, root, root);
    lemma_unit::<A>(root);
    assert(A::times_spec(inverse, value) == root);
}

/// The statistic of a block, either way of accumulating it.
proof fn lemma_statistic<A: Arithmetic>(
    data: Seq<A::Real>,
    from: int,
    count: usize,
    eps: A::Real,
) -> (variance: A::Real)
    requires
        exact::<A>(),
        count > 0,
    ensures
        statistic::<A>(data, from, count, eps) == wide_statistic::<A>(data, from, count, eps),
        are_moments::<A>(
            block(data, from, count as int),
            eps,
            statistic::<A>(data, from, count, eps).mean,
            variance,
            statistic::<A>(data, from, count, eps).inverse,
        ),
{
    lemma_exact_is_field::<A>();
    let n = A::from_count_spec(count);
    lemma_count::<A>(count);
    lemma_positive::<A>(n);
    let sum = total::<A>(count as int, |i: int| data[from + i]);
    let mean = A::over_spec(sum, n);
    lemma_wide_sum::<A>(data, from, count as int);
    let spread = total::<A>(
        count as int,
        |i: int|
            A::times_spec(
                A::minus_spec(data[from + i], mean),
                A::minus_spec(data[from + i], mean),
            ),
    );
    lemma_all_squares::<A>(data, from, mean, count as int);
    let variance = A::over_spec(spread, n);
    assert({
        &&& A::wide_count_spec(count) == A::widen_spec(n)
        &&& A::wide_over_spec(A::widen_spec(sum), A::widen_spec(n)) == A::widen_spec(mean)
        &&& A::narrow_spec(A::widen_spec(mean)) == mean
        &&& A::wide_over_spec(A::widen_spec(spread), A::widen_spec(n)) == A::widen_spec(variance)
        &&& A::narrow_spec(A::widen_spec(variance)) == variance
    }) by {
        reveal(exact);
    }
    lemma_multiply_back::<A>(sum, n);
    lemma_multiply_back::<A>(spread, n);
    lemma_block_sums::<A>(data, from, mean, count as int);
    if A::exceeds_spec(A::plus_spec(variance, eps), A::zero_spec()) {
        lemma_inverse::<A>(A::plus_spec(variance, eps));
    }
    variance
}

/// A group normalisation standardises each group: the entries of a group's
/// channels lose their mean, are multiplied by one over the root of their
/// variance and `eps`, then by the channel's weight, and gain its bias.
pub proof fn law_group_norms_standardise_groups<A: Arithmetic>(
    x: Grid<A::Real>,
    groups: usize,
    weight: Seq<A::Real>,
    bias: Seq<A::Real>,
    eps: A::Real,
    b: int,
    group: int,
) -> (moments: (A::Real, A::Real, A::Real))
    requires
        exact::<A>(),
        x.wf(),
        group_norms(x.shape, groups, weight.len(), bias.len()),
        0 <= b < x.shape[0],
        0 <= group < groups,
        0 < x.shape[1],
        0 < volume(x.shape.skip(2)),
        x.shape[1] * volume(x.shape.skip(2)) <= usize::MAX,
    ensures
        ({
            let n = volume(x.shape.skip(2)) as int;
            let c0 = x.shape[1] as int;
            let per = c0 / groups as int;
            let (mean, variance, inverse) = moments;
            &&& are_moments::<A>(
                block(x.data, (b * c0 + group * per) * n, per * n),
                eps,
                mean,
                variance,
                inverse,
            )
            &&& forall|c: int, s: int|
                group * per <= c < group * per + per && 0 <= s < n ==> #[trigger] at3(
                    group_norm_spec::<A>(x, groups, weight, bias, eps).data,
                    c0,
                    n,
                    b,
                    c,
                    s,
                ) == A::plus_spec(
                    A::times_spec(
                        A::times_spec(A::minus_spec(at3(x.data, c0, n, b, c, s), mean), inverse),
                        weight[c],
                    ),
                    bias[c],
                )
        }),
{
    let n = volume(x.shape.skip(2)) as int;
    let c0 = x.shape[1] as int;
    let per = c0 / groups as int;
    vstd::arithmetic::div_mod::lemma_fundamental_div_mod(c0, groups as int);
    assert(per > 0) by (nonlinear_arith)
        requires
            c0 == groups * per,
            c0 > 0,
            groups > 0,
    ;
    assert(per <= c0) by (nonlinear_arith)
        requires
            c0 == groups * per,
            per > 0,
            groups > 0,
    ;
    assert(0 < per * n <= c0 * n) by (nonlinear_arith)
        requires
            0 < per <= c0,
            0 < n,
    ;
    let from = (b * c0 + group * per) * n;
    let count = (per * n) as usize;
    let variance = lemma_statistic::<A>(x.data, from, count, eps);
    let taken = statistic::<A>(x.data, from, count, eps);
    assert forall|c: int, s: int|
        group * per <= c < group * per + per && 0 <= s < n implies #[trigger] at3(
        group_norm_spec::<A>(x, groups, weight, bias, eps).data,
        c0,
        n,
        b,
        c,
        s,
    ) == A::plus_spec(
        A::times_spec(
            A::times_spec(A::minus_spec(at3(x.data, c0, n, b, c, s), taken.mean), taken.inverse),
            weight[c],
        ),
        bias[c],
    ) by {
        lemma_join2(groups as int, per, group, c - group * per);
        assert(groups * per == c0);
        lemma_join3(x.shape[0] as int, c0, n, b, c, s);
        assert(c / per == group);
    }
    (taken.mean, variance, taken.inverse)
}

/// A layer normalisation standardises each row of features.
pub proof fn law_layer_norms_standardise_rows<A: Arithmetic>(
    x: Grid<A::Real>,
    weight: Seq<A::Real>,
    bias: Seq<A::Real>,
    eps: A::Real,
    row: int,
) -> (moments: (A::Real, A::Real, A::Real))
    requires
        exact::<A>(),
        x.shape.len() >= 1,
        x.shape.last() > 0,
        0 <= row < volume(x.shape.drop_last()),
    ensures
        ({
            let width = x.shape.last() as int;
            let (mean, variance, inverse) = moments;
            &&& are_moments::<A>(
                block(x.data, row * width, width),
                eps,
                mean,
                variance,
                inverse,
            )
            &&& forall|f: int|
                0 <= f < width ==> #[trigger] at2(
                    layer_norm_spec::<A>(x, weight, bias, eps).data,
                    width,
                    row,
                    f,
                ) == A::plus_spec(
                    A::times_spec(
                        A::times_spec(A::minus_spec(at2(x.data, width, row, f), mean), inverse),
                        weight[f],
                    ),
                    bias[f],
                )
        }),
{
    let width = x.shape.last() as int;
    let variance = lemma_statistic::<A>(x.data, row * width, x.shape.last(), eps);
    let taken = wide_statistic::<A>(x.data, row * width, x.shape.last(), eps);
    assert forall|f: int| 0 <= f < width implies #[trigger] at2(
        layer_norm_spec::<A>(x, weight, bias, eps).data,
        width,
        row,
        f,
    ) == A::plus_spec(
        A::times_spec(
            A::times_spec(A::minus_spec(at2(x.data, width, row, f), taken.mean), taken.inverse),
            weight[f],
        ),
        bias[f],
    ) by {
        lemma_join2(volume(x.shape.drop_last()) as int, width, row, f);
    }
    (taken.mean, variance, taken.inverse)
}

/// A normalisation of sequences standardises each sample as a whole.
pub proof fn law_sequence_norms_standardise_samples<A: Arithmetic>(
    x: Grid<A::Real>,
    weight: Seq<A::Real>,
    bias: Seq<A::Real>,
    eps: A::Real,
    b: int,
) -> (moments: (A::Real, A::Real, A::Real))
    requires
        exact::<A>(),
        x.shape.len() == 3,
        0 < x.shape[1] * x.shape[2] <= usize::MAX,
        0 <= b < x.shape[0],
    ensures
        ({
            let (t0, c0) = (x.shape[1] as int, x.shape[2] as int);
            let (mean, variance, inverse) = moments;
            &&& are_moments::<A>(
                block(x.data, b * (t0 * c0), t0 * c0),
                eps,
                mean,
                variance,
                inverse,
            )
            &&& forall|t: int, c: int|
                0 <= t < t0 && 0 <= c < c0 ==> #[trigger] at3(
                    group_norm_sequence_spec::<A>(x, weight, bias, eps).data,
                    t0,
                    c0,
                    b,
                    t,
                    c,
                ) == A::plus_spec(
                    A::times_spec(
                        A::times_spec(
                            A::minus_spec(at3(x.data, t0, c0, b, t, c), mean),
                            inverse,
                        ),
                        weight[c],
                    ),
                    bias[c],
                )
        }),
{
    let (t0, c0) = (x.shape[1] as int, x.shape[2] as int);
    let size = t0 * c0;
    let variance = lemma_statistic::<A>(x.data, b * size, size as usize, eps);
    let taken = wide_statistic::<A>(x.data, b * size, size as usize, eps);
    assert forall|t: int, c: int| 0 <= t < t0 && 0 <= c < c0 implies #[trigger] at3(
        group_norm_sequence_spec::<A>(x, weight, bias, eps).data,
        t0,
        c0,
        b,
        t,
        c,
    ) == A::plus_spec(
        A::times_spec(
            A::times_spec(A::minus_spec(at3(x.data, t0, c0, b, t, c), taken.mean), taken.inverse),
            weight[c],
        ),
        bias[c],
    ) by {
        lemma_join3(x.shape[0] as int, t0, c0, b, t, c);
    }
    (taken.mean, variance, taken.inverse)
}

/// A count less one is the count before it.
proof fn lemma_count_before<A: Arithmetic>(n: usize)
    requires
        field::<A>(),
        n > 0,
    ensures
        A::minus_spec(A::from_count_spec(n), A::from_count_spec(1)) == A::from_count_spec(
            (n - 1) as usize,
        ),
{
    lemma_field_is_ring::<A>();
    let before = A::from_count_spec((n - 1) as usize);
    assert(A::from_count_spec(n) == A::plus_spec(before, A::one_spec()) && A::from_count_spec(1)
        == A::plus_spec(A::from_count_spec(0), A::one_spec()) && A::from_count_spec(0)
        == A::zero_spec()) by {
        reveal(field);
    }
    lemma_neutral::<A>(A::one_spec());
    let less = A::minus_spec(A::from_count_spec(n), A::from_count_spec(1));
    lemma_put_back::<A>(A::from_count_spec(n), A::from_count_spec(1));
    lemma_cancel_addend::<A>(less, before, A::one_spec());
}

/// A sample's moments are its mean and its unbiased deviation: the mean times
/// the number of entries is their sum, and the squared deviation times one less
/// than that number is the sum of the squared distances from the mean.
pub proof fn law_moments_are_mean_and_deviation<A: Arithmetic>(x: Grid<A::Real>, b: int)
    requires
        exact::<A>(),
        0 <= b < x.shape[0],
        2 <= volume(x.shape.skip(1)) <= usize::MAX,
    ensures
        ({
            let size = volume(x.shape.skip(1)) as int;
            let values = block(x.data, b * size, size);
            let moments = sample_moments::<A>(x)[b];
            let spread = sum_of_squares::<A>(values, moments.mean);
            let less = A::from_count_spec((size - 1) as usize);
            &&& A::times_spec(moments.mean, A::from_count_spec(size as usize))
                == sum_of_values::<A>(values)
            &&& A::exceeds_spec(spread, A::zero_spec()) ==> {
                &&& A::exceeds_spec(moments.deviation, A::zero_spec())
                &&& A::times_spec(
                    A::times_spec(moments.deviation, moments.deviation),
                    less,
                ) == spread
            }
        }),
{
    lemma_exact_is_field::<A>();
    let size = volume(x.shape.skip(1)) as int;
    let count = size as usize;
    let from = b * size;
    let n = A::from_count_spec(count);
    lemma_count::<A>(count);
    lemma_positive::<A>(n);
    let sum = total::<A>(size, |i: int| x.data[from + i]);
    let mean = A::over_spec(sum, n);
    lemma_wide_sum::<A>(x.data, from, size);
    let spread = total::<A>(
        size,
        |i: int|
            A::times_spec(
                A::minus_spec(x.data[from + i], mean),
                A::minus_spec(x.data[from + i], mean),
            ),
    );
    lemma_all_squares::<A>(x.data, from, mean, size);
    lemma_count_before::<A>(count);
    let less = A::from_count_spec((count - 1) as usize);
    lemma_count::<A>((count - 1) as usize);
    lemma_positive::<A>(less);
    let variance = A::over_spec(spread, less);
    assert({
        &&& A::wide_count_spec(count) == A::widen_spec(n)
        &&& A::wide_count_spec(1) == A::widen_spec(A::from_count_spec(1))
        &&& A::wide_over_spec(A::widen_spec(sum), A::widen_spec(n)) == A::widen_spec(mean)
        &&& A::narrow_spec(A::widen_spec(mean)) == mean
        &&& A::wide_minus_spec(
            A::widen_spec(n),
            A::widen_spec(A::from_count_spec(1)),
        ) == A::widen_spec(less)
        &&& A::wide_over_spec(A::widen_spec(spread), A::widen_spec(less)) == A::widen_spec(
            variance,
        )
        &&& A::wide_square_root_spec(A::widen_spec(variance)) == A::widen_spec(
            A::square_root_spec(variance),
        )
        &&& A::narrow_spec(A::widen_spec(A::square_root_spec(variance)))
            == A::square_root_spec(variance)
    }) by {
        reveal(exact);
    }
    let moments = sample_moments::<A>(x)[b];
    assert(sample_size(x.shape) == size);
    assert(moments == moments_of::<A>(x.data, from, count));
    assert(moments.mean == mean && moments.deviation == A::square_root_spec(variance));
    lemma_multiply_back::<A>(sum, n);
    lemma_multiply_back::<A>(spread, less);
    lemma_block_sums::<A>(x.data, from, mean, size);
    if A::exceeds_spec(spread, A::zero_spec()) {
        assert(A::exceeds_spec(variance, A::zero_spec())) by {
            reveal(field);
        }
        lemma_root::<A>(variance);
    }
}

} // verus!
