//! The two normalisations over all of a sample agree where rounding loses
//! nothing.

use vstd::prelude::*;
use vstd::seq_lib::{commutative_foldl, lemma_fold_left_permutation};

use crate::arithmetic::Arithmetic;
use crate::index::{lemma_extent, lemma_join2, lemma_join3, lemma_split2, lemma_split3};
use crate::layout::arranged_time;
use crate::ops::{
    group_norm_sequence_spec, group_norm_spec, group_start, spatial, squares, statistic,
    wide_squares, wide_statistic, wide_sum,
};
use crate::tensor::{lemma_rank3, volume, Grid};
use crate::tokens::{ids, is_order};

verus! {

/// Whether a real is as good as a wide real: narrowing loses nothing, and the
/// operations on reals are those on wide reals. The order of addends does not
/// matter.
pub open spec fn formats_agree<A: Arithmetic>() -> bool {
    &&& forall|v: A::Wide| A::widen_spec(#[trigger] A::narrow_spec(v)) == v
    &&& forall|a: A::Real, b: A::Real| #[trigger]
        A::widen_spec(A::minus_spec(a, b)) == A::wide_minus_spec(
            A::widen_spec(a),
            A::widen_spec(b),
        )
    &&& forall|a: A::Real, b: A::Real| #[trigger]
        A::widen_spec(A::times_spec(a, b)) == A::wide_times_spec(
            A::widen_spec(a),
            A::widen_spec(b),
        )
    &&& forall|n: usize| #[trigger] A::widen_spec(A::from_count_spec(n)) == A::wide_count_spec(n)
    &&& forall|sum: A::Wide, x: A::Wide, y: A::Wide| #[trigger]
        A::wide_plus_spec(A::wide_plus_spec(sum, x), y) == A::wide_plus_spec(
            A::wide_plus_spec(sum, y),
            x,
        )
}

/// Row-major positions of `[c, t]` as positions of `[t, c]`.
spec fn crossing(t: int, c: int) -> Seq<int> {
    Seq::new((t * c) as nat, |j: int| (j % t) * c + j / t)
}

proof fn lemma_once(s: Seq<int>, v: int)
    requires
        s.no_duplicates(),
    ensures
        s.to_multiset().count(v) == if s.contains(v) {
            1nat
        } else {
            0
        },
{
    s.to_multiset_ensures();
    s.lemma_multiset_has_no_duplicates();
    assert(s.contains(v) ==> s.to_multiset().contains(v));
}

proof fn lemma_crossing(t: int, c: int)
    requires
        0 <= t,
        0 <= c,
    ensures
        is_order(crossing(t, c), (t * c) as nat),
{
    let order = crossing(t, c);
    let n = (t * c) as nat;
    lemma_extent(t, c);
    assert(t * c == c * t) by (nonlinear_arith);
    assert forall|j: int| 0 <= j < n implies 0 <= #[trigger] order[j] < n by {
        lemma_split2(c, t, j);
        lemma_join2(t, c, j % t, j / t);
    }
    assert(order.no_duplicates()) by {
        assert forall|a: int, b: int| 0 <= a < n && 0 <= b < n && a != b implies order[a]
            != order[b] by {
            lemma_split2(c, t, a);
            lemma_split2(c, t, b);
            lemma_join2(t, c, a % t, a / t);
            lemma_join2(t, c, b % t, b / t);
        }
    }
    assert(ids(n).no_duplicates());
    assert forall|v: int| order.to_multiset().count(v) == ids(n).to_multiset().count(v) by {
        lemma_once(order, v);
        lemma_once(ids(n), v);
        if 0 <= v < n {
            lemma_split2(t, c, v);
            let j = (v % c) * t + v / c;
            lemma_join2(c, t, v % c, v / c);
            assert(order[j] == v);
            assert(order.contains(v));
            assert(ids(n)[v] == v);
            assert(ids(n).contains(v));
        } else {
            assert(!ids(n).contains(v));
            assert(!order.contains(v));
        }
    }
    assert(order.to_multiset() =~= ids(n).to_multiset());
}

spec fn summing<A: Arithmetic>(data: Seq<A::Real>, from: int) -> spec_fn(A::Wide, int) -> A::Wide {
    |sum: A::Wide, i: int| A::wide_plus_spec(sum, A::widen_spec(data[from + i]))
}

spec fn squaring<A: Arithmetic>(data: Seq<A::Real>, from: int, mean: A::Wide) -> spec_fn(
    A::Wide,
    int,
) -> A::Wide {
    |sum: A::Wide, i: int|
        {
            let delta = A::wide_minus_spec(A::widen_spec(data[from + i]), mean);
            A::wide_plus_spec(sum, A::wide_times_spec(delta, delta))
        }
}

proof fn lemma_sums_fold<A: Arithmetic>(
    data: Seq<A::Real>,
    other: Seq<A::Real>,
    from: int,
    mean: A::Wide,
    order: Seq<int>,
    terms: int,
)
    requires
        0 <= terms <= order.len(),
        forall|j: int| 0 <= j < terms ==> other[from + j] == data[from + #[trigger] order[j]],
    ensures
        wide_sum::<A>(other, from, terms) == order.take(terms).fold_left(
            A::wide_zero_spec(),
            summing::<A>(data, from),
        ),
        wide_squares::<A>(other, from, mean, terms) == order.take(terms).fold_left(
            A::wide_zero_spec(),
            squaring::<A>(data, from, mean),
        ),
    decreases terms,
{
    if terms > 0 {
        lemma_sums_fold::<A>(data, other, from, mean, order, terms - 1);
        let taken = order.take(terms);
        assert(taken.drop_last() =~= order.take(terms - 1));
        assert(taken.last() == order[terms - 1]);
    } else {
        assert(order.take(terms) =~= Seq::<int>::empty());
    }
}

proof fn lemma_narrow_squares<A: Arithmetic>(
    data: Seq<A::Real>,
    from: int,
    mean: A::Wide,
    terms: int,
)
    requires
        formats_agree::<A>(),
    ensures
        squares::<A>(data, from, A::narrow_spec(mean), terms) == wide_squares::<A>(
            data,
            from,
            mean,
            terms,
        ),
    decreases terms,
{
    if terms > 0 {
        lemma_narrow_squares::<A>(data, from, mean, terms - 1);
        assert(A::widen_spec(A::narrow_spec(mean)) == mean);
    }
}

/// The two statistics agree, whatever the order of the entries.
proof fn lemma_statistics_agree<A: Arithmetic>(
    data: Seq<A::Real>,
    other: Seq<A::Real>,
    from: int,
    count: usize,
    order: Seq<int>,
    eps: A::Real,
)
    requires
        formats_agree::<A>(),
        is_order(order, count as nat),
        forall|j: int| 0 <= j < count ==> other[from + j] == data[from + #[trigger] order[j]],
    ensures
        statistic::<A>(other, from, count, eps) == wide_statistic::<A>(data, from, count, eps),
{
    let n = count as nat;
    order.to_multiset_ensures();
    ids(n).to_multiset_ensures();
    let total = A::wide_count_spec(count);
    assert(A::widen_spec(A::from_count_spec(count)) == total);
    let mean = A::wide_over_spec(wide_sum::<A>(data, from, count as int), total);
    lemma_sums_fold::<A>(data, other, from, mean, order, count as int);
    lemma_sums_fold::<A>(data, data, from, mean, ids(n), count as int);
    assert(order.take(count as int) =~= order);
    assert(ids(n).take(count as int) =~= ids(n));
    assert(commutative_foldl(summing::<A>(data, from)));
    assert(commutative_foldl(squaring::<A>(data, from, mean)));
    lemma_fold_left_permutation(order, ids(n), summing::<A>(data, from), A::wide_zero_spec());
    lemma_fold_left_permutation(
        order,
        ids(n),
        squaring::<A>(data, from, mean),
        A::wide_zero_spec(),
    );
    lemma_narrow_squares::<A>(other, from, mean, count as int);
}

/// Normalising `[B, T, C]` over each sample is swapping the last two axes,
/// normalising with one group, and swapping back, where rounding loses nothing
/// and the order of addends does not matter.
pub proof fn law_sequence_norm_is_group_norm_of_the_swapped<A: Arithmetic>(
    x: Grid<A::Real>,
    weight: Seq<A::Real>,
    bias: Seq<A::Real>,
    eps: A::Real,
)
    requires
        formats_agree::<A>(),
        x.wf(),
        x.shape.len() == 3,
    ensures
        group_norm_sequence_spec::<A>(x, weight, bias, eps) == arranged_time(
            group_norm_spec::<A>(arranged_time(x), 1, weight, bias, eps),
        ),
{
    let (batch, t, c) = (x.shape[0] as int, x.shape[1] as int, x.shape[2] as int);
    let swapped = arranged_time(x);
    let grouped = group_norm_spec::<A>(swapped, 1, weight, bias, eps);
    let one = group_norm_sequence_spec::<A>(x, weight, bias, eps);
    let two = arranged_time(grouped);
    lemma_rank3(x.shape);
    let rest = swapped.shape.skip(2);
    assert(spatial(swapped.shape) == t) by {
        assert(rest.drop_last() =~= Seq::<usize>::empty());
        assert(volume(rest.drop_last()) == 1);
        assert(rest.last() == x.shape[1]);
        assert(volume(rest) == 1 * x.shape[1]);
    }
    let n = t * c;
    lemma_extent(t, c);
    lemma_extent(batch, t);
    lemma_extent(batch * t, c);
    assert(c * t == n) by (nonlinear_arith)
        requires
            n == t * c,
    ;
    assert(batch * c * t == batch * t * c) by (nonlinear_arith);
    let order = crossing(t, c);
    lemma_crossing(t, c);
    assert(c / 1 == c);
    assert forall|p: int| 0 <= p < one.data.len() implies #[trigger] one.data[p] == two.data[p] by {
        lemma_split3(batch, t, c, p);
        let (b, k, i) = (p / c / t, p / c % t, p % c);
        lemma_join3(batch, c, t, b, i, k);
        lemma_join3(batch, t, c, b, k, i);
        let from = b * n;
        assert forall|j: int| 0 <= j < n implies swapped.data[from + j] == x.data[from
            + #[trigger] order[j]] by {
            lemma_split2(c, t, j);
            let (e, m) = (j / t, j % t);
            lemma_join3(batch, c, t, b, e, m);
            assert((b * c + e) * t + m == b * n + (e * t + m)) by (nonlinear_arith)
                requires
                    n == c * t,
            ;
            assert((b * t + m) * c + e == b * n + (m * c + e)) by (nonlinear_arith)
                requires
                    n == t * c,
            ;
        }
        lemma_statistics_agree::<A>(x.data, swapped.data, from, n as usize, order, eps);
        assert(i / c == 0) by {
            vstd::arithmetic::div_mod::lemma_basic_div(i, c);
        }
        assert(group_start(swapped.shape, c, b, 0) == from) by (nonlinear_arith)
            requires
                group_start(swapped.shape, c, b, 0) == (b * c + 0 * c) * t,
                from == b * n,
                n == c * t,
        ;
    }
    assert(one.data =~= two.data);
    assert(one.shape =~= two.shape);
}

} // verus!
