//! The primitive operations that the network is made of.
//!
//! Scalar and obvious: every entry of a result is stated, and computed, from
//! the entries it depends on.

use vstd::prelude::*;

use crate::arithmetic::{lawful, Arithmetic};
use crate::index::{
    at2, at3, lemma_extent, lemma_join2, lemma_join3, lemma_split2, lemma_split3, table2, table3,
};
use crate::matmul::{flipped, product_of, row_times_column};
use crate::tensor::{
    addressable, has_entries, is_addressable, lemma_back1, lemma_front2, lemma_rank3, product,
    product2, volume, Grid, Tensor,
};

pub use crate::conv::{conv1d, conv2d};
pub use crate::conv_transpose::{conv_transpose1d, conv_transpose2d};

verus! {

/// The exact GELU of a value.
pub open spec fn gelu_of<A: Arithmetic>(value: A::Real) -> A::Real {
    A::times_spec(
        A::times_spec(A::literal_spec(1, 2), value),
        A::plus_spec(
            A::one_spec(),
            A::error_function_spec(A::times_spec(value, A::frac_1_sqrt_2_spec())),
        ),
    )
}

/// The exact GELU of every entry.
pub open spec fn gelu_spec<A: Arithmetic>(x: Grid<A::Real>) -> Grid<A::Real> {
    Grid { shape: x.shape, data: Seq::new(x.data.len(), |p: int| gelu_of::<A>(x.data[p])) }
}

/// The exact GELU of every entry.
pub fn gelu<A: Arithmetic>(x: &Tensor<A::Real>) -> (out: Tensor<A::Real>)
    requires
        lawful::<A>(),
        x.wf(),
    ensures
        out@ == gelu_spec::<A>(x@),
        out.wf(),
{
    let mut data: Vec<A::Real> = Vec::new();
    while data.len() < x.data.len()
        invariant
            lawful::<A>(),
            data@.len() <= x.data@.len(),
            forall|p: int| 0 <= p < data@.len() ==> #[trigger] data@[p] == gelu_of::<A>(x.data@[p]),
        decreases x.data@.len() - data@.len(),
    {
        let value = x.data[data.len()];
        let scaled = A::times(A::literal(1, 2), value);
        let error = A::error_function(A::times(value, A::frac_1_sqrt_2()));
        data.push(A::times(scaled, A::plus(A::one(), error)));
    }
    proof {
        assert(data@ =~= gelu_spec::<A>(x@).data);
    }
    Tensor { shape: vstd::slice::slice_to_vec(x.shape.as_slice()), data }
}

/// The logistic function of a value.
pub open spec fn sigmoid_of<A: Arithmetic>(value: A::Real) -> A::Real {
    A::over_spec(
        A::one_spec(),
        A::plus_spec(A::one_spec(), A::exponential_spec(A::negated_spec(value))),
    )
}

/// The logistic function.
pub fn sigmoid<A: Arithmetic>(value: A::Real) -> (out: A::Real)
    requires
        lawful::<A>(),
    ensures
        out == sigmoid_of::<A>(value),
{
    A::over(A::one(), A::plus(A::one(), A::exponential(A::negated(value))))
}

/// How many entries each channel of each sample has.
pub open spec fn spatial(shape: Seq<usize>) -> int {
    volume(shape.skip(2)) as int
}

/// One entry of a gated linear unit: the first half's, times the logistic
/// function of the second half's.
pub open spec fn gated<A: Arithmetic>(
    x: Grid<A::Real>,
    batch: int,
    channel: int,
    offset: int,
) -> A::Real {
    let channels = x.shape[1] as int;
    let n = spatial(x.shape);
    A::times_spec(
        at3(x.data, channels, n, batch, channel, offset),
        sigmoid_of::<A>(at3(x.data, channels, n, batch, channel + channels / 2, offset)),
    )
}

/// The gated linear unit over the second axis, which is split in half.
pub open spec fn glu_spec<A: Arithmetic>(x: Grid<A::Real>) -> Grid<A::Real> {
    Grid {
        shape: x.shape.update(1, x.shape[1] / 2),
        data: table3(
            x.shape[0] as int,
            x.shape[1] as int / 2,
            spatial(x.shape),
            |b: int, c: int, s: int| gated::<A>(x, b, c, s),
        ),
    }
}

/// Halving the second axis keeps a shape addressable.
pub proof fn lemma_halved(shape: Seq<usize>)
    requires
        shape.len() >= 2,
        addressable(shape),
    ensures
        addressable(shape.update(1, shape[1] / 2)),
        volume(shape.update(1, shape[1] / 2)) == shape[0] * (shape[1] as int / 2) * spatial(shape),
        shape.update(1, shape[1] / 2).skip(2) == shape.skip(2),
{
    let halved = shape.update(1, shape[1] / 2);
    assert(halved.skip(2) =~= shape.skip(2));
    lemma_front2(shape);
    lemma_front2(halved);
    let a = crate::tensor::at_least_one(shape[0]);
    let b = crate::tensor::at_least_one(shape[1]);
    let h = crate::tensor::at_least_one(halved[1]);
    let c = crate::tensor::span(shape.skip(2));
    assert(a * h * c <= a * b * c) by (nonlinear_arith)
        requires
            h <= b,
    ;
}

/// The gated linear unit over the second axis: `a * sigmoid(b)` where that
/// axis is split in half. Any rank from two on.
pub fn glu<A: Arithmetic>(x: &Tensor<A::Real>) -> (out: Tensor<A::Real>)
    requires
        lawful::<A>(),
        x.wf(),
        x@.shape.len() >= 2,
    ensures
        out@ == glu_spec::<A>(x@),
        out.wf(),
{
    let batch = x.shape[0];
    let channels = x.shape[1];
    let half = channels / 2;
    let n = product(x.shape.as_slice(), 2);
    proof {
        lemma_front2(x@.shape);
        lemma_halved(x@.shape);
        lemma_front2(x@.shape.update(1, half));
        lemma_extent(batch as int, half as int);
    }
    let count = batch * half * n;
    let mut data: Vec<A::Real> = Vec::new();
    while data.len() < count
        invariant
            lawful::<A>(),
            x.wf(),
            x@.shape.len() >= 2,
            batch == x@.shape[0],
            channels == x@.shape[1],
            half == channels / 2,
            n == spatial(x@.shape),
            x@.data.len() == batch * channels * n <= usize::MAX,
            batch * channels <= usize::MAX,
            count == batch * half * n,
            data@.len() <= count,
            forall|p: int|
                0 <= p < data@.len() ==> #[trigger] data@[p] == gated::<A>(
                    x@,
                    p / n as int / half as int,
                    p / n as int % half as int,
                    p % n as int,
                ),
        decreases count - data@.len(),
    {
        let position = data.len();
        proof {
            lemma_split3(batch as int, half as int, n as int, position as int);
        }
        let offset = position % n;
        let channel = position / n % half;
        let index = position / n / half;
        proof {
            lemma_join3(
                batch as int,
                channels as int,
                n as int,
                index as int,
                channel as int,
                offset as int,
            );
            lemma_join3(
                batch as int,
                channels as int,
                n as int,
                index as int,
                channel + half,
                offset as int,
            );
        }
        let a = x.data[(index * channels + channel) * n + offset];
        let b = x.data[(index * channels + (channel + half)) * n + offset];
        data.push(A::times(a, sigmoid::<A>(b)));
    }
    let mut shape = vstd::slice::slice_to_vec(x.shape.as_slice());
    shape.set(1, half);
    proof {
        assert(data@ =~= glu_spec::<A>(x@).data);
    }
    Tensor { shape, data }
}

/// The mean of a block and one over its standard deviation.
#[verifier::ext_equal]
pub struct Statistic<R> {
    pub mean: R,
    pub inverse: R,
}

/// The sum of `terms` entries from `from` on, accumulated wide from zero in
/// order.
pub open spec fn wide_sum<A: Arithmetic>(data: Seq<A::Real>, from: int, terms: int) -> A::Wide
    decreases terms,
{
    if terms <= 0 {
        A::wide_zero_spec()
    } else {
        A::wide_plus_spec(
            wide_sum::<A>(data, from, terms - 1),
            A::widen_spec(data[from + terms - 1]),
        )
    }
}

/// The sum of the squared distances of `terms` entries from a mean, the
/// squares taken narrow.
pub open spec fn squares<A: Arithmetic>(
    data: Seq<A::Real>,
    from: int,
    mean: A::Real,
    terms: int,
) -> A::Wide
    decreases terms,
{
    if terms <= 0 {
        A::wide_zero_spec()
    } else {
        let delta = A::minus_spec(data[from + terms - 1], mean);
        A::wide_plus_spec(
            squares::<A>(data, from, mean, terms - 1),
            A::widen_spec(A::times_spec(delta, delta)),
        )
    }
}

/// The sum of the squared distances of `terms` entries from a wide mean, the
/// squares taken wide.
pub open spec fn wide_squares<A: Arithmetic>(
    data: Seq<A::Real>,
    from: int,
    mean: A::Wide,
    terms: int,
) -> A::Wide
    decreases terms,
{
    if terms <= 0 {
        A::wide_zero_spec()
    } else {
        let delta = A::wide_minus_spec(A::widen_spec(data[from + terms - 1]), mean);
        A::wide_plus_spec(
            wide_squares::<A>(data, from, mean, terms - 1),
            A::wide_times_spec(delta, delta),
        )
    }
}

/// One over the square root of a variance, kept from zero by `eps`.
pub open spec fn inverse_deviation<A: Arithmetic>(variance: A::Wide, eps: A::Real) -> A::Real {
    A::over_spec(
        A::one_spec(),
        A::square_root_spec(A::plus_spec(A::narrow_spec(variance), eps)),
    )
}

/// The statistic of `count` entries, the mean rounded before the distances
/// are taken.
pub open spec fn statistic<A: Arithmetic>(
    data: Seq<A::Real>,
    from: int,
    count: usize,
    eps: A::Real,
) -> Statistic<A::Real> {
    let total = A::widen_spec(A::from_count_spec(count));
    let mean = A::narrow_spec(
        A::wide_over_spec(wide_sum::<A>(data, from, count as int), total),
    );
    Statistic {
        mean,
        inverse: inverse_deviation::<A>(
            A::wide_over_spec(squares::<A>(data, from, mean, count as int), total),
            eps,
        ),
    }
}

/// The statistic of `count` entries, wide throughout and rounded at the end.
pub open spec fn wide_statistic<A: Arithmetic>(
    data: Seq<A::Real>,
    from: int,
    count: usize,
    eps: A::Real,
) -> Statistic<A::Real> {
    let total = A::wide_count_spec(count);
    let mean = A::wide_over_spec(wide_sum::<A>(data, from, count as int), total);
    Statistic {
        mean: A::narrow_spec(mean),
        inverse: inverse_deviation::<A>(
            A::wide_over_spec(wide_squares::<A>(data, from, mean, count as int), total),
            eps,
        ),
    }
}

/// A value normalised by a statistic, scaled and shifted.
pub open spec fn normalised<A: Arithmetic>(
    value: A::Real,
    statistic: Statistic<A::Real>,
    scale: A::Real,
    shift: A::Real,
) -> A::Real {
    A::plus_spec(
        A::times_spec(
            A::times_spec(A::minus_spec(value, statistic.mean), statistic.inverse),
            scale,
        ),
        shift,
    )
}

fn normalise_value<A: Arithmetic>(
    value: A::Real,
    statistic: &Statistic<A::Real>,
    scale: A::Real,
    shift: A::Real,
) -> (out: A::Real)
    requires
        lawful::<A>(),
    ensures
        out == normalised::<A>(value, *statistic, scale, shift),
{
    A::plus(
        A::times(A::times(A::minus(value, statistic.mean), statistic.inverse), scale),
        shift,
    )
}

/// The sum of `count` entries from `from` on, accumulated wide.
pub fn sum_of<A: Arithmetic>(data: &[A::Real], from: usize, count: usize) -> (sum: A::Wide)
    requires
        lawful::<A>(),
        from + count <= data@.len(),
    ensures
        sum == wide_sum::<A>(data@, from as int, count as int),
{
    assert(data@.len() == data.len());
    let mut sum = A::wide_zero();
    let mut term: usize = 0;
    while term < count
        invariant
            lawful::<A>(),
            from + count <= data@.len() <= usize::MAX,
            term <= count,
            sum == wide_sum::<A>(data@, from as int, term as int),
        decreases count - term,
    {
        sum = A::wide_plus(sum, A::widen(data[from + term]));
        term = term + 1;
    }
    sum
}

fn statistic_of<A: Arithmetic>(data: &[A::Real], from: usize, count: usize, eps: A::Real) -> (out:
    Statistic<A::Real>)
    requires
        lawful::<A>(),
        from + count <= data@.len(),
    ensures
        out == statistic::<A>(data@, from as int, count, eps),
{
    assert(data@.len() == data.len());
    let total = A::widen(A::from_count(count));
    let mean = A::narrow(A::wide_over(sum_of::<A>(data, from, count), total));
    let mut sum = A::wide_zero();
    let mut term: usize = 0;
    while term < count
        invariant
            lawful::<A>(),
            from + count <= data@.len() <= usize::MAX,
            term <= count,
            sum == squares::<A>(data@, from as int, mean, term as int),
        decreases count - term,
    {
        let delta = A::minus(data[from + term], mean);
        sum = A::wide_plus(sum, A::widen(A::times(delta, delta)));
        term = term + 1;
    }
    let variance = A::narrow(A::wide_over(sum, total));
    Statistic { mean, inverse: A::over(A::one(), A::square_root(A::plus(variance, eps))) }
}

fn wide_statistic_of<A: Arithmetic>(
    data: &[A::Real],
    from: usize,
    count: usize,
    eps: A::Real,
) -> (out: Statistic<A::Real>)
    requires
        lawful::<A>(),
        from + count <= data@.len(),
    ensures
        out == wide_statistic::<A>(data@, from as int, count, eps),
{
    assert(data@.len() == data.len());
    let total = A::wide_count(count);
    let mean = A::wide_over(sum_of::<A>(data, from, count), total);
    let mut sum = A::wide_zero();
    let mut term: usize = 0;
    while term < count
        invariant
            lawful::<A>(),
            from + count <= data@.len() <= usize::MAX,
            term <= count,
            sum == wide_squares::<A>(data@, from as int, mean, term as int),
        decreases count - term,
    {
        let delta = A::wide_minus(A::widen(data[from + term]), mean);
        sum = A::wide_plus(sum, A::wide_times(delta, delta));
        term = term + 1;
    }
    let variance = A::narrow(A::wide_over(sum, total));
    Statistic {
        mean: A::narrow(mean),
        inverse: A::over(A::one(), A::square_root(A::plus(variance, eps))),
    }
}

/// Where a group of channels of a sample starts. `per` is the number of
/// channels of a group.
pub open spec fn group_start(shape: Seq<usize>, per: int, batch: int, group: int) -> int {
    (batch * shape[1] + group * per) * spatial(shape)
}

/// One entry of a group normalisation.
pub open spec fn group_normalised<A: Arithmetic>(
    x: Grid<A::Real>,
    groups: usize,
    weight: Seq<A::Real>,
    bias: Seq<A::Real>,
    eps: A::Real,
    batch: int,
    channel: int,
    offset: int,
) -> A::Real {
    let per = x.shape[1] as int / groups as int;
    normalised::<A>(
        at3(x.data, x.shape[1] as int, spatial(x.shape), batch, channel, offset),
        statistic::<A>(
            x.data,
            group_start(x.shape, per, batch, channel / per),
            (per * spatial(x.shape)) as usize,
            eps,
        ),
        weight[channel],
        bias[channel],
    )
}

/// Normalisation over each group's channels and all their positions, scaled
/// and shifted per channel.
pub open spec fn group_norm_spec<A: Arithmetic>(
    x: Grid<A::Real>,
    groups: usize,
    weight: Seq<A::Real>,
    bias: Seq<A::Real>,
    eps: A::Real,
) -> Grid<A::Real> {
    Grid {
        shape: x.shape,
        data: table3(
            x.shape[0] as int,
            x.shape[1] as int,
            spatial(x.shape),
            |b: int, c: int, s: int|
                group_normalised::<A>(x, groups, weight, bias, eps, b, c, s),
        ),
    }
}

/// Whether a group normalisation can be computed on a tensor of this shape:
/// the groups divide the channels, and every channel that has entries has its
/// scale and shift.
pub open spec fn group_norms(shape: Seq<usize>, groups: usize, weights: nat, biases: nat) -> bool {
    &&& shape.len() >= 2
    &&& groups > 0
    &&& shape[1] % groups == 0
    &&& volume(shape) > 0 ==> shape[1] <= weights && shape[1] <= biases
}

/// A group ends where its channels end.
proof fn lemma_group(
    batch: int,
    channels: int,
    n: int,
    groups: int,
    per: int,
    index: int,
    group: int,
)
    requires
        channels == groups * per,
        0 <= index < batch,
        0 <= group < groups,
        0 <= per,
        0 <= n,
    ensures
        0 <= index * channels <= index * channels + group * per <= batch * channels,
        0 <= group * per <= channels,
        0 <= per * n,
        0 <= (index * channels + group * per) * n,
        (index * channels + group * per) * n + per * n <= batch * channels * n,
{
    assert(0 <= group * per && group * per + per <= channels) by (nonlinear_arith)
        requires
            channels == groups * per,
            0 <= group < groups,
            0 <= per,
    ;
    assert(0 <= index * channels && index * channels + channels <= batch * channels)
        by (nonlinear_arith)
        requires
            0 <= index < batch,
            0 <= channels,
    ;
    let start = index * channels + group * per;
    assert(start * n + per * n <= batch * channels * n && 0 <= start * n && 0 <= per * n)
        by (nonlinear_arith)
        requires
            0 <= start,
            0 <= per,
            start + per <= batch * channels,
            0 <= n,
    ;
}

/// Normalises over each group's channels and all their positions, then scales
/// and shifts per channel. With one group, the whole channel axis and the time
/// axis share a statistic.
pub fn group_norm<A: Arithmetic>(
    x: &Tensor<A::Real>,
    groups: usize,
    weight: &[A::Real],
    bias: &[A::Real],
    eps: A::Real,
) -> (out: Tensor<A::Real>)
    requires
        lawful::<A>(),
        x.wf(),
        group_norms(x@.shape, groups, weight@.len(), bias@.len()),
    ensures
        out@ == group_norm_spec::<A>(x@, groups, weight@, bias@, eps),
        out.wf(),
{
    let batch = x.shape[0];
    let channels = x.shape[1];
    let n = product(x.shape.as_slice(), 2);
    let per = channels / groups;
    proof {
        lemma_front2(x@.shape);
        vstd::arithmetic::div_mod::lemma_fundamental_div_mod(channels as int, groups as int);
        assert(per * n <= channels * n && 0 <= per * n) by (nonlinear_arith)
            requires
                0 <= per <= channels,
                0 <= n,
        ;
        assert(batch * groups <= batch * channels || channels == 0) by (nonlinear_arith)
            requires
                channels == groups * per,
                per >= 0,
                batch >= 0,
                groups >= 0,
        ;
    }
    let size = per * n;
    let mut statistics: Vec<Statistic<A::Real>> = Vec::new();
    let blocks = if channels == 0 {
        0
    } else {
        batch * groups
    };
    while statistics.len() < blocks
        invariant
            lawful::<A>(),
            batch == x@.shape[0],
            channels == x@.shape[1],
            n == spatial(x@.shape),
            channels == groups * per,
            size == per * n,
            x@.data.len() == batch * channels * n <= usize::MAX,
            batch * channels <= usize::MAX,
            blocks == if channels == 0 {
                0
            } else {
                batch * groups
            },
            statistics@.len() <= blocks,
            forall|q: int|
                0 <= q < statistics@.len() ==> #[trigger] statistics@[q] == statistic::<A>(
                    x@.data,
                    group_start(x@.shape, per as int, q / groups as int, q % groups as int),
                    size,
                    eps,
                ),
        decreases blocks - statistics@.len(),
    {
        let block = statistics.len();
        proof {
            lemma_split2(batch as int, groups as int, block as int);
            lemma_group(
                batch as int,
                channels as int,
                n as int,
                groups as int,
                per as int,
                block as int / groups as int,
                block as int % groups as int,
            );
        }
        let from = (block / groups * channels + block % groups * per) * n;
        statistics.push(statistic_of::<A>(x.data.as_slice(), from, size, eps));
    }
    let count = x.data.len();
    let mut data: Vec<A::Real> = Vec::new();
    while data.len() < count
        invariant
            lawful::<A>(),
            x@.shape.len() >= 2,
            batch == x@.shape[0],
            channels == x@.shape[1],
            n == spatial(x@.shape),
            groups > 0,
            per == channels / groups,
            channels == groups * per,
            size == per * n,
            count == x@.data.len(),
            count == batch * channels * n,
            count > 0 ==> channels <= weight@.len() && channels <= bias@.len(),
            statistics@.len() == if channels == 0 {
                0
            } else {
                batch * groups
            },
            forall|q: int|
                0 <= q < statistics@.len() ==> #[trigger] statistics@[q] == statistic::<A>(
                    x@.data,
                    group_start(x@.shape, per as int, q / groups as int, q % groups as int),
                    size,
                    eps,
                ),
            data@.len() <= count,
            forall|p: int|
                0 <= p < data@.len() ==> #[trigger] data@[p] == group_normalised::<A>(
                    x@,
                    groups,
                    weight@,
                    bias@,
                    eps,
                    p / n as int / channels as int,
                    p / n as int % channels as int,
                    p % n as int,
                ),
        decreases count - data@.len(),
    {
        let position = data.len();
        proof {
            lemma_split3(batch as int, channels as int, n as int, position as int);
        }
        let channel = position / n % channels;
        let index = position / n / channels;
        proof {
            assert(per > 0) by (nonlinear_arith)
                requires
                    channels == groups * per,
                    channels > 0,
                    per >= 0,
            ;
            lemma_split2(groups as int, per as int, channel as int);
            lemma_join2(batch as int, groups as int, index as int, channel as int / per as int);
            assert(statistics@.len() == statistics.len());
        }
        let block = index * groups + channel / per;
        let value = normalise_value::<A>(
            x.data[position],
            &statistics[block],
            weight[channel],
            bias[channel],
        );
        data.push(value);
    }
    proof {
        assert(data@ =~= group_norm_spec::<A>(x@, groups, weight@, bias@, eps).data);
    }
    Tensor { shape: vstd::slice::slice_to_vec(x.shape.as_slice()), data }
}

/// One entry of a normalisation of `[B, T, C]` over each sample.
pub open spec fn sequence_normalised<A: Arithmetic>(
    x: Grid<A::Real>,
    weight: Seq<A::Real>,
    bias: Seq<A::Real>,
    eps: A::Real,
    batch: int,
    time: int,
    channel: int,
) -> A::Real {
    let size = x.shape[1] * x.shape[2];
    normalised::<A>(
        at3(x.data, x.shape[1] as int, x.shape[2] as int, batch, time, channel),
        wide_statistic::<A>(x.data, batch * size, size as usize, eps),
        weight[channel],
        bias[channel],
    )
}

/// Normalisation of `[B, T, C]` over all channels and times of each sample,
/// scaled and shifted per channel.
pub open spec fn group_norm_sequence_spec<A: Arithmetic>(
    x: Grid<A::Real>,
    weight: Seq<A::Real>,
    bias: Seq<A::Real>,
    eps: A::Real,
) -> Grid<A::Real> {
    Grid {
        shape: x.shape,
        data: table3(
            x.shape[0] as int,
            x.shape[1] as int,
            x.shape[2] as int,
            |b: int, t: int, c: int| sequence_normalised::<A>(x, weight, bias, eps, b, t, c),
        ),
    }
}

/// Whether `[B, T, C]` of this shape can be normalised over each sample.
pub open spec fn sequence_norms(shape: Seq<usize>, weights: nat, biases: nat) -> bool {
    &&& shape.len() == 3
    &&& weights == shape[2]
    &&& volume(shape) > 0 ==> shape[2] <= biases
}

/// The statistics of `blocks` blocks of `size` entries.
fn block_statistics<A: Arithmetic>(data: &[A::Real], blocks: usize, size: usize, eps: A::Real) -> (
    out: Vec<Statistic<A::Real>>)
    requires
        lawful::<A>(),
        blocks * size <= data@.len(),
    ensures
        out@.len() == blocks,
        forall|q: int|
            0 <= q < blocks ==> #[trigger] out@[q] == wide_statistic::<A>(
                data@,
                q * size,
                size,
                eps,
            ),
{
    assert(data@.len() == data.len());
    let mut out: Vec<Statistic<A::Real>> = Vec::new();
    while out.len() < blocks
        invariant
            lawful::<A>(),
            blocks * size <= data@.len() <= usize::MAX,
            out@.len() <= blocks,
            forall|q: int|
                0 <= q < out@.len() ==> #[trigger] out@[q] == wide_statistic::<A>(
                    data@,
                    q * size,
                    size,
                    eps,
                ),
        decreases blocks - out@.len(),
    {
        let block = out.len();
        proof {
            assert(0 <= block * size && block * size + size <= blocks * size) by (nonlinear_arith)
                requires
                    0 <= block < blocks,
                    0 <= size,
            ;
        }
        out.push(wide_statistic_of::<A>(data, block * size, size, eps));
    }
    out
}

/// Normalises `[B, T, C]` over all channels and times of each sample, then
/// scales and shifts per channel.
pub fn group_norm_sequence<A: Arithmetic>(
    x: &Tensor<A::Real>,
    weight: &[A::Real],
    bias: &[A::Real],
    eps: A::Real,
) -> (out: Tensor<A::Real>)
    requires
        lawful::<A>(),
        x.wf(),
        sequence_norms(x@.shape, weight@.len(), bias@.len()),
    ensures
        out@ == group_norm_sequence_spec::<A>(x@, weight@, bias@, eps),
        out.wf(),
{
    let batch = x.shape[0];
    let time = x.shape[1];
    let channels = x.shape[2];
    proof {
        lemma_rank3(x@.shape);
        lemma_extent(time as int, channels as int);
        vstd::arithmetic::mul::lemma_mul_is_associative(
            batch as int,
            time as int,
            channels as int,
        );
    }
    let statistics = block_statistics::<A>(x.data.as_slice(), batch, time * channels, eps);
    let count = x.data.len();
    let mut data: Vec<A::Real> = Vec::new();
    while data.len() < count
        invariant
            lawful::<A>(),
            x@.shape.len() == 3,
            batch == x@.shape[0],
            time == x@.shape[1],
            channels == x@.shape[2],
            count == x@.data.len(),
            count == batch * time * channels,
            weight@.len() == channels,
            count > 0 ==> channels <= bias@.len(),
            statistics@.len() == batch,
            time * channels <= usize::MAX,
            forall|q: int|
                0 <= q < batch ==> #[trigger] statistics@[q] == wide_statistic::<A>(
                    x@.data,
                    q * (time * channels),
                    (time * channels) as usize,
                    eps,
                ),
            data@.len() <= count,
            forall|p: int|
                0 <= p < data@.len() ==> #[trigger] data@[p] == sequence_normalised::<A>(
                    x@,
                    weight@,
                    bias@,
                    eps,
                    p / channels as int / time as int,
                    p / channels as int % time as int,
                    p % channels as int,
                ),
        decreases count - data@.len(),
    {
        let position = data.len();
        proof {
            lemma_split3(batch as int, time as int, channels as int, position as int);
        }
        let channel = position % channels;
        let index = position / channels / time;
        let value = normalise_value::<A>(
            x.data[position],
            &statistics[index],
            weight[channel],
            bias[channel],
        );
        data.push(value);
    }
    proof {
        assert(data@ =~= group_norm_sequence_spec::<A>(x@, weight@, bias@, eps).data);
    }
    Tensor { shape: vstd::slice::slice_to_vec(x.shape.as_slice()), data }
}

/// One entry of a normalisation over the last axis.
pub open spec fn row_normalised<A: Arithmetic>(
    x: Grid<A::Real>,
    weight: Seq<A::Real>,
    bias: Seq<A::Real>,
    eps: A::Real,
    row: int,
    feature: int,
) -> A::Real {
    let features = x.shape.last();
    normalised::<A>(
        at2(x.data, features as int, row, feature),
        wide_statistic::<A>(x.data, row * features, features, eps),
        weight[feature],
        bias[feature],
    )
}

/// Normalisation over the last axis, scaled and shifted per feature.
pub open spec fn layer_norm_spec<A: Arithmetic>(
    x: Grid<A::Real>,
    weight: Seq<A::Real>,
    bias: Seq<A::Real>,
    eps: A::Real,
) -> Grid<A::Real> {
    Grid {
        shape: x.shape,
        data: table2(
            volume(x.shape.drop_last()) as int,
            x.shape.last() as int,
            |r: int, f: int| row_normalised::<A>(x, weight, bias, eps, r, f),
        ),
    }
}

/// Whether a tensor of this shape can be normalised over its last axis.
pub open spec fn layer_norms(shape: Seq<usize>, weights: nat, biases: nat) -> bool {
    &&& shape.len() >= 1
    &&& shape.last() > 0
    &&& weights == shape.last()
    &&& volume(shape) > 0 ==> shape.last() <= biases
}

/// Normalises over the last axis, then scales and shifts per feature.
pub fn layer_norm<A: Arithmetic>(
    x: &Tensor<A::Real>,
    weight: &[A::Real],
    bias: &[A::Real],
    eps: A::Real,
) -> (out: Tensor<A::Real>)
    requires
        lawful::<A>(),
        x.wf(),
        layer_norms(x@.shape, weight@.len(), bias@.len()),
    ensures
        out@ == layer_norm_spec::<A>(x@, weight@, bias@, eps),
        out.wf(),
{
    let features = x.shape[x.shape.len() - 1];
    let count = x.data.len();
    let rows = count / features;
    proof {
        lemma_back1(x@.shape);
        lemma_rows(volume(x@.shape.drop_last()) as int, features as int);
    }
    let statistics = block_statistics::<A>(x.data.as_slice(), rows, features, eps);
    let mut data: Vec<A::Real> = Vec::new();
    while data.len() < count
        invariant
            lawful::<A>(),
            features == x@.shape.last(),
            count == x@.data.len(),
            count == rows * features,
            weight@.len() == features,
            count > 0 ==> features <= bias@.len(),
            statistics@.len() == rows,
            forall|q: int|
                0 <= q < rows ==> #[trigger] statistics@[q] == wide_statistic::<A>(
                    x@.data,
                    q * features,
                    features,
                    eps,
                ),
            data@.len() <= count,
            forall|p: int|
                0 <= p < data@.len() ==> #[trigger] data@[p] == row_normalised::<A>(
                    x@,
                    weight@,
                    bias@,
                    eps,
                    p / features as int,
                    p % features as int,
                ),
        decreases count - data@.len(),
    {
        let position = data.len();
        proof {
            lemma_split2(rows as int, features as int, position as int);
        }
        let feature = position % features;
        let value = normalise_value::<A>(
            x.data[position],
            &statistics[position / features],
            weight[feature],
            bias[feature],
        );
        data.push(value);
    }
    proof {
        assert(data@ =~= layer_norm_spec::<A>(x@, weight@, bias@, eps).data);
    }
    Tensor { shape: vstd::slice::slice_to_vec(x.shape.as_slice()), data }
}

/// Rows of `features` entries are counted by dividing.
proof fn lemma_rows(rows: int, features: int)
    requires
        rows >= 0,
        features > 0,
    ensures
        (rows * features) / features == rows,
{
    vstd::arithmetic::div_mod::lemma_fundamental_div_mod_converse(
        rows * features,
        features,
        rows,
        0,
    );
}

/// The first `features` products of a row and the weights of output `out`,
/// accumulated from zero in order.
pub open spec fn feature_sum<A: Arithmetic>(
    x: Seq<A::Real>,
    weight: Seq<A::Real>,
    width: int,
    row: int,
    out: int,
    features: int,
) -> A::Real
    decreases features,
{
    if features <= 0 {
        A::zero_spec()
    } else {
        A::plus_spec(
            feature_sum::<A>(x, weight, width, row, out, features - 1),
            A::times_spec(
                at2(x, width, row, features - 1),
                at2(weight, width, out, features - 1),
            ),
        )
    }
}

/// One entry of a linear layer: the weighted row, then the bias.
pub open spec fn projected<A: Arithmetic>(
    x: Seq<A::Real>,
    weight: Seq<A::Real>,
    bias: Seq<A::Real>,
    width: int,
    row: int,
    out: int,
) -> A::Real {
    A::plus_spec(feature_sum::<A>(x, weight, width, row, out, width), bias[out])
}

/// The shape of a linear layer's output.
pub open spec fn linear_shape(shape: Seq<usize>, out_features: usize) -> Seq<usize> {
    shape.drop_last().push(out_features)
}

/// A linear layer over the last axis, with a weight `[out, features]` and a
/// bias `[out]`.
pub open spec fn linear_spec<A: Arithmetic>(
    x: Grid<A::Real>,
    weight: Seq<A::Real>,
    bias: Seq<A::Real>,
) -> Grid<A::Real> {
    let features = x.shape.last() as int;
    Grid {
        shape: linear_shape(x.shape, bias.len() as usize),
        data: table2(
            volume(x.shape.drop_last()) as int,
            bias.len() as int,
            |r: int, o: int| projected::<A>(x.data, weight, bias, features, r, o),
        ),
    }
}

/// Whether a linear layer can be computed on a tensor of this shape: the
/// weights are `biases` rows of features, and the result is addressable.
pub open spec fn projects(shape: Seq<usize>, weights: nat, biases: nat) -> bool {
    &&& shape.len() >= 1
    &&& shape.last() > 0
    &&& weights == biases * shape.last()
    &&& addressable(linear_shape(shape, biases as usize))
}

fn feature_total<A: Arithmetic>(
    x: &[A::Real],
    weight: &[A::Real],
    width: usize,
    row: usize,
    out: usize,
) -> (sum: A::Real)
    requires
        lawful::<A>(),
        (row + 1) * width <= x@.len(),
        (out + 1) * width <= weight@.len(),
    ensures
        sum == feature_sum::<A>(x@, weight@, width as int, row as int, out as int, width as int),
{
    assert(x@.len() == x.len() && weight@.len() == weight.len());
    proof {
        assert(row * width + width == (row + 1) * width) by (nonlinear_arith);
        assert(out * width + width == (out + 1) * width) by (nonlinear_arith);
        lemma_extent(row as int, width as int);
        lemma_extent(out as int, width as int);
    }
    let row_from = row * width;
    let out_from = out * width;
    let mut sum = A::zero();
    let mut feature: usize = 0;
    while feature < width
        invariant
            lawful::<A>(),
            row_from == row * width,
            out_from == out * width,
            row_from + width <= x@.len() <= usize::MAX,
            out_from + width <= weight@.len() <= usize::MAX,
            feature <= width,
            sum == feature_sum::<A>(
                x@,
                weight@,
                width as int,
                row as int,
                out as int,
                feature as int,
            ),
        decreases width - feature,
    {
        sum = A::plus(sum, A::times(x[row_from + feature], weight[out_from + feature]));
        feature = feature + 1;
    }
    sum
}

/// A linear layer over the last axis: `x @ weight^T + bias`.
pub fn linear<A: Arithmetic>(x: &Tensor<A::Real>, weight: &[A::Real], bias: &[A::Real]) -> (out:
    Tensor<A::Real>)
    requires
        lawful::<A>(),
        x.wf(),
        projects(x@.shape, weight@.len(), bias@.len()),
    ensures
        out@ == linear_spec::<A>(x@, weight@, bias@),
        out.wf(),
{
    let features = x.shape[x.shape.len() - 1];
    let outs = bias.len();
    let rows = x.data.len() / features;
    proof {
        let shape = linear_shape(x@.shape, outs);
        lemma_back1(x@.shape);
        lemma_rows(volume(x@.shape.drop_last()) as int, features as int);
        assert(shape.drop_last() =~= x@.shape.drop_last());
        lemma_back1(shape);
        crate::tensor::lemma_volume_bound(shape);
    }
    let count = rows * outs;
    let mut data: Vec<A::Real> = Vec::new();
    while data.len() < count
        invariant
            lawful::<A>(),
            count == rows * outs,
            x@.data.len() == rows * features,
            weight@.len() == outs * features,
            bias@.len() == outs,
            data@.len() <= count,
            forall|p: int|
                0 <= p < data@.len() ==> #[trigger] data@[p] == projected::<A>(
                    x@.data,
                    weight@,
                    bias@,
                    features as int,
                    p / outs as int,
                    p % outs as int,
                ),
        decreases count - data@.len(),
    {
        let position = data.len();
        proof {
            lemma_split2(rows as int, outs as int, position as int);
        }
        let row = position / outs;
        let out = position % outs;
        proof {
            assert((row + 1) * features <= rows * features) by (nonlinear_arith)
                requires
                    row < rows,
            ;
            assert((out + 1) * features <= outs * features) by (nonlinear_arith)
                requires
                    out < outs,
            ;
        }
        let sum = feature_total::<A>(x.data.as_slice(), weight, features, row, out);
        data.push(A::plus(sum, bias[out]));
    }
    let mut shape = vstd::slice::slice_to_vec(x.shape.as_slice());
    let last = shape.len() - 1;
    shape.set(last, outs);
    proof {
        assert(shape@ =~= linear_shape(x@.shape, outs));
        assert(data@ =~= linear_spec::<A>(x@, weight@, bias@).data);
    }
    Tensor { shape, data }
}

/// Every entry times the scale of its place on the last axis.
pub open spec fn layer_scale_last_spec<A: Arithmetic>(
    x: Grid<A::Real>,
    scale: Seq<A::Real>,
) -> Grid<A::Real> {
    let channels = x.shape.last() as int;
    Grid {
        shape: x.shape,
        data: table2(
            volume(x.shape.drop_last()) as int,
            channels,
            |r: int, c: int| A::times_spec(at2(x.data, channels, r, c), scale[c]),
        ),
    }
}

/// Scales the last axis of `[B, T, C]`.
pub fn layer_scale_last<A: Arithmetic>(x: &Tensor<A::Real>, scale: &[A::Real]) -> (out: Tensor<
    A::Real,
>)
    requires
        lawful::<A>(),
        x.wf(),
        x@.shape.len() >= 1,
        x@.shape.last() > 0,
        scale@.len() == x@.shape.last(),
    ensures
        out@ == layer_scale_last_spec::<A>(x@, scale@),
        out.wf(),
{
    let channels = x.shape[x.shape.len() - 1];
    let count = x.data.len();
    let ghost rows = volume(x@.shape.drop_last()) as int;
    proof {
        lemma_back1(x@.shape);
    }
    let mut data: Vec<A::Real> = Vec::new();
    while data.len() < count
        invariant
            lawful::<A>(),
            rows >= 0,
            count == x@.data.len(),
            count == rows * channels,
            scale@.len() == channels,
            data@.len() <= count,
            forall|p: int|
                0 <= p < data@.len() ==> #[trigger] data@[p] == A::times_spec(
                    at2(x@.data, channels as int, p / channels as int, p % channels as int),
                    scale@[p % channels as int],
                ),
        decreases count - data@.len(),
    {
        let position = data.len();
        proof {
            lemma_split2(rows, channels as int, position as int);
        }
        data.push(A::times(x.data[position], scale[position % channels]));
    }
    proof {
        assert(data@ =~= layer_scale_last_spec::<A>(x@, scale@).data);
    }
    Tensor { shape: vstd::slice::slice_to_vec(x.shape.as_slice()), data }
}

/// Every entry times the scale of its place on the second axis.
pub open spec fn layer_scale_spec<A: Arithmetic>(
    x: Grid<A::Real>,
    scale: Seq<A::Real>,
) -> Grid<A::Real> {
    let channels = x.shape[1] as int;
    let n = spatial(x.shape);
    Grid {
        shape: x.shape,
        data: table3(
            x.shape[0] as int,
            channels,
            n,
            |b: int, c: int, s: int| A::times_spec(at3(x.data, channels, n, b, c, s), scale[c]),
        ),
    }
}

/// Scales the second axis of `[B, C, ...]`.
pub fn layer_scale<A: Arithmetic>(x: &Tensor<A::Real>, scale: &[A::Real]) -> (out: Tensor<A::Real>)
    requires
        lawful::<A>(),
        x.wf(),
        x@.shape.len() >= 2,
        scale@.len() == x@.shape[1],
    ensures
        out@ == layer_scale_spec::<A>(x@, scale@),
        out.wf(),
{
    let channels = x.shape[1];
    let n = product(x.shape.as_slice(), 2);
    let count = x.data.len();
    let ghost batch = x@.shape[0] as int;
    proof {
        lemma_front2(x@.shape);
    }
    let mut data: Vec<A::Real> = Vec::new();
    while data.len() < count
        invariant
            lawful::<A>(),
            batch >= 0,
            count == x@.data.len(),
            count == batch * channels * n,
            scale@.len() == channels,
            data@.len() <= count,
            forall|p: int|
                0 <= p < data@.len() ==> #[trigger] data@[p] == A::times_spec(
                    at3(
                        x@.data,
                        channels as int,
                        n as int,
                        p / n as int / channels as int,
                        p / n as int % channels as int,
                        p % n as int,
                    ),
                    scale@[p / n as int % channels as int],
                ),
        decreases count - data@.len(),
    {
        let position = data.len();
        proof {
            lemma_split3(batch, channels as int, n as int, position as int);
        }
        data.push(A::times(x.data[position], scale[position / n % channels]));
    }
    proof {
        assert(data@ =~= layer_scale_spec::<A>(x@, scale@).data);
    }
    Tensor { shape: vstd::slice::slice_to_vec(x.shape.as_slice()), data }
}

/// Entry by entry, `a + b`, with the shape of `a`.
pub open spec fn sum_spec<A: Arithmetic>(a: Grid<A::Real>, b: Grid<A::Real>) -> Grid<A::Real> {
    Grid {
        shape: a.shape,
        data: Seq::new(a.data.len(), |p: int| A::plus_spec(a.data[p], b.data[p])),
    }
}

/// The sum of a tensor and the entries of another that is at least as long.
pub fn sum<A: Arithmetic>(a: &Tensor<A::Real>, b: &Tensor<A::Real>) -> (out: Tensor<A::Real>)
    requires
        lawful::<A>(),
        a.wf(),
        a@.data.len() <= b@.data.len(),
    ensures
        out@ == sum_spec::<A>(a@, b@),
        out.wf(),
{
    let mut data: Vec<A::Real> = Vec::new();
    while data.len() < a.data.len()
        invariant
            lawful::<A>(),
            a.data@.len() <= b.data@.len(),
            data@.len() <= a.data@.len(),
            forall|p: int|
                0 <= p < data@.len() ==> #[trigger] data@[p] == A::plus_spec(
                    a.data@[p],
                    b.data@[p],
                ),
        decreases a.data@.len() - data@.len(),
    {
        let position = data.len();
        data.push(A::plus(a.data[position], b.data[position]));
    }
    proof {
        assert(data@ =~= sum_spec::<A>(a@, b@).data);
    }
    Tensor { shape: vstd::slice::slice_to_vec(a.shape.as_slice()), data }
}

/// Whether a group normalisation can be computed on a tensor of this shape.
pub fn can_group_norm(shape: &[usize], groups: usize, weights: usize, biases: usize) -> (can: bool)
    ensures
        can == group_norms(shape@, groups, weights as nat, biases as nat),
{
    if shape.len() < 2 || groups == 0 || shape[1] % groups != 0 {
        return false;
    }
    !has_entries(shape) || (shape[1] <= weights && shape[1] <= biases)
}

/// Whether `[B, T, C]` of this shape can be normalised over each sample.
pub fn can_sequence_norm(shape: &[usize], weights: usize, biases: usize) -> (can: bool)
    ensures
        can == sequence_norms(shape@, weights as nat, biases as nat),
{
    if shape.len() != 3 || weights != shape[2] {
        return false;
    }
    !has_entries(shape) || shape[2] <= biases
}

/// Whether a tensor of this shape can be normalised over its last axis.
pub fn can_layer_norm(shape: &[usize], weights: usize, biases: usize) -> (can: bool)
    ensures
        can == layer_norms(shape@, weights as nat, biases as nat),
{
    if shape.len() < 1 {
        return false;
    }
    let features = shape[shape.len() - 1];
    if features == 0 || weights != features {
        return false;
    }
    !has_entries(shape) || features <= biases
}

/// The shape of a linear layer's output, where it can be computed.
pub fn linear_of(shape: &[usize], weights: usize, biases: usize) -> (out: Option<Vec<usize>>)
    ensures
        match out {
            Some(out) => projects(shape@, weights as nat, biases as nat) && out@ == linear_shape(
                shape@,
                biases,
            ),
            None => !projects(shape@, weights as nat, biases as nat),
        },
{
    if shape.len() < 1 {
        return None;
    }
    let last = shape.len() - 1;
    if shape[last] == 0 {
        return None;
    }
    match product2(biases, shape[last]) {
        Some(count) => if count != weights {
            return None;
        },
        None => return None,
    }
    let mut out = vstd::slice::slice_to_vec(shape);
    out.set(last, biases);
    proof {
        assert(out@ =~= linear_shape(shape@, biases));
    }
    if is_addressable(out.as_slice()) {
        Some(out)
    } else {
        None
    }
}

proof fn lemma_linear_is_a_product<A: Arithmetic>(
    x: Seq<A::Real>,
    weight: Seq<A::Real>,
    width: int,
    outs: int,
    row: int,
    out: int,
    terms: int,
)
    requires
        0 <= out < outs,
        0 <= terms <= width,
    ensures
        feature_sum::<A>(x, weight, width, row, out, terms) == row_times_column::<A>(
            x,
            flipped(weight, outs, width),
            width,
            outs,
            row,
            out,
            terms,
        ),
    decreases terms,
{
    if terms > 0 {
        lemma_linear_is_a_product::<A>(x, weight, width, outs, row, out, terms - 1);
        lemma_join2(width, outs, terms - 1, out);
    }
}

/// A linear layer is a matrix product with the flipped weight, plus the bias.
pub proof fn law_linear_is_a_matrix_product<A: Arithmetic>(
    x: Grid<A::Real>,
    weight: Seq<A::Real>,
    bias: Seq<A::Real>,
)
    requires
        x.wf(),
        projects(x.shape, weight.len(), bias.len()),
    ensures
        linear_spec::<A>(x, weight, bias).data == {
            let rows = volume(x.shape.drop_last()) as int;
            let width = x.shape.last() as int;
            let outs = bias.len() as int;
            let product = product_of::<A>(
                x.data,
                flipped(weight, outs, width),
                rows,
                width,
                outs,
            );
            Seq::new(
                (rows * outs) as nat,
                |p: int| A::plus_spec(product[p], bias[p % outs]),
            )
        },
{
    let rows = volume(x.shape.drop_last()) as int;
    let width = x.shape.last() as int;
    let outs = bias.len() as int;
    let product = product_of::<A>(x.data, flipped(weight, outs, width), rows, width, outs);
    let right = Seq::new((rows * outs) as nat, |p: int| A::plus_spec(product[p], bias[p % outs]));
    let left = linear_spec::<A>(x, weight, bias).data;
    assert forall|p: int| 0 <= p < left.len() implies #[trigger] left[p] == right[p] by {
        lemma_split2(rows, outs, p);
        lemma_linear_is_a_product::<A>(x.data, weight, width, outs, p / outs, p % outs, width);
    }
    assert(left =~= right);
}

} // verus!
