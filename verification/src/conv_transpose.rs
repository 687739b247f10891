//! Transposed convolutions over `[N, C, T]` and `[N, C, H, W]`, without
//! padding.
//!
//! Every input position spreads its channels over the outputs that the kernel
//! reaches from it. An output adds up what reaches it, in the order of the
//! input positions.

use vstd::arithmetic::div_mod::{lemma_fundamental_div_mod, lemma_mod_bound};
use vstd::prelude::*;

use crate::arithmetic::{lawful, Arithmetic};
use crate::conv::{lemma_lowered, lemma_raised, lowered, raised};
use crate::index::{
    at4, lemma_extent, lemma_join2, lemma_join3, lemma_join4, lemma_split2, lemma_split4, table2,
    table4,
};
use crate::matmul::row_times_column;
use crate::tensor::{
    addressable, is_addressable, lemma_rank4, product2, product3, Grid, Tensor,
};

verus! {

/// The extents and steps of a transposed kernel, each `(height, width)`.
#[derive(Clone, Copy, Debug)]
pub struct Spread {
    pub kernel: (usize, usize),
    pub stride: (usize, usize),
}

/// Whether input position `source` reaches output position `target`.
pub open spec fn reaches(kernel: int, stride: int, source: int, target: int) -> bool {
    source * stride <= target < source * stride + kernel
}

impl Spread {
    /// The height of the output on an input of this height.
    pub open spec fn height(self, height: usize) -> int {
        (height - 1) * self.stride.0 + self.kernel.0
    }

    /// The width of the output on an input of this width.
    pub open spec fn width(self, width: usize) -> int {
        (width - 1) * self.stride.1 + self.kernel.1
    }

    /// How many weights an input channel has.
    pub open spec fn contributions(self, out_channels: usize) -> int {
        out_channels * self.kernel.0 * self.kernel.1
    }
}

/// What the first `channels` channels of input `(row, column)` give through
/// weight slot `slot`, accumulated from zero in order.
pub open spec fn channel_sum<A: Arithmetic>(
    x: Grid<A::Real>,
    weight: Seq<A::Real>,
    contributions: int,
    batch: int,
    row: int,
    column: int,
    slot: int,
    channels: int,
) -> A::Real
    decreases channels,
{
    if channels <= 0 {
        A::zero_spec()
    } else {
        A::plus_spec(
            channel_sum::<A>(x, weight, contributions, batch, row, column, slot, channels - 1),
            A::times_spec(
                at4(
                    x.data,
                    x.shape[1] as int,
                    x.shape[2] as int,
                    x.shape[3] as int,
                    batch,
                    channels - 1,
                    row,
                    column,
                ),
                weight[(channels - 1) * contributions + slot],
            ),
        )
    }
}

/// What input `(source_h, source_w)` adds to output `(row, column)` of channel
/// `out`.
pub open spec fn contribution<A: Arithmetic>(
    x: Grid<A::Real>,
    weight: Seq<A::Real>,
    out_channels: usize,
    spread: Spread,
    batch: int,
    out: int,
    row: int,
    column: int,
    source_h: int,
    source_w: int,
) -> A::Real {
    channel_sum::<A>(
        x,
        weight,
        spread.contributions(out_channels),
        batch,
        source_h,
        source_w,
        (out * spread.kernel.0 + (row - source_h * spread.stride.0)) * spread.kernel.1 + (column
            - source_w * spread.stride.1),
        x.shape[1] as int,
    )
}

/// What the first `positions` input positions add to one output, accumulated
/// from zero in order.
pub open spec fn gathered<A: Arithmetic>(
    x: Grid<A::Real>,
    weight: Seq<A::Real>,
    out_channels: usize,
    spread: Spread,
    batch: int,
    out: int,
    row: int,
    column: int,
    positions: int,
) -> A::Real
    decreases positions,
{
    if positions <= 0 {
        A::zero_spec()
    } else {
        let before = gathered::<A>(
            x,
            weight,
            out_channels,
            spread,
            batch,
            out,
            row,
            column,
            positions - 1,
        );
        let source_h = (positions - 1) / x.shape[3] as int;
        let source_w = (positions - 1) % x.shape[3] as int;
        if reached(spread, source_h, source_w, row, column) {
            A::plus_spec(
                before,
                contribution::<A>(
                    x,
                    weight,
                    out_channels,
                    spread,
                    batch,
                    out,
                    row,
                    column,
                    source_h,
                    source_w,
                ),
            )
        } else {
            before
        }
    }
}

/// Whether an input position reaches an output position on both axes.
pub open spec fn reached(
    spread: Spread,
    source_h: int,
    source_w: int,
    row: int,
    column: int,
) -> bool {
    &&& reaches(spread.kernel.0 as int, spread.stride.0 as int, source_h, row)
    &&& reaches(spread.kernel.1 as int, spread.stride.1 as int, source_w, column)
}

/// One entry of a transposed convolution: what reaches it, then the bias.
pub open spec fn transposed<A: Arithmetic>(
    x: Grid<A::Real>,
    weight: Seq<A::Real>,
    bias: Seq<A::Real>,
    out_channels: usize,
    spread: Spread,
    batch: int,
    out: int,
    row: int,
    column: int,
) -> A::Real {
    A::plus_spec(
        gathered::<A>(
            x,
            weight,
            out_channels,
            spread,
            batch,
            out,
            row,
            column,
            x.shape[2] * x.shape[3],
        ),
        bias[out],
    )
}

/// The shape of a transposed convolution.
pub open spec fn transposition_shape(
    shape: Seq<usize>,
    out_channels: usize,
    spread: Spread,
) -> Seq<usize> {
    seq![
        shape[0],
        out_channels,
        spread.height(shape[2]) as usize,
        spread.width(shape[3]) as usize,
    ]
}

/// The transposed convolution of `[N, C, H, W]` with a weight
/// `[C, out, kH, kW]` and a bias `[out]`.
pub open spec fn transposition<A: Arithmetic>(
    x: Grid<A::Real>,
    weight: Seq<A::Real>,
    bias: Seq<A::Real>,
    out_channels: usize,
    spread: Spread,
) -> Grid<A::Real> {
    Grid {
        shape: transposition_shape(x.shape, out_channels, spread),
        data: table4(
            x.shape[0] as int,
            out_channels as int,
            spread.height(x.shape[2]),
            spread.width(x.shape[3]),
            |b: int, o: int, i: int, j: int|
                transposed::<A>(x, weight, bias, out_channels, spread, b, o, i, j),
        ),
    }
}

/// Whether a transposed convolution of a tensor of this shape can be computed:
/// there is a position to spread, the weights are those of the channels, there
/// are biases enough and the result is addressable.
pub open spec fn transposes(
    shape: Seq<usize>,
    weights: nat,
    biases: nat,
    out_channels: usize,
    spread: Spread,
) -> bool {
    &&& shape.len() == 4
    &&& shape[2] >= 1
    &&& shape[3] >= 1
    &&& spread.height(shape[2]) <= usize::MAX
    &&& spread.width(shape[3]) <= usize::MAX
    &&& spread.contributions(out_channels) <= usize::MAX
    &&& shape[0] > 0 ==> shape[1] * spread.contributions(out_channels) == weights
    &&& shape[0] > 0 ==> out_channels <= biases
    &&& addressable(transposition_shape(shape, out_channels, spread))
}

/// Positions that do not reach an output add nothing to it.
proof fn lemma_unreached<A: Arithmetic>(
    x: Grid<A::Real>,
    weight: Seq<A::Real>,
    out_channels: usize,
    spread: Spread,
    batch: int,
    out: int,
    row: int,
    column: int,
    from: int,
    to: int,
)
    requires
        0 <= from <= to,
        forall|p: int|
            from <= p < to ==> !#[trigger] reached(
                spread,
                p / x.shape[3] as int,
                p % x.shape[3] as int,
                row,
                column,
            ),
    ensures
        gathered::<A>(x, weight, out_channels, spread, batch, out, row, column, to) == gathered::<
            A,
        >(x, weight, out_channels, spread, batch, out, row, column, from),
    decreases to - from,
{
    if from < to {
        lemma_unreached::<A>(
            x,
            weight,
            out_channels,
            spread,
            batch,
            out,
            row,
            column,
            from,
            to - 1,
        );
        assert(!reached(
            spread,
            (to - 1) / x.shape[3] as int,
            (to - 1) % x.shape[3] as int,
            row,
            column,
        ));
    }
}

/// The first source whose taps end after `target`.
pub open spec fn first_source(kernel: int, stride: int, target: int) -> int {
    if target < kernel {
        0
    } else {
        (target - kernel) / stride + 1
    }
}

proof fn lemma_first_source(kernel: int, stride: int, target: int)
    requires
        kernel >= 0,
        stride >= 0,
        target >= 0,
        target >= kernel ==> stride > 0,
    ensures
        first_source(kernel, stride, target) >= 0,
        target >= kernel ==> first_source(kernel, stride, target) <= target + 1,
        first_source(kernel, stride, target) > 0 ==> (first_source(kernel, stride, target) - 1)
            * stride + kernel <= target,
        forall|source: int|
            0 <= source < first_source(kernel, stride, target) ==> !reaches(
                kernel,
                stride,
                source,
                target,
            ),
        forall|source: int|
            source >= first_source(kernel, stride, target) ==> #[trigger] (source * stride)
                + kernel > target,
{
    let first = first_source(kernel, stride, target);
    if target >= kernel {
        let room = target - kernel;
        lemma_fundamental_div_mod(room, stride);
        lemma_mod_bound(room, stride);
        let quotient = room / stride;
        assert((first - 1) * stride == stride * quotient) by (nonlinear_arith)
            requires
                first - 1 == quotient,
        ;
        assert(0 <= quotient <= room) by (nonlinear_arith)
            requires
                room >= 0,
                stride > 0,
                quotient == room / stride,
        ;
        assert forall|source: int| 0 <= source < first implies !reaches(
            kernel,
            stride,
            source,
            target,
        ) by {
            assert(source * stride <= stride * quotient) by (nonlinear_arith)
                requires
                    0 <= source <= quotient,
                    stride > 0,
            ;
        }
        assert forall|source: int| source >= first implies #[trigger] (source * stride) + kernel
            > target by {
            assert(source * stride >= stride * quotient + stride) by (nonlinear_arith)
                requires
                    source >= quotient + 1,
                    stride > 0,
            ;
        }
    } else {
        assert forall|source: int| source >= first implies #[trigger] (source * stride) + kernel
            > target by {
            assert(source * stride >= 0) by (nonlinear_arith)
                requires
                    source >= 0,
                    stride >= 0,
            ;
        }
    }
}

/// Past a source that starts after `target`, none reaches it.
proof fn lemma_past(kernel: int, stride: int, source: int, target: int, later: int)
    requires
        stride >= 0,
        source * stride > target,
        later >= source,
    ensures
        !reaches(kernel, stride, later, target),
{
    assert(later * stride >= source * stride) by (nonlinear_arith)
        requires
            later >= source,
            stride >= 0,
    ;
}

fn start_of(kernel: usize, stride: usize, target: usize) -> (source: usize)
    requires
        target >= kernel ==> stride > 0,
        target < usize::MAX,
    ensures
        source == first_source(kernel as int, stride as int, target as int),
{
    proof {
        lemma_first_source(kernel as int, stride as int, target as int);
    }
    if target < kernel {
        0
    } else {
        (target - kernel) / stride + 1
    }
}

/// What one input position gives through one weight slot.
fn channel_total<A: Arithmetic>(
    data: &[A::Real],
    shape: &[usize],
    weight: &[A::Real],
    contributions: usize,
    batch: usize,
    row: usize,
    column: usize,
    slot: usize,
) -> (sum: A::Real)
    requires
        lawful::<A>(),
        shape@.len() == 4,
        (Grid { shape: shape@, data: data@ }).wf(),
        shape@[1] * contributions == weight@.len(),
        batch < shape@[0],
        row < shape@[2],
        column < shape@[3],
        slot < contributions,
    ensures
        sum == channel_sum::<A>(
            (Grid { shape: shape@, data: data@ }),
            weight@,
            contributions as int,
            batch as int,
            row as int,
            column as int,
            slot as int,
            shape@[1] as int,
        ),
{
    let ghost x = Grid { shape: shape@, data: data@ };
    let channels = shape[1];
    let height = shape[2];
    let width = shape[3];
    proof {
        lemma_rank4(shape@);
        assert(data@.len() == data.len() && weight@.len() == weight.len());
    }
    let mut sum = A::zero();
    let mut channel: usize = 0;
    while channel < channels
        invariant
            lawful::<A>(),
            x == (Grid { shape: shape@, data: data@ }),
            shape@.len() == 4,
            channels == shape@[1],
            height == shape@[2],
            width == shape@[3],
            data@.len() == shape@[0] * channels * height * width <= usize::MAX,
            channels * contributions == weight@.len() <= usize::MAX,
            batch < shape@[0],
            row < height,
            column < width,
            slot < contributions,
            channel <= channels,
            shape@[0] * channels <= usize::MAX,
            shape@[0] * channels * height <= usize::MAX,
            sum == channel_sum::<A>(
                x,
                weight@,
                contributions as int,
                batch as int,
                row as int,
                column as int,
                slot as int,
                channel as int,
            ),
        decreases channels - channel,
    {
        proof {
            lemma_join4(
                shape@[0] as int,
                channels as int,
                height as int,
                width as int,
                batch as int,
                channel as int,
                row as int,
                column as int,
            );
            lemma_join2(
                channels as int,
                contributions as int,
                channel as int,
                slot as int,
            );
        }
        let input = data[((batch * channels + channel) * height + row) * width + column];
        sum = A::plus(sum, A::times(input, weight[channel * contributions + slot]));
        channel = channel + 1;
    }
    sum
}

/// The first source stays within an axis whose last source reaches past the
/// target.
proof fn lemma_first_within(kernel: int, stride: int, target: int, extent: int)
    requires
        kernel >= 0,
        stride >= 0,
        extent >= 1,
        0 <= target < (extent - 1) * stride + kernel,
    ensures
        target >= kernel ==> stride > 0,
        first_source(kernel, stride, target) <= extent,
{
    if target >= kernel {
        assert(stride > 0) by (nonlinear_arith)
            requires
                stride >= 0,
                kernel <= target < (extent - 1) * stride + kernel,
        ;
        lemma_first_source(kernel, stride, target);
        let first = first_source(kernel, stride, target);
        if first > extent {
            assert((first - 1) * stride >= (extent - 1) * stride) by (nonlinear_arith)
                requires
                    first >= extent,
                    stride > 0,
            ;
        }
    }
}

/// The positions of one row of sources.
proof fn lemma_row(extent: int, width: int, row: int, p: int)
    requires
        0 <= row < extent,
        row * width <= p < row * width + width,
    ensures
        p / width == row,
        p % width == p - row * width,
{
    lemma_join2(extent, width, row, p - row * width);
}

/// What reaches one output.
fn gather_total<A: Arithmetic>(
    data: &[A::Real],
    shape: &[usize],
    weight: &[A::Real],
    out_channels: usize,
    spread: Spread,
    batch: usize,
    out: usize,
    row: usize,
    column: usize,
) -> (sum: A::Real)
    requires
        lawful::<A>(),
        shape@.len() == 4,
        (Grid { shape: shape@, data: data@ }).wf(),
        shape@[2] >= 1,
        shape@[3] >= 1,
        spread.height(shape@[2]) <= usize::MAX,
        spread.width(shape@[3]) <= usize::MAX,
        spread.contributions(out_channels) <= usize::MAX,
        shape@[1] * spread.contributions(out_channels) == weight@.len(),
        batch < shape@[0],
        out < out_channels,
        row < spread.height(shape@[2]),
        column < spread.width(shape@[3]),
    ensures
        sum == gathered::<A>(
            (Grid { shape: shape@, data: data@ }),
            weight@,
            out_channels,
            spread,
            batch as int,
            out as int,
            row as int,
            column as int,
            shape@[2] * shape@[3],
        ),
{
    let ghost x = Grid { shape: shape@, data: data@ };
    let height = shape[2];
    let width = shape[3];
    let (kernel_h, kernel_w) = spread.kernel;
    let (stride_h, stride_w) = spread.stride;
    let mut sum = A::zero();
    proof {
        lemma_first_within(kernel_h as int, stride_h as int, row as int, height as int);
        lemma_first_within(kernel_w as int, stride_w as int, column as int, width as int);
        lemma_first_source(kernel_h as int, stride_h as int, row as int);
        lemma_extent(out_channels as int, kernel_h as int);
        assert(kernel_w >= 1 ==> out_channels * kernel_h <= out_channels * kernel_h * kernel_w)
            by (nonlinear_arith)
            requires
                0 <= out_channels * kernel_h,
        ;
        assert(kernel_w == 0 ==> out_channels * kernel_h * kernel_w == 0) by (nonlinear_arith);
    }
    let contributions = if kernel_w == 0 {
        0
    } else {
        out_channels * kernel_h * kernel_w
    };
    let first_h = start_of(kernel_h, stride_h, row);
    let first_w = start_of(kernel_w, stride_w, column);
    let mut source_h = first_h;
    proof {
        lemma_products(stride_h as int, first_h as int, height as int);
        lemma_extent(first_h as int, width as int);
        assert forall|p: int| 0 <= p < first_h * width implies !#[trigger] reached(
            spread,
            p / width as int,
            p % width as int,
            row as int,
            column as int,
        ) by {
            lemma_split2(first_h as int, width as int, p);
        }
        lemma_unreached::<A>(
                x,
                weight@,
                out_channels,
                spread,
                batch as int,
                out as int,
                row as int,
                column as int,
                0,
                first_h * width,
            );
    }
    while source_h < height && source_h * stride_h <= row
        invariant
            lawful::<A>(),
            x == (Grid { shape: shape@, data: data@ }),
            shape@.len() == 4,
            x.wf(),
            height == shape@[2],
            width == shape@[3],
            width >= 1,
            (kernel_h, kernel_w) == spread.kernel,
            (stride_h, stride_w) == spread.stride,
            spread.height(height) <= usize::MAX,
            spread.width(width) <= usize::MAX,
            contributions == spread.contributions(out_channels),
            kernel_w >= 1 ==> out_channels * kernel_h <= usize::MAX,
            shape@[1] * contributions == weight@.len(),
            batch < shape@[0],
            out < out_channels,
            row < spread.height(height),
            column < spread.width(width),
            first_h == first_source(kernel_h as int, stride_h as int, row as int),
            first_w == first_source(kernel_w as int, stride_w as int, column as int),
            row >= kernel_h ==> stride_h > 0,
            column >= kernel_w ==> stride_w > 0,
            first_w <= width,
            first_h <= source_h <= height,
            source_h < height ==> source_h * stride_h <= usize::MAX,
            sum == gathered::<A>(
                x,
                weight@,
                out_channels,
                spread,
                batch as int,
                out as int,
                row as int,
                column as int,
                source_h * width,
            ),
        decreases height - source_h,
    {
        let ghost base = source_h * width;
        let mut source_w = first_w;
        proof {
            lemma_first_source(kernel_w as int, stride_w as int, column as int);
            lemma_first_source(kernel_h as int, stride_h as int, row as int);
            lemma_extent(source_h as int, width as int);
            assert forall|p: int| base <= p < base + first_w implies !#[trigger] reached(
                spread,
                p / width as int,
                p % width as int,
                row as int,
                column as int,
            ) by {
                lemma_row(height as int, width as int, source_h as int, p);
            }
            lemma_unreached::<A>(
                x,
                weight@,
                out_channels,
                spread,
                batch as int,
                out as int,
                row as int,
                column as int,
                base,
                base + first_w,
            );
            lemma_products(stride_w as int, first_w as int, width as int);
        }
        while source_w < width && source_w * stride_w <= column
            invariant
                lawful::<A>(),
                x == (Grid { shape: shape@, data: data@ }),
                shape@.len() == 4,
                x.wf(),
                height == shape@[2],
                width == shape@[3],
                (kernel_h, kernel_w) == spread.kernel,
                (stride_h, stride_w) == spread.stride,
                spread.width(width) <= usize::MAX,
                contributions == spread.contributions(out_channels),
                kernel_w >= 1 ==> out_channels * kernel_h <= usize::MAX,
                shape@[1] * contributions == weight@.len(),
                batch < shape@[0],
                out < out_channels,
                first_h <= source_h < height,
                source_h * stride_h <= row,
                row < source_h * stride_h + kernel_h,
                first_w == first_source(kernel_w as int, stride_w as int, column as int),
                column >= kernel_w ==> stride_w > 0,
                first_w <= source_w <= width,
                source_w < width ==> source_w * stride_w <= usize::MAX,
                base == source_h * width,
                base >= 0,
                sum == gathered::<A>(
                x,
                weight@,
                out_channels,
                spread,
                batch as int,
                out as int,
                row as int,
                column as int,
                base + source_w,
            ),
            decreases width - source_w,
        {
            proof {
                lemma_first_source(kernel_w as int, stride_w as int, column as int);
                assert(source_w * stride_w + kernel_w > column);
                lemma_row(height as int, width as int, source_h as int, base + source_w);
                assert(reached(
                    spread,
                    source_h as int,
                    source_w as int,
                    row as int,
                    column as int,
                ));
                lemma_join3(
                    out_channels as int,
                    kernel_h as int,
                    kernel_w as int,
                    out as int,
                    row - source_h * stride_h,
                    column - source_w * stride_w,
                );
                lemma_products(stride_w as int, source_w + 1, width as int);
            }
            let slot = (out * kernel_h + (row - source_h * stride_h)) * kernel_w + (column
                - source_w * stride_w);
            let given = channel_total::<A>(
                data,
                shape,
                weight,
                contributions,
                batch,
                source_h,
                source_w,
                slot,
            );
            sum = A::plus(sum, given);
            source_w = source_w + 1;
        }
        proof {
            assert(base + width == (source_h + 1) * width) by (nonlinear_arith)
                requires
                    base == source_h * width,
            ;
            assert forall|p: int| base + source_w <= p < base + width implies !#[trigger] reached(
                spread,
                p / width as int,
                p % width as int,
                row as int,
                column as int,
            ) by {
                lemma_row(height as int, width as int, source_h as int, p);
                lemma_past(
                    kernel_w as int,
                    stride_w as int,
                    source_w as int,
                    column as int,
                    p - base,
                );
            }
            lemma_unreached::<A>(
                x,
                weight@,
                out_channels,
                spread,
                batch as int,
                out as int,
                row as int,
                column as int,
                base + source_w,
                base + width,
            );
            lemma_products(stride_h as int, source_h + 1, height as int);
        }
        source_h = source_h + 1;
    }
    proof {
        let base = source_h * width;
        lemma_extent(source_h as int, width as int);
        assert(base <= height * width) by (nonlinear_arith)
            requires
                base == source_h * width,
                source_h <= height,
        ;
        assert forall|p: int| base <= p < height * width implies !#[trigger] reached(
            spread,
            p / width as int,
            p % width as int,
            row as int,
            column as int,
        ) by {
            lemma_split2(height as int, width as int, p);
            let later = p / width as int;
            assert(later >= source_h) by (nonlinear_arith)
                requires
                    source_h * width <= p,
                    p == later * width + p % width as int,
                    0 <= p % (width as int) < width,
            ;
            lemma_past(kernel_h as int, stride_h as int, source_h as int, row as int, later);
        }
        lemma_unreached::<A>(
                x,
                weight@,
                out_channels,
                spread,
                batch as int,
                out as int,
                row as int,
                column as int,
                base,
                height * width,
            );
    }
    sum
}

/// A source of an axis starts no further than the last.
proof fn lemma_products(stride: int, source: int, extent: int)
    requires
        0 <= source,
        0 <= stride,
    ensures
        source < extent ==> 0 <= source * stride <= (extent - 1) * stride,
{
    assert(source < extent ==> 0 <= source * stride <= (extent - 1) * stride) by (nonlinear_arith)
        requires
            0 <= source,
            0 <= stride,
    ;
}

/// The extent of an output axis.
fn spread_extent(extent: usize, kernel: usize, stride: usize) -> (count: usize)
    requires
        extent >= 1,
        (extent - 1) * stride + kernel <= usize::MAX,
    ensures
        count == (extent - 1) * stride + kernel,
{
    proof {
        lemma_extent(extent - 1, stride as int);
    }
    (extent - 1) * stride + kernel
}

/// A transposed convolution of `[N, C, H, W]`, entry by entry.
fn transpose<A: Arithmetic>(
    data: &[A::Real],
    shape: &[usize],
    weight: &[A::Real],
    bias: &[A::Real],
    out_channels: usize,
    spread: Spread,
) -> (out: Tensor<A::Real>)
    requires
        lawful::<A>(),
        (Grid { shape: shape@, data: data@ }).wf(),
        transposes(shape@, weight@.len(), bias@.len(), out_channels, spread),
    ensures
        out@ == transposition::<A>(
            (Grid { shape: shape@, data: data@ }),
            weight@,
            bias@,
            out_channels,
            spread,
        ),
        out.wf(),
{
    let ghost x = Grid { shape: shape@, data: data@ };
    let ghost result = transposition::<A>(x, weight@, bias@, out_channels, spread);
    let batch = shape[0];
    let out_height = spread_extent(shape[2], spread.kernel.0, spread.stride.0);
    let out_width = spread_extent(shape[3], spread.kernel.1, spread.stride.1);
    proof {
        lemma_rank4(result.shape);
        lemma_extent(batch as int, out_channels as int);
        lemma_extent(batch * out_channels, out_height as int);
    }
    let count = batch * out_channels * out_height * out_width;
    let mut entries: Vec<A::Real> = Vec::new();
    while entries.len() < count
        invariant
            lawful::<A>(),
            x == (Grid { shape: shape@, data: data@ }),
            x.wf(),
            transposes(shape@, weight@.len(), bias@.len(), out_channels, spread),
            batch == shape@[0],
            out_height == spread.height(shape@[2]),
            out_width == spread.width(shape@[3]),
            count == batch * out_channels * out_height * out_width,
            entries@.len() <= count,
            forall|p: int|
                0 <= p < entries@.len() ==> #[trigger] entries@[p] == transposed::<A>(
                    x,
                    weight@,
                    bias@,
                    out_channels,
                    spread,
                    p / out_width as int / out_height as int / out_channels as int,
                    p / out_width as int / out_height as int % out_channels as int,
                    p / out_width as int % out_height as int,
                    p % out_width as int,
                ),
        decreases count - entries@.len(),
    {
        let position = entries.len();
        proof {
            lemma_split4(
                batch as int,
                out_channels as int,
                out_height as int,
                out_width as int,
                position as int,
            );
        }
        let column = position % out_width;
        let row = position / out_width % out_height;
        let out = position / out_width / out_height % out_channels;
        let index = position / out_width / out_height / out_channels;
        let sum = gather_total::<A>(
            data,
            shape,
            weight,
            out_channels,
            spread,
            index,
            out,
            row,
            column,
        );
        entries.push(A::plus(sum, bias[out]));
    }
    let out = Tensor { shape: vec![batch, out_channels, out_height, out_width], data: entries };
    proof {
        assert(out@.shape =~= result.shape);
        assert(out@.data =~= result.data);
    }
    out
}

/// `[N, C, H, W]` through a transposed kernel, no padding. The weight is
/// `[C, out, kH, kW]`.
pub fn conv_transpose2d<A: Arithmetic>(
    x: &Tensor<A::Real>,
    weight: &[A::Real],
    bias: &[A::Real],
    out_channels: usize,
    kernel: (usize, usize),
    stride: (usize, usize),
) -> (out: Tensor<A::Real>)
    requires
        lawful::<A>(),
        x.wf(),
        transposes(
            x@.shape,
            weight@.len(),
            bias@.len(),
            out_channels,
            (Spread { kernel, stride }),
        ),
    ensures
        out@ == transposition::<A>(
            x@,
            weight@,
            bias@,
            out_channels,
            (Spread { kernel, stride }),
        ),
        out.wf(),
{
    transpose::<A>(
        x.data.as_slice(),
        x.shape.as_slice(),
        weight,
        bias,
        out_channels,
        Spread { kernel, stride },
    )
}

/// A one-axis kernel as one of height one.
pub open spec fn line_spread(kernel: usize, stride: usize) -> Spread {
    Spread { kernel: (1, kernel), stride: (1, stride) }
}

/// Whether a transposed convolution of `[N, C, T]` can be computed.
pub open spec fn transposes1(
    shape: Seq<usize>,
    weights: nat,
    biases: nat,
    out_channels: usize,
    spread: Spread,
) -> bool {
    &&& shape.len() == 3
    &&& transposes(raised(shape), weights, biases, out_channels, spread)
}

/// The shape of a transposed convolution of `[N, C, T]`.
pub open spec fn transposition1_shape(
    shape: Seq<usize>,
    out_channels: usize,
    spread: Spread,
) -> Seq<usize> {
    lowered(transposition_shape(raised(shape), out_channels, spread))
}

/// The transposed convolution of `[N, C, T]` with a weight `[C, out, kernel]`
/// and a bias `[out]`.
pub open spec fn transposition1<A: Arithmetic>(
    x: Grid<A::Real>,
    weight: Seq<A::Real>,
    bias: Seq<A::Real>,
    out_channels: usize,
    spread: Spread,
) -> Grid<A::Real> {
    let out = transposition::<A>(x.reshaped(raised(x.shape)), weight, bias, out_channels, spread);
    out.reshaped(lowered(out.shape))
}

/// `[N, C, T]` through a transposed kernel, no padding. The weight is
/// `[C, out, kernel]`.
pub fn conv_transpose1d<A: Arithmetic>(
    x: &Tensor<A::Real>,
    weight: &[A::Real],
    bias: &[A::Real],
    out_channels: usize,
    kernel: usize,
    stride: usize,
) -> (out: Tensor<A::Real>)
    requires
        lawful::<A>(),
        x.wf(),
        transposes1(
            x@.shape,
            weight@.len(),
            bias@.len(),
            out_channels,
            line_spread(kernel, stride),
        ),
    ensures
        out@ == transposition1::<A>(
            x@,
            weight@,
            bias@,
            out_channels,
            line_spread(kernel, stride),
        ),
        out.wf(),
{
    let raised_shape = vec![x.shape[0], x.shape[1], 1, x.shape[2]];
    let spread = Spread { kernel: (1, kernel), stride: (1, stride) };
    proof {
        assert(raised_shape@ =~= raised(x@.shape));
        lemma_raised(x@.shape);
    }
    let out = transpose::<A>(
        x.data.as_slice(),
        raised_shape.as_slice(),
        weight,
        bias,
        out_channels,
        spread,
    );
    proof {
        assert(spread.height(1) == 1);
        lemma_lowered(out@.shape);
    }
    let lowered_shape = vec![out.shape[0], out.shape[1], out.shape[3]];
    proof {
        assert(lowered_shape@ =~= lowered(out@.shape));
    }
    Tensor { shape: lowered_shape, data: out.data }
}

/// The extent of an output axis, where it fits.
fn spread_along(extent: usize, kernel: usize, stride: usize) -> (count: Option<usize>)
    requires
        extent >= 1,
    ensures
        match count {
            Some(count) => count == (extent - 1) * stride + kernel,
            None => (extent - 1) * stride + kernel > usize::MAX,
        },
{
    match (extent - 1).checked_mul(stride) {
        Some(product) => product.checked_add(kernel),
        None => None,
    }
}

/// The shape of a transposed convolution, where it can be computed.
pub fn transposition_of(
    shape: &[usize],
    weights: usize,
    biases: usize,
    out_channels: usize,
    spread: Spread,
) -> (out: Option<Vec<usize>>)
    ensures
        match out {
            Some(out) => transposes(
                shape@,
                weights as nat,
                biases as nat,
                out_channels,
                spread,
            ) && out@ == transposition_shape(shape@, out_channels, spread),
            None => !transposes(shape@, weights as nat, biases as nat, out_channels, spread),
        },
{
    if shape.len() != 4 || shape[2] < 1 || shape[3] < 1 {
        return None;
    }
    let height = match spread_along(shape[2], spread.kernel.0, spread.stride.0) {
        Some(count) => count,
        None => return None,
    };
    let width = match spread_along(shape[3], spread.kernel.1, spread.stride.1) {
        Some(count) => count,
        None => return None,
    };
    let contributions = match product3(out_channels, spread.kernel.0, spread.kernel.1) {
        Some(count) => count,
        None => return None,
    };
    if shape[0] > 0 {
        if out_channels > biases {
            return None;
        }
        match product2(shape[1], contributions) {
            Some(count) => if count != weights {
                return None;
            },
            None => return None,
        }
    }
    let out = vec![shape[0], out_channels, height, width];
    proof {
        assert(out@ =~= transposition_shape(shape@, out_channels, spread));
    }
    if is_addressable(out.as_slice()) {
        Some(out)
    } else {
        None
    }
}

/// The shape of a transposed convolution of `[N, C, T]`, where it can be
/// computed.
pub fn transposition1_of(
    shape: &[usize],
    weights: usize,
    biases: usize,
    out_channels: usize,
    spread: Spread,
) -> (out: Option<Vec<usize>>)
    ensures
        match out {
            Some(out) => transposes1(
                shape@,
                weights as nat,
                biases as nat,
                out_channels,
                spread,
            ) && out@ == transposition1_shape(shape@, out_channels, spread),
            None => !transposes1(shape@, weights as nat, biases as nat, out_channels, spread),
        },
{
    if shape.len() != 3 {
        return None;
    }
    let raised_shape = vec![shape[0], shape[1], 1, shape[2]];
    proof {
        assert(raised_shape@ =~= raised(shape@));
    }
    match transposition_of(raised_shape.as_slice(), weights, biases, out_channels, spread) {
        Some(out) => {
            let lowered_shape = vec![out[0], out[1], out[3]];
            proof {
                assert(lowered_shape@ =~= transposition1_shape(shape@, out_channels, spread));
            }
            Some(lowered_shape)
        },
        None => None,
    }
}

/// The channels of every position of a sample, one row each.
pub open spec fn positions<T>(x: Grid<T>, batch: int) -> Seq<T> {
    let (c, h, w) = (x.shape[1] as int, x.shape[2] as int, x.shape[3] as int);
    table2(h * w, c, |p: int, i: int| at4(x.data, c, h, w, batch, i, p / w, p % w))
}

/// What the positions give is a matrix product: the channels of every position
/// of a sample times the weight.
pub proof fn law_contributions_are_a_matrix_product<A: Arithmetic>(
    x: Grid<A::Real>,
    weight: Seq<A::Real>,
    contributions: int,
    batch: int,
    row: int,
    column: int,
    slot: int,
    channels: int,
)
    requires
        0 <= row < x.shape[2],
        0 <= column < x.shape[3],
        0 <= slot < contributions,
        0 <= channels <= x.shape[1],
    ensures
        channel_sum::<A>(x, weight, contributions, batch, row, column, slot, channels)
            == row_times_column::<A>(
            positions(x, batch),
            weight,
            x.shape[1] as int,
            contributions,
            row * x.shape[3] + column,
            slot,
            channels,
        ),
    decreases channels,
{
    if channels > 0 {
        law_contributions_are_a_matrix_product::<A>(
            x,
            weight,
            contributions,
            batch,
            row,
            column,
            slot,
            channels - 1,
        );
        let (c, h, w) = (x.shape[1] as int, x.shape[2] as int, x.shape[3] as int);
        lemma_join2(h, w, row, column);
        lemma_join2(h * w, c, row * w + column, channels - 1);
    }
}

} // verus!
