//! Convolutions and transposed convolutions over `[N, C, T]` and
//! `[N, C, H, W]`.
//!
//! One axis is two axes of which the first has extent one, so each pair of
//! routines shares one definition.

use vstd::prelude::*;

use crate::arithmetic::{lawful, Arithmetic};
use crate::index::{
    at4, lemma_extent, lemma_join2, lemma_join3, lemma_join4, lemma_split4, table2, table4,
};
use crate::matmul::{flipped, row_times_column};
use crate::tensor::{
    addressable, at_least_one, is_addressable, lemma_rank3, lemma_rank4, product2, product3, span,
    volume, Grid, Tensor,
};

verus! {

/// How a kernel is laid over its input: extents, steps, zero margins and the
/// distance between taps, each `(height, width)`.
#[derive(Clone, Copy, Debug)]
pub struct Window {
    pub kernel: (usize, usize),
    pub stride: (usize, usize),
    pub pad: (usize, usize),
    pub dilation: (usize, usize),
}

/// How many positions the taps of a kernel span along an axis.
pub open spec fn reach(kernel: int, dilation: int) -> int {
    if kernel == 0 {
        0
    } else {
        dilation * (kernel - 1) + 1
    }
}

/// How many steps a kernel takes along a padded axis.
pub open spec fn steps(extent: int, kernel: int, stride: int, pad: int, dilation: int) -> int {
    (extent + 2 * pad - reach(kernel, dilation)) / stride + 1
}

impl Window {
    /// The height of the output on an input of this height.
    pub open spec fn height(self, height: usize) -> int {
        steps(
            height as int,
            self.kernel.0 as int,
            self.stride.0 as int,
            self.pad.0 as int,
            self.dilation.0 as int,
        )
    }

    /// The width of the output on an input of this width.
    pub open spec fn width(self, width: usize) -> int {
        steps(
            width as int,
            self.kernel.1 as int,
            self.stride.1 as int,
            self.pad.1 as int,
            self.dilation.1 as int,
        )
    }

    /// How many inputs one output reads.
    pub open spec fn columns(self, channels: usize) -> int {
        channels * self.kernel.0 * self.kernel.1
    }

    /// Whether the kernel fits over an input of these extents.
    pub open spec fn fits(self, channels: usize, height: usize, width: usize) -> bool {
        &&& self.stride.0 > 0
        &&& self.stride.1 > 0
        &&& reach(self.kernel.0 as int, self.dilation.0 as int) <= height + 2 * self.pad.0
            <= usize::MAX
        &&& reach(self.kernel.1 as int, self.dilation.1 as int) <= width + 2 * self.pad.1
            <= usize::MAX
        &&& self.columns(channels) <= usize::MAX
    }
}

/// The entry at a position of a plane with a zero margin all around.
pub open spec fn padded<A: Arithmetic>(
    x: Grid<A::Real>,
    batch: int,
    channel: int,
    row: int,
    column: int,
) -> A::Real {
    if 0 <= row < x.shape[2] && 0 <= column < x.shape[3] {
        at4(
            x.data,
            x.shape[1] as int,
            x.shape[2] as int,
            x.shape[3] as int,
            batch,
            channel,
            row,
            column,
        )
    } else {
        A::zero_spec()
    }
}

/// The input that tap `tap` of the patch under output `(row, column)` reads.
/// Taps are counted channel by channel, row by row.
pub open spec fn patch<A: Arithmetic>(
    x: Grid<A::Real>,
    window: Window,
    batch: int,
    row: int,
    column: int,
    tap: int,
) -> A::Real {
    let kernel_h = window.kernel.0 as int;
    let kernel_w = window.kernel.1 as int;
    padded::<A>(
        x,
        batch,
        tap / kernel_w / kernel_h,
        row * window.stride.0 + (tap / kernel_w % kernel_h) * window.dilation.0 - window.pad.0,
        column * window.stride.1 + (tap % kernel_w) * window.dilation.1 - window.pad.1,
    )
}

/// The first `taps` products of a patch and the weights of output channel
/// `out`, accumulated from zero in order.
pub open spec fn patch_sum<A: Arithmetic>(
    x: Grid<A::Real>,
    weight: Seq<A::Real>,
    window: Window,
    batch: int,
    out: int,
    row: int,
    column: int,
    taps: int,
) -> A::Real
    decreases taps,
{
    if taps <= 0 {
        A::zero_spec()
    } else {
        A::plus_spec(
            patch_sum::<A>(x, weight, window, batch, out, row, column, taps - 1),
            A::times_spec(
                patch::<A>(x, window, batch, row, column, taps - 1),
                weight[out * window.columns(x.shape[1]) + (taps - 1)],
            ),
        )
    }
}

/// One entry of a convolution: the patch's sum, then the bias.
pub open spec fn convolved<A: Arithmetic>(
    x: Grid<A::Real>,
    weight: Seq<A::Real>,
    bias: Seq<A::Real>,
    window: Window,
    batch: int,
    out: int,
    row: int,
    column: int,
) -> A::Real {
    A::plus_spec(
        patch_sum::<A>(
            x,
            weight,
            window,
            batch,
            out,
            row,
            column,
            window.columns(x.shape[1]),
        ),
        bias[out],
    )
}

/// The shape of a convolution.
pub open spec fn convolution_shape(
    shape: Seq<usize>,
    out_channels: usize,
    window: Window,
) -> Seq<usize> {
    seq![
        shape[0],
        out_channels,
        window.height(shape[2]) as usize,
        window.width(shape[3]) as usize,
    ]
}

/// The convolution of `[N, C, H, W]` with a weight `[out, C, kH, kW]` and a
/// bias `[out]`.
pub open spec fn convolution<A: Arithmetic>(
    x: Grid<A::Real>,
    weight: Seq<A::Real>,
    bias: Seq<A::Real>,
    out_channels: usize,
    window: Window,
) -> Grid<A::Real> {
    Grid {
        shape: convolution_shape(x.shape, out_channels, window),
        data: table4(
            x.shape[0] as int,
            out_channels as int,
            window.height(x.shape[2]),
            window.width(x.shape[3]),
            |b: int, o: int, i: int, j: int|
                convolved::<A>(x, weight, bias, window, b, o, i, j),
        ),
    }
}

/// Whether a convolution of a tensor of this shape can be computed: the kernel
/// fits, there are weights and biases enough, and the result is addressable.
pub open spec fn convolves(
    shape: Seq<usize>,
    weights: nat,
    biases: nat,
    out_channels: usize,
    window: Window,
) -> bool {
    &&& shape.len() == 4
    &&& window.fits(shape[1], shape[2], shape[3])
    &&& out_channels * window.columns(shape[1]) <= weights
    &&& shape[0] > 0 ==> out_channels <= biases
    &&& window.height(shape[2]) <= usize::MAX
    &&& window.width(shape[3]) <= usize::MAX
    &&& addressable(convolution_shape(shape, out_channels, window))
}

proof fn lemma_tap(total: int, kernel: int, stride: int, dilation: int, step: int, tap: int)
    requires
        0 <= tap < kernel,
        stride > 0,
        dilation >= 0,
        0 <= step <= (total - reach(kernel, dilation)) / stride,
        reach(kernel, dilation) <= total,
    ensures
        0 <= step * stride <= total,
        0 <= tap * dilation <= total,
        step * stride + tap * dilation < total,
{
    let room = total - reach(kernel, dilation);
    vstd::arithmetic::div_mod::lemma_fundamental_div_mod(room, stride);
    vstd::arithmetic::div_mod::lemma_mod_bound(room, stride);
    assert(0 <= step * stride <= stride * (room / stride)) by (nonlinear_arith)
        requires
            0 <= step <= room / stride,
            stride > 0,
    ;
    assert(0 <= tap * dilation <= dilation * (kernel - 1)) by (nonlinear_arith)
        requires
            0 <= tap < kernel,
            dilation >= 0,
    ;
}

proof fn lemma_steps(extent: int, kernel: int, stride: int, pad: int, dilation: int)
    requires
        stride > 0,
        dilation >= 0,
        kernel >= 0,
        0 <= extent,
        0 <= pad,
        reach(kernel, dilation) <= extent + 2 * pad,
    ensures
        steps(extent, kernel, stride, pad, dilation) >= 1,
        0 <= reach(kernel, dilation),
        steps(extent, kernel, stride, pad, dilation) <= extent + 2 * pad + 1,
{
    let room = extent + 2 * pad - reach(kernel, dilation);
    assert(kernel > 0 ==> dilation * (kernel - 1) >= 0) by (nonlinear_arith)
        requires
            dilation >= 0,
            kernel >= 0,
    ;
    assert(0 <= room / stride <= room) by (nonlinear_arith)
        requires
            stride > 0,
            room >= 0,
    ;
}

/// The patch's sum for one output.
fn patch_total<A: Arithmetic>(
    data: &[A::Real],
    shape: &[usize],
    weight: &[A::Real],
    window: Window,
    batch: usize,
    out: usize,
    row: usize,
    column: usize,
) -> (sum: A::Real)
    requires
        lawful::<A>(),
        shape@.len() == 4,
        (Grid { shape: shape@, data: data@ }).wf(),
        window.fits(shape@[1], shape@[2], shape@[3]),
        (out + 1) * window.columns(shape@[1]) <= weight@.len(),
        batch < shape@[0],
        row < window.height(shape@[2]),
        column < window.width(shape@[3]),
    ensures
        sum == patch_sum::<A>(
            (Grid { shape: shape@, data: data@ }),
            weight@,
            window,
            batch as int,
            out as int,
            row as int,
            column as int,
            window.columns(shape@[1]),
        ),
{
    let ghost x = Grid { shape: shape@, data: data@ };
    let channels = shape[1];
    let height = shape[2];
    let width = shape[3];
    let (kernel_h, kernel_w) = window.kernel;
    proof {
        lemma_rank4(shape@);
        assert(data@.len() == data.len());
        assert(weight@.len() == weight.len());
        lemma_extent(channels as int, kernel_h as int);
        assert(kernel_w >= 1 ==> channels * kernel_h <= channels * kernel_h * kernel_w)
            by (nonlinear_arith)
            requires
                0 <= channels * kernel_h,
        ;
        assert(kernel_w == 0 ==> channels * kernel_h * kernel_w == 0) by (nonlinear_arith);
    }
    let mut sum = A::zero();
    if kernel_w == 0 {
        return sum;
    }
    let columns = channels * kernel_h * kernel_w;
    proof {
        assert(out * columns + columns == (out + 1) * columns) by (nonlinear_arith);
        lemma_extent(out as int, columns as int);
        assert((0 * kernel_h + 0) * kernel_w + 0 == 0) by (nonlinear_arith);
        assert(columns > 0 ==> channels > 0 && kernel_h > 0) by (nonlinear_arith)
            requires
                columns == channels * kernel_h * kernel_w,
        ;
    }
    let weights_from = out * columns;
    let mut tap: usize = 0;
    let mut channel: usize = 0;
    let mut tap_h: usize = 0;
    let mut tap_w: usize = 0;
    while tap < columns
        invariant
            lawful::<A>(),
            x == (Grid { shape: shape@, data: data@ }),
            shape@.len() == 4,
            shape@[1] == channels,
            shape@[2] == height,
            shape@[3] == width,
            (kernel_h, kernel_w) == window.kernel,
            kernel_w > 0,
            data@.len() == shape@[0] * channels * height * width <= usize::MAX,
            window.fits(channels, height, width),
            columns == window.columns(channels),
            columns == channels * kernel_h * kernel_w,
            weights_from == out * columns,
            weights_from + columns <= weight@.len() <= usize::MAX,
            batch < shape@[0],
            row < window.height(height),
            column < window.width(width),
            tap <= columns,
            tap == (channel * kernel_h + tap_h) * kernel_w + tap_w,
            tap < columns ==> channel < channels && tap_h < kernel_h && tap_w < kernel_w,
            sum == patch_sum::<A>(
                x,
                weight@,
                window,
                batch as int,
                out as int,
                row as int,
                column as int,
                tap as int,
            ),
        decreases columns - tap,
    {
        proof {
            lemma_join3(
                channels as int,
                kernel_h as int,
                kernel_w as int,
                channel as int,
                tap_h as int,
                tap_w as int,
            );
            lemma_tap(
                height + 2 * window.pad.0,
                kernel_h as int,
                window.stride.0 as int,
                window.dilation.0 as int,
                row as int,
                tap_h as int,
            );
            lemma_tap(
                width + 2 * window.pad.1,
                kernel_w as int,
                window.stride.1 as int,
                window.dilation.1 as int,
                column as int,
                tap_w as int,
            );
        }
        let source_h = row * window.stride.0 + tap_h * window.dilation.0;
        let source_w = column * window.stride.1 + tap_w * window.dilation.1;
        let input = if source_h >= window.pad.0 && source_h - window.pad.0 < height && source_w
            >= window.pad.1 && source_w - window.pad.1 < width {
            proof {
                lemma_join4(
                    shape@[0] as int,
                    channels as int,
                    height as int,
                    width as int,
                    batch as int,
                    channel as int,
                    source_h - window.pad.0,
                    source_w - window.pad.1,
                );
                lemma_rank4(shape@);
            }
            data[((batch * channels + channel) * height + (source_h - window.pad.0)) * width + (
            source_w - window.pad.1)]
        } else {
            A::zero()
        };
        sum = A::plus(sum, A::times(input, weight[weights_from + tap]));
        proof {
            lemma_next_tap(
                channels as int,
                kernel_h as int,
                kernel_w as int,
                channel as int,
                tap_h as int,
                tap_w as int,
            );
        }
        tap = tap + 1;
        tap_w = tap_w + 1;
        if tap_w == kernel_w {
            tap_w = 0;
            tap_h = tap_h + 1;
            if tap_h == kernel_h {
                tap_h = 0;
                channel = channel + 1;
            }
        }
    }
    sum
}

/// Stepping the last of three coordinates, with carries, steps the position.
proof fn lemma_next_tap(n0: int, n1: int, n2: int, i: int, j: int, k: int)
    requires
        0 <= i < n0,
        0 <= j < n1,
        0 <= k < n2,
    ensures
        (i * n1 + (j + 1)) * n2 == (i * n1 + j) * n2 + n2,
        (i + 1) * n1 == i * n1 + n1,
        i + 1 == n0 ==> ((i + 1) * n1 + 0) * n2 + 0 == n0 * n1 * n2,
{
    assert((i * n1 + (j + 1)) * n2 == (i * n1 + j) * n2 + n2) by (nonlinear_arith);
    assert((i + 1) * n1 == i * n1 + n1) by (nonlinear_arith);
}

/// `reach` and `steps` of one axis.
fn count_steps(extent: usize, kernel: usize, stride: usize, pad: usize, dilation: usize) -> (count:
    usize)
    requires
        stride > 0,
        reach(kernel as int, dilation as int) <= extent + 2 * pad <= usize::MAX,
        steps(extent as int, kernel as int, stride as int, pad as int, dilation as int)
            <= usize::MAX,
    ensures
        count == steps(
            extent as int,
            kernel as int,
            stride as int,
            pad as int,
            dilation as int,
        ),
        count >= 1,
{
    proof {
        lemma_steps(
            extent as int,
            kernel as int,
            stride as int,
            pad as int,
            dilation as int,
        );
        assert(kernel > 0 ==> dilation * (kernel - 1) >= 0) by (nonlinear_arith);
    }
    let reach = if kernel == 0 {
        0
    } else {
        dilation * (kernel - 1) + 1
    };
    (extent + 2 * pad - reach) / stride + 1
}

/// A convolution of `[N, C, H, W]`, entry by entry.
fn convolve<A: Arithmetic>(
    data: &[A::Real],
    shape: &[usize],
    weight: &[A::Real],
    bias: &[A::Real],
    out_channels: usize,
    window: Window,
) -> (out: Tensor<A::Real>)
    requires
        lawful::<A>(),
        (Grid { shape: shape@, data: data@ }).wf(),
        convolves(shape@, weight@.len(), bias@.len(), out_channels, window),
    ensures
        out@ == convolution::<A>(
            (Grid { shape: shape@, data: data@ }),
            weight@,
            bias@,
            out_channels,
            window,
        ),
        out.wf(),
{
    let ghost x = Grid { shape: shape@, data: data@ };
    let ghost result = convolution::<A>(x, weight@, bias@, out_channels, window);
    let batch = shape[0];
    let out_height = count_steps(
        shape[2],
        window.kernel.0,
        window.stride.0,
        window.pad.0,
        window.dilation.0,
    );
    let out_width = count_steps(
        shape[3],
        window.kernel.1,
        window.stride.1,
        window.pad.1,
        window.dilation.1,
    );
    proof {
        lemma_rank4(result.shape);
        lemma_extent(batch as int, out_channels as int);
    }
    let count = batch * out_channels * out_height * out_width;
    let mut entries: Vec<A::Real> = Vec::new();
    while entries.len() < count
        invariant
            lawful::<A>(),
            x == (Grid { shape: shape@, data: data@ }),
            x.wf(),
            convolves(shape@, weight@.len(), bias@.len(), out_channels, window),
            batch == shape@[0],
            out_height == window.height(shape@[2]),
            out_width == window.width(shape@[3]),
            count == batch * out_channels * out_height * out_width,
            entries@.len() <= count,
            forall|p: int|
                0 <= p < entries@.len() ==> #[trigger] entries@[p] == convolved::<A>(
                    x,
                    weight@,
                    bias@,
                    window,
                    p / out_width as int / out_height as int / out_channels as int,
                    p / out_width as int / out_height as int % out_channels as int,
                    p / out_width as int % out_height as int,
                    p % out_width as int,
                ),
        decreases count - entries@.len(),
    {
        let position = entries.len();
        proof {
            lemma_split4(
                batch as int,
                out_channels as int,
                out_height as int,
                out_width as int,
                position as int,
            );
        }
        let column = position % out_width;
        let row = position / out_width % out_height;
        let out = position / out_width / out_height % out_channels;
        let index = position / out_width / out_height / out_channels;
        proof {
            let columns = window.columns(shape@[1]);
            lemma_extent(shape@[1] as int, window.kernel.0 as int);
            lemma_extent(shape@[1] * window.kernel.0, window.kernel.1 as int);
            assert((out + 1) * columns <= out_channels * columns) by (nonlinear_arith)
                requires
                    out < out_channels,
                    columns >= 0,
            ;
        }
        let sum = patch_total::<A>(data, shape, weight, window, index, out, row, column);
        entries.push(A::plus(sum, bias[out]));
    }
    let out = Tensor { shape: vec![batch, out_channels, out_height, out_width], data: entries };
    proof {
        assert(out@.shape =~= result.shape);
        assert(out@.data =~= result.data);
    }
    out
}

/// `[N, C, H, W]` convolved with zero padding. `kernel`, `stride` and `pad`
/// are `(height, width)`; the weight is `[out, C, kH, kW]`.
pub fn conv2d<A: Arithmetic>(
    x: &Tensor<A::Real>,
    weight: &[A::Real],
    bias: &[A::Real],
    out_channels: usize,
    kernel: (usize, usize),
    stride: (usize, usize),
    pad: (usize, usize),
) -> (out: Tensor<A::Real>)
    requires
        lawful::<A>(),
        x.wf(),
        convolves(
            x@.shape,
            weight@.len(),
            bias@.len(),
            out_channels,
            (Window { kernel, stride, pad, dilation: (1, 1) }),
        ),
    ensures
        out@ == convolution::<A>(
            x@,
            weight@,
            bias@,
            out_channels,
            (Window { kernel, stride, pad, dilation: (1, 1) }),
        ),
        out.wf(),
{
    convolve::<A>(
        x.data.as_slice(),
        x.shape.as_slice(),
        weight,
        bias,
        out_channels,
        Window { kernel, stride, pad, dilation: (1, 1) },
    )
}

/// `[N, C, T]` as `[N, C, 1, T]`.
pub open spec fn raised(shape: Seq<usize>) -> Seq<usize> {
    seq![shape[0], shape[1], 1, shape[2]]
}

/// `[N, C, 1, T]` as `[N, C, T]`.
pub open spec fn lowered(shape: Seq<usize>) -> Seq<usize> {
    seq![shape[0], shape[1], shape[3]]
}

/// A one-axis kernel as one of height one.
pub open spec fn line(kernel: usize, stride: usize, padding: usize, dilation: usize) -> Window {
    Window { kernel: (1, kernel), stride: (1, stride), pad: (0, padding), dilation: (1, dilation) }
}

/// Whether a convolution of `[N, C, T]` can be computed.
pub open spec fn convolves1(
    shape: Seq<usize>,
    weights: nat,
    biases: nat,
    out_channels: usize,
    window: Window,
) -> bool {
    &&& shape.len() == 3
    &&& convolves(raised(shape), weights, biases, out_channels, window)
}

/// The shape of a convolution of `[N, C, T]`.
pub open spec fn convolution1_shape(
    shape: Seq<usize>,
    out_channels: usize,
    window: Window,
) -> Seq<usize> {
    lowered(convolution_shape(raised(shape), out_channels, window))
}

/// The convolution of `[N, C, T]` with a weight `[out, C, kernel]` and a bias
/// `[out]`.
pub open spec fn convolution1<A: Arithmetic>(
    x: Grid<A::Real>,
    weight: Seq<A::Real>,
    bias: Seq<A::Real>,
    out_channels: usize,
    window: Window,
) -> Grid<A::Real> {
    let out = convolution::<A>(x.reshaped(raised(x.shape)), weight, bias, out_channels, window);
    out.reshaped(lowered(out.shape))
}

/// An axis of extent one changes neither volume nor span.
pub proof fn lemma_raised(shape: Seq<usize>)
    requires
        shape.len() == 3,
    ensures
        volume(raised(shape)) == volume(shape),
        span(raised(shape)) == span(shape),
{
    lemma_rank3(shape);
    lemma_rank4(raised(shape));
    let (a, b, c) = (shape[0], shape[1], shape[2]);
    assert(a * b * 1 * c == a * b * c);
    let (u, v, w) = (at_least_one(a), at_least_one(b), at_least_one(c));
    assert(span(raised(shape)) == u * v * 1 * w);
    assert(u * v * 1 * w == u * v * w);
}

/// Dropping an axis of extent one changes neither volume nor span.
pub proof fn lemma_lowered(shape: Seq<usize>)
    requires
        shape.len() == 4,
        shape[2] == 1,
    ensures
        volume(lowered(shape)) == volume(shape),
        span(lowered(shape)) == span(shape),
{
    assert(raised(lowered(shape)) =~= shape);
    lemma_raised(lowered(shape));
}

/// `[N, C, T]` convolved with zero padding; the weight is `[out, C, kernel]`.
pub fn conv1d<A: Arithmetic>(
    x: &Tensor<A::Real>,
    weight: &[A::Real],
    bias: &[A::Real],
    out_channels: usize,
    kernel: usize,
    stride: usize,
    padding: usize,
    dilation: usize,
) -> (out: Tensor<A::Real>)
    requires
        lawful::<A>(),
        x.wf(),
        kernel >= 1,
        convolves1(
            x@.shape,
            weight@.len(),
            bias@.len(),
            out_channels,
            line(kernel, stride, padding, dilation),
        ),
    ensures
        out@ == convolution1::<A>(
            x@,
            weight@,
            bias@,
            out_channels,
            line(kernel, stride, padding, dilation),
        ),
        out.wf(),
{
    let raised_shape = vec![x.shape[0], x.shape[1], 1, x.shape[2]];
    let window = Window {
        kernel: (1, kernel),
        stride: (1, stride),
        pad: (0, padding),
        dilation: (1, dilation),
    };
    proof {
        assert(raised_shape@ =~= raised(x@.shape));
        lemma_raised(x@.shape);
    }
    let out = convolve::<A>(
        x.data.as_slice(),
        raised_shape.as_slice(),
        weight,
        bias,
        out_channels,
        window,
    );
    proof {
        assert(window.height(1) == 1);
        lemma_lowered(out@.shape);
    }
    let lowered_shape = vec![out.shape[0], out.shape[1], out.shape[3]];
    proof {
        assert(lowered_shape@ =~= lowered(out@.shape));
    }
    Tensor { shape: lowered_shape, data: out.data }
}

/// How many steps a kernel takes along an axis: none where it does not fit.
fn steps_along(extent: usize, kernel: usize, stride: usize, pad: usize, dilation: usize) -> (count:
    Option<usize>)
    ensures
        match count {
            Some(count) => {
                &&& stride > 0
                &&& reach(kernel as int, dilation as int) <= extent + 2 * pad <= usize::MAX
                &&& count == steps(
                    extent as int,
                    kernel as int,
                    stride as int,
                    pad as int,
                    dilation as int,
                )
            },
            None => stride == 0 || extent + 2 * pad > usize::MAX || reach(
                kernel as int,
                dilation as int,
            ) > extent + 2 * pad || steps(
                extent as int,
                kernel as int,
                stride as int,
                pad as int,
                dilation as int,
            ) > usize::MAX,
        },
{
    if stride == 0 || pad > usize::MAX / 2 || extent > usize::MAX - 2 * pad {
        return None;
    }
    let room = extent + 2 * pad;
    let spanned = if kernel == 0 {
        0
    } else {
        match dilation.checked_mul(kernel - 1) {
            Some(product) => if product < room {
                product + 1
            } else {
                return None;
            },
            None => return None,
        }
    };
    proof {
        lemma_steps(
            extent as int,
            kernel as int,
            stride as int,
            pad as int,
            dilation as int,
        );
    }
    let last = (room - spanned) / stride;
    if last == usize::MAX {
        None
    } else {
        Some(last + 1)
    }
}

/// The shape of a convolution, where it can be computed.
pub fn convolution_of(
    shape: &[usize],
    weights: usize,
    biases: usize,
    out_channels: usize,
    window: Window,
) -> (out: Option<Vec<usize>>)
    ensures
        match out {
            Some(out) => convolves(
                shape@,
                weights as nat,
                biases as nat,
                out_channels,
                window,
            ) && out@ == convolution_shape(shape@, out_channels, window),
            None => !convolves(shape@, weights as nat, biases as nat, out_channels, window),
        },
{
    if shape.len() != 4 {
        return None;
    }
    let height = match steps_along(
        shape[2],
        window.kernel.0,
        window.stride.0,
        window.pad.0,
        window.dilation.0,
    ) {
        Some(count) => count,
        None => return None,
    };
    let width = match steps_along(
        shape[3],
        window.kernel.1,
        window.stride.1,
        window.pad.1,
        window.dilation.1,
    ) {
        Some(count) => count,
        None => return None,
    };
    let columns = match product3(shape[1], window.kernel.0, window.kernel.1) {
        Some(count) => count,
        None => return None,
    };
    match product2(out_channels, columns) {
        Some(count) => if count > weights {
            return None;
        },
        None => return None,
    }
    if shape[0] > 0 && out_channels > biases {
        return None;
    }
    let out = vec![shape[0], out_channels, height, width];
    proof {
        assert(out@ =~= convolution_shape(shape@, out_channels, window));
    }
    if is_addressable(out.as_slice()) {
        Some(out)
    } else {
        None
    }
}

/// The shape of a convolution of `[N, C, T]`, where it can be computed.
pub fn convolution1_of(
    shape: &[usize],
    weights: usize,
    biases: usize,
    out_channels: usize,
    window: Window,
) -> (out: Option<Vec<usize>>)
    ensures
        match out {
            Some(out) => convolves1(
                shape@,
                weights as nat,
                biases as nat,
                out_channels,
                window,
            ) && out@ == convolution1_shape(shape@, out_channels, window),
            None => !convolves1(shape@, weights as nat, biases as nat, out_channels, window),
        },
{
    if shape.len() != 3 {
        return None;
    }
    let raised_shape = vec![shape[0], shape[1], 1, shape[2]];
    proof {
        assert(raised_shape@ =~= raised(shape@));
    }
    match convolution_of(raised_shape.as_slice(), weights, biases, out_channels, window) {
        Some(out) => {
            let lowered_shape = vec![out[0], out[1], out[3]];
            proof {
                assert(lowered_shape@ =~= convolution1_shape(shape@, out_channels, window));
            }
            Some(lowered_shape)
        },
        None => None,
    }
}

/// The patches under every output of a sample, one row each.
pub open spec fn patches<A: Arithmetic>(x: Grid<A::Real>, window: Window, batch: int) -> Seq<
    A::Real,
> {
    let width = window.width(x.shape[3]);
    table2(
        window.height(x.shape[2]) * width,
        window.columns(x.shape[1]),
        |r: int, tap: int| patch::<A>(x, window, batch, r / width, r % width, tap),
    )
}

/// A convolution is a matrix product: the patches of a sample times the
/// flipped weight, before the bias.
pub proof fn law_a_convolution_is_a_matrix_product<A: Arithmetic>(
    x: Grid<A::Real>,
    weight: Seq<A::Real>,
    window: Window,
    out_channels: int,
    batch: int,
    out: int,
    row: int,
    column: int,
    taps: int,
)
    requires
        0 <= out < out_channels,
        0 <= row < window.height(x.shape[2]),
        0 <= column < window.width(x.shape[3]),
        0 <= taps <= window.columns(x.shape[1]),
    ensures
        patch_sum::<A>(x, weight, window, batch, out, row, column, taps) == row_times_column::<A>(
            patches::<A>(x, window, batch),
            flipped(weight, out_channels, window.columns(x.shape[1])),
            window.columns(x.shape[1]),
            out_channels,
            row * window.width(x.shape[3]) + column,
            out,
            taps,
        ),
    decreases taps,
{
    if taps > 0 {
        law_a_convolution_is_a_matrix_product::<A>(
            x,
            weight,
            window,
            out_channels,
            batch,
            out,
            row,
            column,
            taps - 1,
        );
        let columns = window.columns(x.shape[1]);
        let height = window.height(x.shape[2]);
        let width = window.width(x.shape[3]);
        lemma_join2(height, width, row, column);
        lemma_join2(height * width, columns, row * width + column, taps - 1);
        lemma_join2(columns, out_channels, taps - 1, out);
    }
}

/// A convolution of one axis is one of two axes of which the first has extent
/// one: the same entries, with that axis dropped from the shape.
pub proof fn law_one_axis_is_two_of_height_one<A: Arithmetic>(
    x: Grid<A::Real>,
    weight: Seq<A::Real>,
    bias: Seq<A::Real>,
    out_channels: usize,
    kernel: usize,
    stride: usize,
    padding: usize,
)
    requires
        x.wf(),
        convolves1(
            x.shape,
            weight.len(),
            bias.len(),
            out_channels,
            line(kernel, stride, padding, 1),
        ),
    ensures
        ({
            let plane = x.reshaped(seq![x.shape[0], x.shape[1], 1, x.shape[2]]);
            let window = Window {
                kernel: (1, kernel),
                stride: (1, stride),
                pad: (0, padding),
                dilation: (1, 1),
            };
            let one = convolution1::<A>(
                x,
                weight,
                bias,
                out_channels,
                line(kernel, stride, padding, 1),
            );
            let two = convolution::<A>(plane, weight, bias, out_channels, window);
            &&& plane.wf()
            &&& convolves(plane.shape, weight.len(), bias.len(), out_channels, window)
            &&& one.data == two.data
            &&& two.shape == seq![x.shape[0], out_channels, 1, one.shape[2]]
            &&& one.shape == seq![x.shape[0], out_channels, two.shape[3]]
        }),
{
    lemma_raised(x.shape);
    let window = line(kernel, stride, padding, 1);
    assert(window.height(1) == 1);
    let two = convolution::<A>(x.reshaped(raised(x.shape)), weight, bias, out_channels, window);
    assert(two.shape =~= seq![x.shape[0], out_channels, 1, two.shape[3]]);
}

} // verus!
