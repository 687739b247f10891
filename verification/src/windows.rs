//! What convolutions and transposed convolutions weigh, by coordinates.

use vstd::prelude::*;

use crate::adjoint::zeros;
use crate::arithmetic::Arithmetic;
use crate::conv::{convolution, convolution1, convolves, patch, patch_sum, raised, Window};
use crate::conv_transpose::{transposition, transposition1, Spread};
use crate::fields::lemma_neutral;
use crate::index::{at3, at4, lemma_extent, lemma_join2, lemma_join3, lemma_join4, lemma_split3};
use crate::model::ChannelConv;
use crate::rings::{lemma_total_alike, lemma_total_rows, ring, total};
use crate::tensor::{lemma_rank4, Grid};

verus! {

/// The entry of a plane, or zero off its edges.
pub open spec fn entry_or_zero<A: Arithmetic>(
    x: Grid<A::Real>,
    b: int,
    c: int,
    row: int,
    column: int,
) -> A::Real {
    if 0 <= row && row < x.shape[2] && 0 <= column && column < x.shape[3] {
        x.data[((b * x.shape[1] + c) * x.shape[2] + row) * x.shape[3] + column]
    } else {
        A::zero_spec()
    }
}

/// A sum over three coordinates at once is a sum of sums of sums.
proof fn lemma_total_cube<A: Arithmetic>(
    n: int,
    m: int,
    l: int,
    g: spec_fn(int, int, int) -> A::Real,
)
    requires
        ring::<A>(),
        0 <= n,
        0 <= m,
        0 <= l,
    ensures
        total::<A>(n * m * l, |p: int| g(p / l / m, p / l % m, p % l)) == total::<A>(
            n,
            |i: int| total::<A>(m, |j: int| total::<A>(l, |k: int| g(i, j, k))),
        ),
{
    lemma_extent(n, m);
    let f = |row: int, k: int| g(row / m, row % m, k);
    lemma_total_rows::<A>(n * m, l, f);
    lemma_total_alike::<A>(
        n * m * l,
        |p: int| f(p / l, p % l),
        |p: int| g(p / l / m, p / l % m, p % l),
    );
    let h = |i: int, j: int| total::<A>(l, |k: int| g(i, j, k));
    lemma_total_rows::<A>(n, m, h);
    let rows = |row: int| total::<A>(l, |k: int| f(row, k));
    let flat = |row: int| h(row / m, row % m);
    assert forall|row: int| 0 <= row < n * m implies #[trigger] rows(row) == flat(row) by {
        lemma_total_alike::<A>(l, |k: int| f(row, k), |k: int| g(row / m, row % m, k));
    }
    lemma_total_alike::<A>(n * m, rows, flat);
    lemma_total_alike::<A>(n * m, rows, |row: int| total::<A>(l, |k: int| f(row, k)));
    lemma_total_alike::<A>(n * m, flat, |row: int| h(row / m, row % m));
    let outer = |i: int| total::<A>(m, |j: int| h(i, j));
    let wanted = |i: int| total::<A>(m, |j: int| total::<A>(l, |k: int| g(i, j, k)));
    assert forall|i: int| 0 <= i < n implies #[trigger] outer(i) == wanted(i) by {
        lemma_total_alike::<A>(
            m,
            |j: int| h(i, j),
            |j: int| total::<A>(l, |k: int| g(i, j, k)),
        );
    }
    lemma_total_alike::<A>(n, outer, wanted);
    lemma_total_alike::<A>(n, outer, |i: int| total::<A>(m, |j: int| h(i, j)));
    lemma_total_alike::<A>(
        n,
        wanted,
        |i: int| total::<A>(m, |j: int| total::<A>(l, |k: int| g(i, j, k))),
    );
}

proof fn lemma_patch_sum<A: Arithmetic>(
    x: Grid<A::Real>,
    weight: Seq<A::Real>,
    window: Window,
    b: int,
    o: int,
    i: int,
    j: int,
    taps: int,
)
    ensures
        patch_sum::<A>(x, weight, window, b, o, i, j, taps) == total::<A>(
            taps,
            |tap: int|
                A::times_spec(
                    patch::<A>(x, window, b, i, j, tap),
                    weight[o * window.columns(x.shape[1]) + tap],
                ),
        ),
    decreases taps,
{
    if taps > 0 {
        lemma_patch_sum::<A>(x, weight, window, b, o, i, j, taps - 1);
    }
}

/// A convolution weighs a window: the entry of channel `o` at `(i, j)` is the
/// sum, over the input's channels `c` and the kernel's taps `(u, v)`, of weight
/// `[o, c, u, v]` times the input at `(i, j)` times the stride plus `(u, v)`
/// times the dilation less the margin, and the bias of `o`. What lies off the
/// edges is zero.
pub proof fn law_convolutions_weigh_a_window<A: Arithmetic>(
    x: Grid<A::Real>,
    weight: Seq<A::Real>,
    bias: Seq<A::Real>,
    outs: usize,
    window: Window,
    b: int,
    o: int,
    i: int,
    j: int,
)
    requires
        ring::<A>(),
        convolves(x.shape, weight.len(), bias.len(), outs, window),
        0 <= b < x.shape[0],
        0 <= o < outs,
        window.kernel.0 > 0,
        window.kernel.1 > 0,
        0 <= i < (x.shape[2] + 2 * window.pad.0 - window.dilation.0 * (window.kernel.0 - 1) - 1)
            / window.stride.0 as int + 1,
        0 <= j < (x.shape[3] + 2 * window.pad.1 - window.dilation.1 * (window.kernel.1 - 1) - 1)
            / window.stride.1 as int + 1,
    ensures
        ({
            let out = convolution::<A>(x, weight, bias, outs, window);
            let (c0, kh, kw) = (
                x.shape[1] as int,
                window.kernel.0 as int,
                window.kernel.1 as int,
            );
            &&& out.shape.len() == 4
            &&& out.shape[0] == x.shape[0]
            &&& out.shape[1] == outs
            &&& out.shape[2] == (x.shape[2] + 2 * window.pad.0 - window.dilation.0
                * (window.kernel.0 - 1) - 1) / window.stride.0 as int + 1
            &&& out.shape[3] == (x.shape[3] + 2 * window.pad.1 - window.dilation.1
                * (window.kernel.1 - 1) - 1) / window.stride.1 as int + 1
            &&& at4(
                out.data,
                outs as int,
                out.shape[2] as int,
                out.shape[3] as int,
                b,
                o,
                i,
                j,
            ) == A::plus_spec(
                total::<A>(
                    c0,
                    |c: int|
                        total::<A>(
                            kh,
                            |u: int|
                                total::<A>(
                                    kw,
                                    |v: int|
                                        A::times_spec(
                                            entry_or_zero::<A>(
                                                x,
                                                b,
                                                c,
                                                i * window.stride.0 + u * window.dilation.0
                                                    - window.pad.0,
                                                j * window.stride.1 + v * window.dilation.1
                                                    - window.pad.1,
                                            ),
                                            weight[((o * c0 + c) * kh + u) * kw + v],
                                        ),
                                ),
                        ),
                ),
                bias[o],
            )
        }),
{
    let (c0, kh, kw) = (x.shape[1] as int, window.kernel.0 as int, window.kernel.1 as int);
    let taps = window.columns(x.shape[1]);
    lemma_join4(
        x.shape[0] as int,
        outs as int,
        window.height(x.shape[2]),
        window.width(x.shape[3]),
        b,
        o,
        i,
        j,
    );
    lemma_patch_sum::<A>(x, weight, window, b, o, i, j, taps);
    let g = |c: int, u: int, v: int|
        A::times_spec(
            entry_or_zero::<A>(
                x,
                b,
                c,
                i * window.stride.0 + u * window.dilation.0 - window.pad.0,
                j * window.stride.1 + v * window.dilation.1 - window.pad.1,
            ),
            weight[((o * c0 + c) * kh + u) * kw + v],
        );
    let one = |tap: int|
        A::times_spec(patch::<A>(x, window, b, i, j, tap), weight[o * taps + tap]);
    let other = |p: int| g(p / kw / kh, p / kw % kh, p % kw);
    assert forall|tap: int| 0 <= tap < taps implies #[trigger] one(tap) == other(tap) by {
        lemma_split3(c0, kh, kw, tap);
        let (c, u, v) = (tap / kw / kh, tap / kw % kh, tap % kw);
        assert(o * (c0 * kh * kw) + ((c * kh + u) * kw + v) == ((o * c0 + c) * kh + u) * kw + v)
            by (nonlinear_arith);
    }
    lemma_total_alike::<A>(taps, one, other);
    lemma_total_alike::<A>(
        taps,
        one,
        |tap: int|
            A::times_spec(
                patch::<A>(x, window, b, i, j, tap),
                weight[o * window.columns(x.shape[1]) + tap],
            ),
    );
    lemma_total_cube::<A>(c0, kh, kw, g);
    lemma_total_alike::<A>(c0 * kh * kw, other, |p: int| g(p / kw / kh, p / kw % kh, p % kw));
    let outer = |c: int| total::<A>(kh, |u: int| total::<A>(kw, |v: int| g(c, u, v)));
    let wanted = |c: int|
        total::<A>(
            kh,
            |u: int|
                total::<A>(
                    kw,
                    |v: int|
                        A::times_spec(
                            entry_or_zero::<A>(
                                x,
                                b,
                                c,
                                i * window.stride.0 + u * window.dilation.0 - window.pad.0,
                                j * window.stride.1 + v * window.dilation.1 - window.pad.1,
                            ),
                            weight[((o * c0 + c) * kh + u) * kw + v],
                        ),
                ),
        );
    assert forall|c: int| 0 <= c < c0 implies #[trigger] outer(c) == wanted(c) by {
        let left = |u: int| total::<A>(kw, |v: int| g(c, u, v));
        let right = |u: int|
            total::<A>(
                kw,
                |v: int|
                    A::times_spec(
                        entry_or_zero::<A>(
                            x,
                            b,
                            c,
                            i * window.stride.0 + u * window.dilation.0 - window.pad.0,
                            j * window.stride.1 + v * window.dilation.1 - window.pad.1,
                        ),
                        weight[((o * c0 + c) * kh + u) * kw + v],
                    ),
            );
        assert forall|u: int| 0 <= u < kh implies #[trigger] left(u) == right(u) by {
            lemma_total_alike::<A>(
                kw,
                |v: int| g(c, u, v),
                |v: int|
                    A::times_spec(
                        entry_or_zero::<A>(
                            x,
                            b,
                            c,
                            i * window.stride.0 + u * window.dilation.0 - window.pad.0,
                            j * window.stride.1 + v * window.dilation.1 - window.pad.1,
                        ),
                        weight[((o * c0 + c) * kh + u) * kw + v],
                    ),
            );
        }
        lemma_total_alike::<A>(kh, left, right);
        lemma_total_alike::<A>(kh, left, |u: int| total::<A>(kw, |v: int| g(c, u, v)));
        lemma_total_alike::<A>(
            kh,
            right,
            |u: int|
                total::<A>(
                    kw,
                    |v: int|
                        A::times_spec(
                            entry_or_zero::<A>(
                                x,
                                b,
                                c,
                                i * window.stride.0 + u * window.dilation.0 - window.pad.0,
                                j * window.stride.1 + v * window.dilation.1 - window.pad.1,
                            ),
                            weight[((o * c0 + c) * kh + u) * kw + v],
                        ),
                ),
        );
    }
    lemma_total_alike::<A>(c0, outer, wanted);
    lemma_total_alike::<A>(
        c0,
        outer,
        |c: int| total::<A>(kh, |u: int| total::<A>(kw, |v: int| g(c, u, v))),
    );
    lemma_total_alike::<A>(
        c0,
        wanted,
        |c: int|
            total::<A>(
                kh,
                |u: int|
                    total::<A>(
                        kw,
                        |v: int|
                            A::times_spec(
                                entry_or_zero::<A>(
                                    x,
                                    b,
                                    c,
                                    i * window.stride.0 + u * window.dilation.0
                                        - window.pad.0,
                                    j * window.stride.1 + v * window.dilation.1
                                        - window.pad.1,
                                ),
                                weight[((o * c0 + c) * kh + u) * kw + v],
                            ),
                    ),
            ),
    );
}

/// A transposed convolution's bias is added to every entry of its channel.
pub proof fn law_transpositions_add_their_bias<A: Arithmetic>(
    x: Grid<A::Real>,
    weight: Seq<A::Real>,
    bias: Seq<A::Real>,
    outs: usize,
    spread: Spread,
    b: int,
    o: int,
    i: int,
    j: int,
)
    requires
        ring::<A>(),
        0 <= b < x.shape[0],
        0 <= o < outs,
        0 <= i < spread.height(x.shape[2]),
        0 <= j < spread.width(x.shape[3]),
    ensures
        ({
            let (h, w) = (spread.height(x.shape[2]), spread.width(x.shape[3]));
            let plain = transposition::<A>(x, weight, zeros::<A>(outs as nat), outs, spread);
            let out = transposition::<A>(x, weight, bias, outs, spread);
            &&& out.shape == plain.shape
            &&& at4(out.data, outs as int, h, w, b, o, i, j) == A::plus_spec(
                at4(plain.data, outs as int, h, w, b, o, i, j),
                bias[o],
            )
        }),
{
    let (h, w) = (spread.height(x.shape[2]), spread.width(x.shape[3]));
    lemma_join4(x.shape[0] as int, outs as int, h, w, b, o, i, j);
    lemma_neutral::<A>(
        crate::conv_transpose::gathered::<A>(
            x,
            weight,
            outs,
            spread,
            b,
            o,
            i,
            j,
            x.shape[2] * x.shape[3],
        ),
    );
}

/// A transposed convolution of one axis is one of two axes of which the first
/// has extent one: the same entries, with that axis dropped from the shape.
pub proof fn law_one_axis_spreads_like_two_of_height_one<A: Arithmetic>(
    x: Grid<A::Real>,
    weight: Seq<A::Real>,
    bias: Seq<A::Real>,
    outs: usize,
    kernel: usize,
    stride: usize,
)
    requires
        x.shape.len() == 3,
    ensures
        ({
            let plane = Grid {
                shape: seq![x.shape[0], x.shape[1], 1, x.shape[2]],
                data: x.data,
            };
            let spread = Spread { kernel: (1, kernel), stride: (1, stride) };
            let one = transposition1::<A>(x, weight, bias, outs, spread);
            let two = transposition::<A>(plane, weight, bias, outs, spread);
            &&& one.data == two.data
            &&& two.shape[2] == 1
            &&& one.shape == seq![two.shape[0], two.shape[1], two.shape[3]]
        }),
{
    let spread = Spread { kernel: (1, kernel), stride: (1, stride) };
    assert(spread.height(1) == 1);
}

/// The same of a convolution of one axis, with any distance between taps.
pub proof fn law_one_axis_weighs_like_two_of_height_one<A: Arithmetic>(
    x: Grid<A::Real>,
    weight: Seq<A::Real>,
    bias: Seq<A::Real>,
    outs: usize,
    window: Window,
)
    requires
        x.shape.len() == 3,
    ensures
        ({
            let plane = Grid {
                shape: seq![x.shape[0], x.shape[1], 1, x.shape[2]],
                data: x.data,
            };
            let one = convolution1::<A>(x, weight, bias, outs, window);
            let two = convolution::<A>(plane, weight, bias, outs, window);
            &&& one.data == two.data
            &&& one.shape == seq![two.shape[0], two.shape[1], two.shape[3]]
        }),
{
}

/// A convolution of one tap mixes the channels of every position: channel `o`
/// is the sum of the channels times row `o` of the weight, and the bias.
pub proof fn law_one_tap_mixes_channels<A: Arithmetic>(
    module: ChannelConv<A>,
    x: Grid<A::Real>,
    b: int,
    o: int,
    t: int,
)
    requires
        x.wf(),
        module.admits(x.shape),
        0 <= b < x.shape[0],
        0 <= o < module.bias@.len(),
        0 <= t < x.shape[2],
    ensures
        module.output(x).shape == seq![x.shape[0], module.bias@.len() as usize, x.shape[2]],
        at3(
            module.output(x).data,
            module.bias@.len() as int,
            x.shape[2] as int,
            b,
            o,
            t,
        ) == A::plus_spec(
            total::<A>(
                x.shape[1] as int,
                |c: int|
                    A::times_spec(
                        x.data[(b * x.shape[1] + c) * x.shape[2] + t],
                        module.weight@[o * x.shape[1] + c],
                    ),
            ),
            module.bias@[o],
        ),
{
    let window = Window { kernel: (1, 1), stride: (1, 1), pad: (0, 0), dilation: (1, 1) };
    let plane = x.reshaped(raised(x.shape));
    let c0 = x.shape[1] as int;
    let outs = module.bias@.len() as int;
    assert(module.bias@.len() == module.bias.len());
    assert(window.columns(x.shape[1]) == c0);
    assert(window.height(1) == 1);
    let width = x.shape[2] as int;
    assert((width + 2 * 0 - 1) / 1 + 1 == width);
    assert(window.width(x.shape[2]) == width);
    lemma_join3(x.shape[0] as int, outs, width, b, o, t);
    lemma_join4(x.shape[0] as int, outs, 1, width, b, o, 0, t);
    let line = b * outs + o;
    assert(line * 1 + 0 == line);
    lemma_patch_sum::<A>(plane, module.weight@, window, b, o, 0, t, c0);
    let one = |tap: int|
        A::times_spec(
            patch::<A>(plane, window, b, 0, t, tap),
            module.weight@[o * window.columns(plane.shape[1]) + tap],
        );
    let other = |c: int|
        A::times_spec(
            x.data[(b * x.shape[1] + c) * x.shape[2] + t],
            module.weight@[o * x.shape[1] + c],
        );
    assert forall|c: int| 0 <= c < c0 implies #[trigger] one(c) == other(c) by {
        assert(c / 1 / 1 == c && c / 1 % 1 == 0 && c % 1 == 0);
        let row = b * c0 + c;
        assert(row * 1 + 0 == row) by (nonlinear_arith);
        lemma_join3(x.shape[0] as int, c0, width, b, c, t);
        let place = patch::<A>(plane, window, b, 0, t, c);
        assert(place == plane.data[((b * c0 + c) * 1 + 0) * width + t]);
    }
    lemma_total_alike::<A>(c0, one, other);
    lemma_total_alike::<A>(
        c0,
        one,
        |tap: int|
            A::times_spec(
                patch::<A>(plane, window, b, 0, t, tap),
                module.weight@[o * window.columns(plane.shape[1]) + tap],
            ),
    );
    lemma_total_alike::<A>(
        c0,
        other,
        |c: int|
            A::times_spec(
                x.data[(b * x.shape[1] + c) * x.shape[2] + t],
                module.weight@[o * x.shape[1] + c],
            ),
    );
    assert(module.output(x).shape =~= seq![x.shape[0], module.bias@.len() as usize, x.shape[2]]);
}

/// On a plane, a convolution of one tap mixes the channels of every position.
pub proof fn law_one_tap_mixes_channels_of_planes<A: Arithmetic>(
    module: ChannelConv<A>,
    x: Grid<A::Real>,
    b: int,
    o: int,
    f: int,
    t: int,
)
    requires
        x.wf(),
        module.admits_plane(x.shape),
        0 <= b < x.shape[0],
        0 <= o < module.bias@.len(),
        0 <= f < x.shape[2],
        0 <= t < x.shape[3],
    ensures
        module.plane_output(x).shape == seq![
            x.shape[0],
            module.bias@.len() as usize,
            x.shape[2],
            x.shape[3],
        ],
        at4(
            module.plane_output(x).data,
            module.bias@.len() as int,
            x.shape[2] as int,
            x.shape[3] as int,
            b,
            o,
            f,
            t,
        ) == A::plus_spec(
            total::<A>(
                x.shape[1] as int,
                |c: int|
                    A::times_spec(
                        at4(
                            x.data,
                            x.shape[1] as int,
                            x.shape[2] as int,
                            x.shape[3] as int,
                            b,
                            c,
                            f,
                            t,
                        ),
                        module.weight@[o * x.shape[1] + c],
                    ),
            ),
            module.bias@[o],
        ),
{
    let (n0, n1, n2, n3) = (
        x.shape[0] as int,
        x.shape[1] as int,
        x.shape[2] as int,
        x.shape[3] as int,
    );
    lemma_rank4(x.shape);
    crate::model::lemma_flat(x.shape);
    let flat = x.reshaped(crate::model::flat_shape(x.shape));
    let size = n2 * n3;
    lemma_join2(n2, n3, f, t);
    law_one_tap_mixes_channels::<A>(module, flat, b, o, f * n3 + t);
    let outs = module.bias@.len() as int;
    assert(((b * outs + o) * n2 + f) * n3 + t == (b * outs + o) * (n2 * n3) + (f * n3 + t))
        by (nonlinear_arith);
    let one = |c: int|
        A::times_spec(
            flat.data[(b * flat.shape[1] + c) * flat.shape[2] + (f * n3 + t)],
            module.weight@[o * flat.shape[1] + c],
        );
    let other = |c: int|
        A::times_spec(
            at4(x.data, x.shape[1] as int, x.shape[2] as int, x.shape[3] as int, b, c, f, t),
            module.weight@[o * x.shape[1] + c],
        );
    assert forall|c: int| 0 <= c < n1 implies #[trigger] one(c) == other(c) by {
        assert(((b * n1 + c) * n2 + f) * n3 + t == (b * n1 + c) * (n2 * n3) + (f * n3 + t))
            by (nonlinear_arith);
    }
    lemma_total_alike::<A>(n1, one, other);
    lemma_total_alike::<A>(
        n1,
        one,
        |c: int|
            A::times_spec(
                flat.data[(b * flat.shape[1] + c) * flat.shape[2] + (f * n3 + t)],
                module.weight@[o * flat.shape[1] + c],
            ),
    );
    lemma_total_alike::<A>(
        n1,
        other,
        |c: int|
            A::times_spec(
                at4(
                    x.data,
                    x.shape[1] as int,
                    x.shape[2] as int,
                    x.shape[3] as int,
                    b,
                    c,
                    f,
                    t,
                ),
                module.weight@[o * x.shape[1] + c],
            ),
    );
}

} // verus!
