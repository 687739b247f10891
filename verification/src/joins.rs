//! How a decoder joins its input and its skip, and what it makes of the sum.

use vstd::prelude::*;

use crate::arithmetic::Arithmetic;
use crate::conv::{convolution, convolution1, Window};
use crate::conv_transpose::{transposition, transposition1, Spread};
use crate::dconv::{residual, DConv, DConvLayer};
use crate::decoder::{rewritten, DecLayer};
use crate::encoder::{across_frequency, flattened_shape};
use crate::index::{at3, at4, lemma_join3, lemma_join4, lemma_split4};
use crate::layout::permuted;
use crate::ops::{gelu_of, glu_spec, sum_spec};
use crate::tensor::{lemma_rank4, Grid};

verus! {

/// A decoder sees its input and its skip only through their sum, on either
/// branch: other tensors with the same sums give the same output.
pub proof fn law_decoders_see_the_sum<A: Arithmetic>(
    layer: DecLayer<A>,
    x: Grid<A::Real>,
    skip: Grid<A::Real>,
    y: Grid<A::Real>,
    other: Grid<A::Real>,
    length: usize,
)
    requires
        x.shape == y.shape,
        x.data.len() == y.data.len(),
        forall|p: int|
            0 <= p < x.data.len() ==> #[trigger] A::plus_spec(x.data[p], skip.data[p])
                == A::plus_spec(y.data[p], other.data[p]),
    ensures
        layer.output(x, skip, length) == layer.output(y, other, length),
{
    reveal(DecLayer::output);
    assert(sum_spec::<A>(x, skip).data =~= sum_spec::<A>(y, other).data);
    assert(sum_spec::<A>(x, skip) =~= sum_spec::<A>(y, other));
}

/// A decoder's input and its skip can be exchanged where a sum of two does not
/// depend on which comes first.
pub proof fn law_input_and_skip_can_be_exchanged<A: Arithmetic>(
    layer: DecLayer<A>,
    x: Grid<A::Real>,
    skip: Grid<A::Real>,
    length: usize,
)
    requires
        x.shape == skip.shape,
        x.data.len() == skip.data.len(),
        forall|a: A::Real, b: A::Real| #[trigger] A::plus_spec(a, b) == A::plus_spec(b, a),
    ensures
        layer.output(x, skip, length) == layer.output(skip, x, length),
{
    law_decoders_see_the_sum::<A>(layer, x, skip, skip, x, length);
}

/// Every frequency goes through the residual branch alone, as a sample of its
/// own.
pub proof fn law_frequencies_go_through_alone<A: Arithmetic>(
    dconv: DConv<A>,
    y: Grid<A::Real>,
    lines: Grid<A::Real>,
    b: int,
    c: int,
    f: int,
    t: int,
)
    requires
        y.wf(),
        y.shape.len() == 4,
        lines.shape == seq![(y.shape[0] * y.shape[2]) as usize, y.shape[1], y.shape[3]],
        lines.data.len() == y.data.len(),
        forall|b: int, c: int, f: int, t: int|
            0 <= b < y.shape[0] && 0 <= c < y.shape[1] && 0 <= f < y.shape[2] && 0 <= t
                < y.shape[3] ==> #[trigger] at4(
                y.data,
                y.shape[1] as int,
                y.shape[2] as int,
                y.shape[3] as int,
                b,
                c,
                f,
                t,
            ) == at3(
                lines.data,
                y.shape[1] as int,
                y.shape[3] as int,
                b * y.shape[2] + f,
                c,
                t,
            ),
        0 <= b < y.shape[0],
        0 <= c < y.shape[1],
        0 <= f < y.shape[2],
        0 <= t < y.shape[3],
    ensures
        across_frequency::<A>(dconv, y).shape == y.shape,
        at4(
            across_frequency::<A>(dconv, y).data,
            y.shape[1] as int,
            y.shape[2] as int,
            y.shape[3] as int,
            b,
            c,
            f,
            t,
        ) == at3(
            dconv.output(lines).data,
            y.shape[1] as int,
            y.shape[3] as int,
            b * y.shape[2] + f,
            c,
            t,
        ),
{
    let (n0, n1, n2, n3) = (
        y.shape[0] as int,
        y.shape[1] as int,
        y.shape[2] as int,
        y.shape[3] as int,
    );
    lemma_rank4(y.shape);
    assert(n0 * n2 * n1 * n3 == n0 * n1 * n2 * n3) by (nonlinear_arith);
    let rows = permuted(y);
    assert forall|p: int| 0 <= p < lines.data.len() implies #[trigger] rows.data[p]
        == lines.data[p] by {
        lemma_split4(n0, n2, n1, n3, p);
        let (i, j, k, l) = (p / n3 / n1 / n2, p / n3 / n1 % n2, p / n3 % n1, p % n3);
        assert(at4(y.data, n1, n2, n3, i, k, j, l) == at3(lines.data, n1, n3, i * n2 + j, k, l));
    }
    assert(rows.data =~= lines.data);
    assert(rows.reshaped(flattened_shape(y.shape)) =~= lines);
    lemma_join4(n0, n1, n2, n3, b, c, f, t);
    assert(across_frequency::<A>(dconv, y).shape =~= y.shape);
}

/// The residual branch keeps the shape.
pub proof fn lemma_kept_shape<A: Arithmetic>(
    layers: Seq<DConvLayer<A>>,
    x: Grid<A::Real>,
    count: int,
)
    ensures
        residual::<A>(layers, x, count).shape == x.shape,
        residual::<A>(layers, x, count).data.len() == x.data.len(),
    decreases count,
{
    if count > 0 {
        lemma_kept_shape::<A>(layers, x, count - 1);
    }
}

/// The activation that ends a decoder: none on the last, else the GELU.
pub open spec fn ended<A: Arithmetic>(last: bool, value: A::Real) -> A::Real {
    if last {
        value
    } else {
        gelu_of::<A>(value)
    }
}

/// A decoder of the frequency branch: the sum of input and skip is rewritten by
/// a kernel of three by three with a margin of one, and gated; the residual
/// branch runs on every frequency; a kernel of eight rows spreads that in steps
/// of four, `pad` rows are dropped at either end, and all but the last layer
/// end with a GELU.
pub proof fn law_frequency_decoders_rewrite_and_spread<A: Arithmetic>(
    layer: DecLayer<A>,
    x: Grid<A::Real>,
    skip: Grid<A::Real>,
    length: usize,
    joined: Grid<A::Real>,
    b: int,
    c: int,
    r: int,
    t: int,
)
    requires
        layer.freq,
        x.wf(),
        layer.admits(x.shape, length),
        joined.shape == x.shape,
        joined.data.len() == x.data.len(),
        forall|p: int|
            0 <= p < x.data.len() ==> #[trigger] joined.data[p] == A::plus_spec(
                x.data[p],
                skip.data[p],
            ),
        0 <= b < layer.output(x, skip, length).shape[0],
        0 <= c < layer.output(x, skip, length).shape[1],
        0 <= r < layer.output(x, skip, length).shape[2],
        0 <= t < layer.output(x, skip, length).shape[3],
    ensures
        ({
            let window = Window {
                kernel: (3, 3),
                stride: (1, 1),
                pad: (1, 1),
                dilation: (1, 1),
            };
            let spread = Spread { kernel: (8, 1), stride: (4, 1) };
            let gated = glu_spec::<A>(
                convolution::<A>(
                    joined,
                    layer.rewrite.weight@,
                    layer.rewrite.bias@,
                    layer.rewrite.bias@.len() as usize,
                    window,
                ),
            );
            let spread_out = transposition::<A>(
                across_frequency::<A>(layer.dconv, gated),
                layer.conv_tr.weight@,
                layer.conv_tr.bias@,
                layer.conv_tr.bias@.len() as usize,
                spread,
            );
            let out = layer.output(x, skip, length);
            &&& out.shape[0] == x.shape[0]
            &&& out.shape[1] == layer.conv_tr.bias@.len()
            &&& out.shape[2] == spread_out.shape[2] - 2 * layer.pad
            &&& out.shape[3] == spread_out.shape[3]
            &&& at4(
                out.data,
                out.shape[1] as int,
                out.shape[2] as int,
                out.shape[3] as int,
                b,
                c,
                r,
                t,
            ) == ended::<A>(
                layer.last,
                at4(
                    spread_out.data,
                    spread_out.shape[1] as int,
                    spread_out.shape[2] as int,
                    spread_out.shape[3] as int,
                    b,
                    c,
                    r + layer.pad,
                    t,
                ),
            )
        }),
{
    reveal(DecLayer::admits);
    reveal(DecLayer::output);
    assert(layer.conv_tr.bias@.len() == layer.conv_tr.bias.len());
    assert(sum_spec::<A>(x, skip).data =~= joined.data);
    assert(sum_spec::<A>(x, skip) =~= joined);
    let out = layer.output(x, skip, length);
    let raw = layer.raw_output(x, skip, length);
    assert(out.shape == raw.shape);
    lemma_join4(
        raw.shape[0] as int,
        raw.shape[1] as int,
        raw.shape[2] as int,
        raw.shape[3] as int,
        b,
        c,
        r,
        t,
    );
}

/// A decoder of the time branch: the sum of input and skip is rewritten by a
/// kernel of three with a margin of one, and gated; the residual branch runs on
/// it; a kernel of eight spreads that in steps of four, and `length` samples
/// from `pad` on are kept. All but the last layer end with a GELU.
pub proof fn law_time_decoders_rewrite_and_spread<A: Arithmetic>(
    layer: DecLayer<A>,
    x: Grid<A::Real>,
    skip: Grid<A::Real>,
    length: usize,
    joined: Grid<A::Real>,
    b: int,
    c: int,
    t: int,
)
    requires
        !layer.freq,
        x.wf(),
        layer.admits(x.shape, length),
        joined.shape == x.shape,
        joined.data.len() == x.data.len(),
        forall|p: int|
            0 <= p < x.data.len() ==> #[trigger] joined.data[p] == A::plus_spec(
                x.data[p],
                skip.data[p],
            ),
        0 <= b < x.shape[0],
        0 <= c < layer.conv_tr.bias@.len(),
        0 <= t < length,
    ensures
        ({
            let window = Window {
                kernel: (1, 3),
                stride: (1, 1),
                pad: (0, 1),
                dilation: (1, 1),
            };
            let spread = Spread { kernel: (1, 8), stride: (1, 4) };
            let gated = glu_spec::<A>(
                convolution1::<A>(
                    joined,
                    layer.rewrite.weight@,
                    layer.rewrite.bias@,
                    layer.rewrite.bias@.len() as usize,
                    window,
                ),
            );
            let spread_out = transposition1::<A>(
                layer.dconv.output(gated),
                layer.conv_tr.weight@,
                layer.conv_tr.bias@,
                layer.conv_tr.bias@.len() as usize,
                spread,
            );
            let out = layer.output(x, skip, length);
            &&& out.shape == seq![x.shape[0], layer.conv_tr.bias@.len() as usize, length]
            &&& at3(out.data, out.shape[1] as int, length as int, b, c, t) == ended::<A>(
                layer.last,
                at3(
                    spread_out.data,
                    spread_out.shape[1] as int,
                    spread_out.shape[2] as int,
                    b,
                    c,
                    t + layer.pad,
                ),
            )
        }),
{
    reveal(DecLayer::admits);
    reveal(DecLayer::output);
    assert(layer.conv_tr.bias@.len() == layer.conv_tr.bias.len());
    assert(sum_spec::<A>(x, skip).data =~= joined.data);
    assert(sum_spec::<A>(x, skip) =~= joined);
    let out = layer.output(x, skip, length);
    let raw = layer.raw_output(x, skip, length);
    assert(out.shape == raw.shape);
    let gated = glu_spec::<A>(rewritten::<A>(joined, layer.rewrite, false));
    lemma_kept_shape::<A>(layer.dconv.layers@, gated, layer.dconv.layers@.len() as int);
    assert(out.shape =~= seq![x.shape[0], layer.conv_tr.bias@.len() as usize, length]);
    lemma_join3(
        x.shape[0] as int,
        layer.conv_tr.bias@.len() as int,
        length as int,
        b,
        c,
        t,
    );
}

} // verus!
