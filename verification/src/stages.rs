//! The stages of an encoder layer and of its residual branch.

use vstd::prelude::*;

use crate::arithmetic::Arithmetic;
use crate::conv::{convolution, convolution1, Window};
use crate::dconv::{residual, DConv, DConvLayer};
use crate::encoder::{across_frequency, EncLayer};
use crate::fields::lemma_neutral;
use crate::index::{at3, lemma_join3, lemma_split3};
use crate::joins::lemma_kept_shape;
use crate::ops::{gelu_spec, glu_spec, group_norm_spec, spatial};
use crate::rings::{lemma_zero, ring};
use crate::tensor::{lemma_rank3, volume, Grid};

verus! {

/// The residual branch adds its layers in turn: every state is the one before
/// it plus what the layer makes of that, entry by entry.
pub proof fn law_residual_branches_add_their_layers<A: Arithmetic>(
    branch: DConv<A>,
    x: Grid<A::Real>,
) -> (states: Seq<Grid<A::Real>>)
    ensures
        states.len() == branch.layers@.len() + 1,
        states[0] == x,
        states.last() == branch.output(x),
        forall|i: int|
            0 <= i < branch.layers@.len() ==> {
                &&& (#[trigger] states[i + 1]).shape == x.shape
                &&& states[i + 1].data.len() == x.data.len()
                &&& forall|p: int|
                    0 <= p < x.data.len() ==> #[trigger] states[i + 1].data[p] == A::plus_spec(
                        states[i].data[p],
                        branch.layers@[i].output(states[i]).data[p],
                    )
            },
{
    let count = branch.layers@.len();
    let states = Seq::new(count + 1, |i: int| residual::<A>(branch.layers@, x, i));
    assert forall|i: int| 0 <= i < count implies {
        &&& (#[trigger] states[i + 1]).shape == x.shape
        &&& states[i + 1].data.len() == x.data.len()
        &&& forall|p: int|
            0 <= p < x.data.len() ==> #[trigger] states[i + 1].data[p] == A::plus_spec(
                states[i].data[p],
                branch.layers@[i].output(states[i]).data[p],
            )
    } by {
        lemma_kept_shape::<A>(branch.layers@, x, i);
        lemma_kept_shape::<A>(branch.layers@, x, i + 1);
    }
    states
}

/// A layer of the residual branch: three taps `dilation` apart, a norm over all
/// channels, GELU, one tap, another norm, a gate, and a scale per channel.
pub proof fn law_residual_layers_go_by_stages<A: Arithmetic>(
    layer: DConvLayer<A>,
    x: Grid<A::Real>,
    b: int,
    c: int,
    t: int,
)
    requires
        layer.admits(x.shape),
        0 <= b < x.shape[0],
        0 <= c < x.shape[1],
        0 <= t < x.shape[2],
    ensures
        ({
            let eps = A::literal_spec(1, 100_000);
            let wide = Window {
                kernel: (1, 3),
                stride: (1, 1),
                pad: (0, layer.dilation),
                dilation: (1, layer.dilation),
            };
            let point = Window {
                kernel: (1, 1),
                stride: (1, 1),
                pad: (0, 0),
                dilation: (1, 1),
            };
            let hidden = gelu_spec::<A>(
                group_norm_spec::<A>(
                    convolution1::<A>(
                        x,
                        layer.conv1.weight@,
                        layer.conv1.bias@,
                        layer.hidden,
                        wide,
                    ),
                    1,
                    layer.norm1.weight@,
                    layer.norm1.bias@,
                    eps,
                ),
            );
            let gated = glu_spec::<A>(
                group_norm_spec::<A>(
                    convolution1::<A>(
                        hidden,
                        layer.conv2.weight@,
                        layer.conv2.bias@,
                        (2 * layer.channels) as usize,
                        point,
                    ),
                    1,
                    layer.norm2.weight@,
                    layer.norm2.bias@,
                    eps,
                ),
            );
            let (c0, t0) = (x.shape[1] as int, x.shape[2] as int);
            &&& layer.output(x).shape == x.shape
            &&& at3(layer.output(x).data, c0, t0, b, c, t) == A::times_spec(
                at3(gated.data, c0, t0, b, c, t),
                layer.scale@[c],
            )
        }),
{
    let gated_shape = layer.gated_shape(x.shape);
    let (c0, t0) = (x.shape[1] as int, x.shape[2] as int);
    lemma_join3(x.shape[0] as int, c0, t0, b, c, t);
    let out = layer.output(x);
    assert(out.shape =~= gated_shape.update(1, layer.channels));
    assert(out.shape == x.shape);
    assert(x.shape.len() == 3);
    assert(x.shape.skip(2) =~= seq![x.shape[2]]);
    assert(seq![x.shape[2]].drop_last() =~= Seq::<usize>::empty());
    assert(volume(seq![x.shape[2]].drop_last()) == 1);
    assert(volume(seq![x.shape[2]]) == 1 * x.shape[2]);
    assert(spatial(x.shape) == t0);
}

/// A residual branch whose layers are scaled by zeros changes nothing.
pub proof fn law_branches_scaled_by_zeros_change_nothing<A: Arithmetic>(
    branch: DConv<A>,
    x: Grid<A::Real>,
)
    requires
        ring::<A>(),
        x.wf(),
        branch.admits(x.shape),
        x.shape.len() == 3,
        forall|i: int, c: int|
            0 <= i < branch.layers@.len() && 0 <= c < branch.layers@[i].scale@.len()
                ==> #[trigger] branch.layers@[i].scale@[c] == A::zero_spec(),
    ensures
        branch.output(x) == x,
{
    let states = law_residual_branches_add_their_layers::<A>(branch, x);
    lemma_unmoved::<A>(branch, x, states, branch.layers@.len() as int);
}

proof fn lemma_unmoved<A: Arithmetic>(
    branch: DConv<A>,
    x: Grid<A::Real>,
    states: Seq<Grid<A::Real>>,
    count: int,
)
    requires
        ring::<A>(),
        x.wf(),
        branch.admits(x.shape),
        x.shape.len() == 3,
        forall|i: int, c: int|
            0 <= i < branch.layers@.len() && 0 <= c < branch.layers@[i].scale@.len()
                ==> #[trigger] branch.layers@[i].scale@[c] == A::zero_spec(),
        states.len() == branch.layers@.len() + 1,
        states[0] == x,
        0 <= count <= branch.layers@.len(),
        forall|i: int|
            0 <= i < branch.layers@.len() ==> {
                &&& (#[trigger] states[i + 1]).shape == x.shape
                &&& states[i + 1].data.len() == x.data.len()
                &&& forall|p: int|
                    0 <= p < x.data.len() ==> #[trigger] states[i + 1].data[p] == A::plus_spec(
                        states[i].data[p],
                        branch.layers@[i].output(states[i]).data[p],
                    )
            },
    ensures
        states[count] == x,
    decreases count,
{
    if count > 0 {
        lemma_unmoved::<A>(branch, x, states, count - 1);
        let i = count - 1;
        let layer = branch.layers@[i];
        let after = states[i + 1];
        let (n, c0, t0) = (x.shape[0] as int, x.shape[1] as int, x.shape[2] as int);
        lemma_rank3(x.shape);
        assert(layer.admits(x.shape));
        assert forall|p: int| 0 <= p < x.data.len() implies #[trigger] after.data[p]
            == x.data[p] by {
            lemma_split3(n, c0, t0, p);
            let c = p / t0 % c0;
            law_residual_layers_go_by_stages::<A>(layer, x, p / t0 / c0, c, p % t0);
            assert(layer.scale@.len() == c0) by {
                assert(layer.gated_shape(x.shape).update(1, layer.channels)[1] == layer.channels);
            }
            assert(branch.layers@[i].scale@[c] == A::zero_spec());
            assert(states[i + 1].data[p] == A::plus_spec(
                states[i].data[p],
                branch.layers@[i].output(states[i]).data[p],
            ));
            lemma_fade::<A>(layer.output(x).data[p], layer.scale@[c]);
            lemma_neutral::<A>(x.data[p]);
        }
        assert(after.data =~= x.data);
        assert(after =~= x);
    }
}

/// A product with zero is zero.
proof fn lemma_fade<A: Arithmetic>(product: A::Real, zero: A::Real)
    requires
        ring::<A>(),
        zero == A::zero_spec(),
        exists|a: A::Real| product == A::times_spec(a, zero),
    ensures
        product == A::zero_spec(),
{
    let a = choose|a: A::Real| product == A::times_spec(a, zero);
    lemma_zero::<A>(a);
}

/// An encoder of the frequency branch: eight rows in steps of four with a
/// margin of two, GELU, the residual branch on every frequency, one tap, and a
/// gate.
pub proof fn law_frequency_encoders_go_by_stages<A: Arithmetic>(
    layer: EncLayer<A>,
    x: Grid<A::Real>,
    strided: Grid<A::Real>,
)
    requires
        layer.freq,
        strided == gelu_spec::<A>(
            convolution::<A>(
                x,
                layer.conv.weight@,
                layer.conv.bias@,
                layer.conv.bias@.len() as usize,
                (Window { kernel: (8, 1), stride: (4, 1), pad: (2, 0), dilation: (1, 1) }),
            ),
        ),
    ensures
        layer.output(x) == glu_spec::<A>(
            convolution::<A>(
                across_frequency::<A>(layer.dconv, strided),
                layer.rewrite.weight@,
                layer.rewrite.bias@,
                (2 * layer.conv.bias@.len()) as usize,
                (Window { kernel: (1, 1), stride: (1, 1), pad: (0, 0), dilation: (1, 1) }),
            ),
        ),
{
    reveal(EncLayer::output);
    assert(layer.conv.bias@.len() == layer.conv.bias.len());
}

/// An encoder of the time branch on a length that is a multiple of four: eight
/// taps in steps of four with a margin of two, GELU, the residual branch, one
/// tap, and a gate.
pub proof fn law_time_encoders_go_by_stages<A: Arithmetic>(
    layer: EncLayer<A>,
    x: Grid<A::Real>,
    strided: Grid<A::Real>,
)
    requires
        !layer.freq,
        x.shape[2] % 4 == 0,
        strided == gelu_spec::<A>(
            convolution1::<A>(
                x,
                layer.conv.weight@,
                layer.conv.bias@,
                layer.conv.bias@.len() as usize,
                (Window { kernel: (1, 8), stride: (1, 4), pad: (0, 2), dilation: (1, 1) }),
            ),
        ),
    ensures
        layer.output(x) == glu_spec::<A>(
            convolution1::<A>(
                layer.dconv.output(strided),
                layer.rewrite.weight@,
                layer.rewrite.bias@,
                (2 * layer.conv.bias@.len()) as usize,
                (Window { kernel: (1, 1), stride: (1, 1), pad: (0, 0), dilation: (1, 1) }),
            ),
        ),
{
    reveal(EncLayer::output);
    assert(layer.conv.bias@.len() == layer.conv.bias.len());
}

} // verus!
