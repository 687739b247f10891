//! What the transformer's layers add to their input.

use vstd::prelude::*;

use crate::arithmetic::Arithmetic;
use crate::fields::lemma_neutral;
use crate::index::lemma_split2;
use crate::layers::{rejoined, rejoins, FeedForward, Layer, Tail};
use crate::ops::{
    gelu_of, gelu_spec, group_norm_sequence_spec, layer_norm_spec, layer_scale_last_spec,
    linear_spec,
};
use crate::parameters::Affine;
use crate::rings::{lemma_zero, ring, total};
use crate::scores::law_linear_layers_weigh_features;
use crate::tensor::{volume, Grid};

verus! {

/// Whether `out` is `x` with a branch added, the features of the branch scaled.
pub open spec fn adds_scaled<A: Arithmetic>(
    x: Grid<A::Real>,
    branch: Seq<A::Real>,
    gamma: Seq<A::Real>,
    out: Grid<A::Real>,
) -> bool {
    &&& out.shape == x.shape
    &&& out.data.len() == x.data.len()
    &&& forall|p: int|
        0 <= p < x.data.len() ==> #[trigger] out.data[p] == A::plus_spec(
            x.data[p],
            A::times_spec(branch[p], gamma[p % gamma.len() as int]),
        )
}

proof fn lemma_rejoined<A: Arithmetic>(
    x: Grid<A::Real>,
    branch: Grid<A::Real>,
    gamma: Seq<A::Real>,
)
    requires
        x.data.len() == volume(x.shape),
        rejoins(x.shape, branch.shape, gamma.len()),
    ensures
        adds_scaled::<A>(x, branch.data, gamma, rejoined::<A>(x, branch, gamma)),
{
    let scaled = layer_scale_last_spec::<A>(branch, gamma);
    let out = rejoined::<A>(x, branch, gamma);
    let rows = volume(branch.shape.drop_last()) as int;
    let width = branch.shape.last() as int;
    assert(volume(branch.shape) == rows * width);
    assert forall|p: int| 0 <= p < x.data.len() implies #[trigger] out.data[p] == A::plus_spec(
        x.data[p],
        A::times_spec(branch.data[p], gamma[p % gamma.len() as int]),
    ) by {
        lemma_split2(rows, width, p);
    }
}

/// The feed-forward branch, feature by feature: every hidden feature weighs the
/// token's features and goes through the GELU, and every feature weighs the
/// hidden ones.
pub proof fn law_feed_forward_weighs_hidden_features<A: Arithmetic>(
    module: FeedForward<A>,
    x: Grid<A::Real>,
    row: int,
    out: int,
) -> (hidden: Seq<A::Real>)
    requires
        module.admits(x.shape),
        0 <= row < volume(x.shape.drop_last()),
        0 <= out < module.linear2.bias@.len(),
    ensures
        hidden.len() == module.linear1.bias@.len(),
        forall|h: int|
            0 <= h < hidden.len() ==> #[trigger] hidden[h] == gelu_of::<A>(
                A::plus_spec(
                    total::<A>(
                        x.shape.last() as int,
                        |c: int|
                            A::times_spec(
                                x.data[row * x.shape.last() + c],
                                module.linear1.weight@[h * x.shape.last() + c],
                            ),
                    ),
                    module.linear1.bias@[h],
                ),
            ),
        module.output(x).data[row * module.linear2.bias@.len() + out] == A::plus_spec(
            total::<A>(
                hidden.len() as int,
                |h: int|
                    A::times_spec(
                        hidden[h],
                        module.linear2.weight@[out * hidden.len() + h],
                    ),
            ),
            module.linear2.bias@[out],
        ),
{
    let first = linear_spec::<A>(x, module.linear1.weight@, module.linear1.bias@);
    let middle = gelu_spec::<A>(first);
    let width = module.linear1.bias@.len() as int;
    let rows = volume(x.shape.drop_last()) as int;
    assert(module.linear1.bias@.len() == module.linear1.bias.len());
    let hidden = Seq::new(width as nat, |h: int| middle.data[row * width + h]);
    assert(middle.shape.last() == width);
    assert(middle.shape.drop_last() =~= x.shape.drop_last());
    assert forall|h: int| 0 <= h < width implies #[trigger] hidden[h] == gelu_of::<A>(
        A::plus_spec(
            total::<A>(
                x.shape.last() as int,
                |c: int|
                    A::times_spec(
                        x.data[row * x.shape.last() + c],
                        module.linear1.weight@[h * x.shape.last() + c],
                    ),
            ),
            module.linear1.bias@[h],
        ),
    ) by {
        crate::index::lemma_join2(rows, width, row, h);
        law_linear_layers_weigh_features::<A>(
            x,
            module.linear1.weight@,
            module.linear1.bias@,
            row,
            h,
        );
    }
    law_linear_layers_weigh_features::<A>(
        middle,
        module.linear2.weight@,
        module.linear2.bias@,
        row,
        out,
    );
    let one = |c: int|
        A::times_spec(
            middle.data[row * middle.shape.last() + c],
            module.linear2.weight@[out * middle.shape.last() + c],
        );
    let other = |h: int|
        A::times_spec(hidden[h], module.linear2.weight@[out * hidden.len() + h]);
    assert forall|h: int| 0 <= h < width implies #[trigger] one(h) == other(h) by {}
    crate::rings::lemma_total_alike::<A>(width, one, other);
    crate::rings::lemma_total_alike::<A>(
        width,
        one,
        |c: int|
            A::times_spec(
                middle.data[row * middle.shape.last() + c],
                module.linear2.weight@[out * middle.shape.last() + c],
            ),
    );
    crate::rings::lemma_total_alike::<A>(
        width,
        other,
        |h: int| A::times_spec(hidden[h], module.linear2.weight@[out * hidden.len() + h]),
    );
    hidden
}

/// The end of every layer: the attended branch is added, scaled; then what the
/// feed-forward branch makes of the normed sum, scaled; and each sample of that
/// is normed as a whole.
proof fn lemma_tail<A: Arithmetic>(
    tail: Tail<A>,
    x: Grid<A::Real>,
    branch: Grid<A::Real>,
    inner: Affine<A>,
    outer: Affine<A>,
) -> (steps: (Grid<A::Real>, Grid<A::Real>))
    requires
        x.data.len() == volume(x.shape),
        tail.admits(x.shape, branch.shape, inner, outer),
    ensures
        adds_scaled::<A>(x, branch.data, tail.gamma1@, steps.0),
        adds_scaled::<A>(
            steps.0,
            tail.feed_forward.output(
                layer_norm_spec::<A>(
                    steps.0,
                    inner.weight@,
                    inner.bias@,
                    A::literal_spec(1, 100_000),
                ),
            ).data,
            tail.gamma2@,
            steps.1,
        ),
        tail.output(x, branch, inner, outer) == group_norm_sequence_spec::<A>(
            steps.1,
            outer.weight@,
            outer.bias@,
            A::literal_spec(1, 100_000),
        ),
{
    let middle = rejoined::<A>(x, branch, tail.gamma1@);
    lemma_rejoined::<A>(x, branch, tail.gamma1@);
    let inside = layer_norm_spec::<A>(
        middle,
        inner.weight@,
        inner.bias@,
        A::literal_spec(1, 100_000),
    );
    let forwarded = tail.feed_forward.output(inside);
    assert(tail.feed_forward.linear1.bias@.len() == tail.feed_forward.linear1.bias.len());
    assert(forwarded.shape =~= tail.feed_forward.out_shape(x.shape));
    lemma_rejoined::<A>(middle, forwarded, tail.gamma2@);
    (middle, rejoined::<A>(middle, forwarded, tail.gamma2@))
}

/// A layer adds two scaled branches to its input and norms the sum: first what
/// it attends to, asked by its normed tokens, then the feed-forward branch. A
/// layer attends to its own normed tokens, or across to the other branch's
/// tokens, normed by a norm of their own.
pub proof fn law_layers_add_two_branches<A: Arithmetic>(
    layer: Layer<A>,
    x: Grid<A::Real>,
    other: Option<Grid<A::Real>>,
    heads: usize,
) -> (steps: (Grid<A::Real>, Grid<A::Real>))
    requires
        x.data.len() == volume(x.shape),
        layer.admits(
            x.shape,
            match other {
                Some(other) => Some(other.shape),
                None => None,
            },
            heads,
        ),
    ensures
        match layer {
            Layer::Classic(layer) => {
                let eps = A::literal_spec(1, 100_000);
                let asked = layer_norm_spec::<A>(x, layer.norm1.weight@, layer.norm1.bias@, eps);
                let inside = layer_norm_spec::<A>(
                    steps.0,
                    layer.norm2.weight@,
                    layer.norm2.bias@,
                    eps,
                );
                &&& adds_scaled::<A>(
                    x,
                    layer.attention.output(asked, asked, asked, heads).data,
                    layer.tail.gamma1@,
                    steps.0,
                )
                &&& adds_scaled::<A>(
                    steps.0,
                    layer.tail.feed_forward.output(inside).data,
                    layer.tail.gamma2@,
                    steps.1,
                )
                &&& Layer::Classic(layer).output(x, other, heads) == group_norm_sequence_spec::<A>(
                    steps.1,
                    layer.norm_out.weight@,
                    layer.norm_out.bias@,
                    eps,
                )
            },
            Layer::Cross(layer) => {
                let eps = A::literal_spec(1, 100_000);
                let asked = layer_norm_spec::<A>(x, layer.norm1.weight@, layer.norm1.bias@, eps);
                let keys = layer_norm_spec::<A>(
                    other->0,
                    layer.norm2.weight@,
                    layer.norm2.bias@,
                    eps,
                );
                let inside = layer_norm_spec::<A>(
                    steps.0,
                    layer.norm3.weight@,
                    layer.norm3.bias@,
                    eps,
                );
                &&& adds_scaled::<A>(
                    x,
                    layer.attention.output(asked, keys, keys, heads).data,
                    layer.tail.gamma1@,
                    steps.0,
                )
                &&& adds_scaled::<A>(
                    steps.0,
                    layer.tail.feed_forward.output(inside).data,
                    layer.tail.gamma2@,
                    steps.1,
                )
                &&& Layer::Cross(layer).output(x, other, heads) == group_norm_sequence_spec::<A>(
                    steps.1,
                    layer.norm_out.weight@,
                    layer.norm_out.bias@,
                    eps,
                )
            },
        },
{
    let eps = A::literal_spec(1, 100_000);
    match layer {
        Layer::Classic(layer) => {
            let asked = layer_norm_spec::<A>(x, layer.norm1.weight@, layer.norm1.bias@, eps);
            lemma_tail::<A>(
                layer.tail,
                x,
                layer.attention.output(asked, asked, asked, heads),
                layer.norm2,
                layer.norm_out,
            )
        },
        Layer::Cross(layer) => {
            let asked = layer_norm_spec::<A>(x, layer.norm1.weight@, layer.norm1.bias@, eps);
            let keys = layer_norm_spec::<A>(
                other->0,
                layer.norm2.weight@,
                layer.norm2.bias@,
                eps,
            );
            lemma_tail::<A>(
                layer.tail,
                x,
                layer.attention.output(asked, keys, keys, heads),
                layer.norm3,
                layer.norm_out,
            )
        },
    }
}

/// A layer whose branches are scaled by zeros only norms its input.
pub proof fn law_layers_without_branches_norm<A: Arithmetic>(
    layer: Layer<A>,
    x: Grid<A::Real>,
    other: Option<Grid<A::Real>>,
    heads: usize,
    norm_out: Affine<A>,
)
    requires
        ring::<A>(),
        x.data.len() == volume(x.shape),
        layer.admits(
            x.shape,
            match other {
                Some(other) => Some(other.shape),
                None => None,
            },
            heads,
        ),
        match layer {
            Layer::Classic(layer) => {
                &&& layer.norm_out == norm_out
                &&& forall|i: int|
                    0 <= i < layer.tail.gamma1@.len() ==> #[trigger] layer.tail.gamma1@[i]
                        == A::zero_spec()
                &&& forall|i: int|
                    0 <= i < layer.tail.gamma2@.len() ==> #[trigger] layer.tail.gamma2@[i]
                        == A::zero_spec()
            },
            Layer::Cross(layer) => {
                &&& layer.norm_out == norm_out
                &&& forall|i: int|
                    0 <= i < layer.tail.gamma1@.len() ==> #[trigger] layer.tail.gamma1@[i]
                        == A::zero_spec()
                &&& forall|i: int|
                    0 <= i < layer.tail.gamma2@.len() ==> #[trigger] layer.tail.gamma2@[i]
                        == A::zero_spec()
            },
        },
    ensures
        layer.output(x, other, heads) == group_norm_sequence_spec::<A>(
            x,
            norm_out.weight@,
            norm_out.bias@,
            A::literal_spec(1, 100_000),
        ),
{
    let (middle, after) = law_layers_add_two_branches::<A>(layer, x, other, heads);
    let tail = match layer {
        Layer::Classic(layer) => layer.tail,
        Layer::Cross(layer) => layer.tail,
    };
    assert forall|p: int| 0 <= p < x.data.len() implies #[trigger] middle.data[p]
        == x.data[p] by {
        lemma_faded::<A>(x, tail.gamma1@, middle, p);
    }
    assert(middle =~= x);
    assert forall|p: int| 0 <= p < x.data.len() implies #[trigger] after.data[p]
        == x.data[p] by {
        lemma_faded::<A>(middle, tail.gamma2@, after, p);
    }
    assert(after =~= x);
}

/// Where a branch is scaled by zeros, nothing is added.
proof fn lemma_faded<A: Arithmetic>(
    x: Grid<A::Real>,
    gamma: Seq<A::Real>,
    out: Grid<A::Real>,
    p: int,
)
    requires
        ring::<A>(),
        0 <= p < x.data.len(),
        gamma.len() > 0,
        forall|i: int| 0 <= i < gamma.len() ==> #[trigger] gamma[i] == A::zero_spec(),
        exists|branch: Seq<A::Real>| adds_scaled::<A>(x, branch, gamma, out),
    ensures
        out.data[p] == x.data[p],
{
    let branch = choose|branch: Seq<A::Real>| adds_scaled::<A>(x, branch, gamma, out);
    let i = p % gamma.len() as int;
    assert(0 <= i < gamma.len()) by {
        vstd::arithmetic::div_mod::lemma_mod_bound(p, gamma.len() as int);
    }
    assert(gamma[i] == A::zero_spec());
    lemma_zero::<A>(branch[p]);
    lemma_neutral::<A>(x.data[p]);
}

} // verus!
