//! The two branches of the transformer: alike in all but their positions, and
//! each looking at the other as it was.

use vstd::prelude::*;

use crate::arithmetic::Arithmetic;
use crate::conv::{lemma_raised, raised};
use crate::embedding::{embedding_1d, embedding_2d, run_length, with_scaled};
use crate::fields::lemma_neutral;
use crate::index::{
    at2, at3, at4, lemma_extent, lemma_join2, lemma_join3, lemma_join4, lemma_split2, lemma_split3};
use crate::layers::{normed, norms, Layer};
use crate::layout::{
    arranged_freq, arranged_time, lemma_arranged_shape, unarranged_freq, unarranged_time,
};
use crate::ops::layer_norm_spec;
use crate::rings::{lemma_zero, ring};
use crate::tensor::{lemma_rank2, lemma_rank3, lemma_rank4, Grid};
use crate::transformer::{exchanged, CrossTransformer};

verus! {

/// Whether two layers are of one kind.
pub open spec fn same_kind<A: Arithmetic>(a: Layer<A>, b: Layer<A>) -> bool {
    a is Cross <==> b is Cross
}

/// Exchanging the branches exchanges the results: layer by layer, what a branch
/// becomes depends on both branches as they were before the layer.
pub proof fn law_exchanging_branches_exchanges_results<A: Arithmetic>(
    layers: Seq<Layer<A>>,
    layers_t: Seq<Layer<A>>,
    x: Grid<A::Real>,
    xt: Grid<A::Real>,
    heads: usize,
    count: int,
)
    requires
        count <= layers.len(),
        count <= layers_t.len(),
        forall|i: int| 0 <= i < count ==> same_kind::<A>(#[trigger] layers[i], layers_t[i]),
    ensures
        ({
            let (a, b) = exchanged::<A>(layers, layers_t, x, xt, heads, count);
            exchanged::<A>(layers_t, layers, xt, x, heads, count) == (b, a)
        }),
    decreases count,
{
    if count > 0 {
        law_exchanging_branches_exchanges_results::<A>(
            layers,
            layers_t,
            x,
            xt,
            heads,
            count - 1,
        );
        assert(same_kind::<A>(layers[count - 1], layers_t[count - 1]));
    }
}

/// Positions that weigh nothing change nothing.
proof fn lemma_weightless<A: Arithmetic>(x: Grid<A::Real>, addend: Seq<A::Real>)
    requires
        ring::<A>(),
    ensures
        with_scaled::<A>(x, addend, A::zero_spec()) == x,
{
    let out = with_scaled::<A>(x, addend, A::zero_spec());
    assert forall|p: int| 0 <= p < x.data.len() implies #[trigger] out.data[p] == x.data[p] by {
        lemma_zero::<A>(addend[p % run_length(x)]);
        lemma_neutral::<A>(x.data[p]);
    }
    assert(out.data =~= x.data);
    assert(out =~= x);
}

/// One frequency is a line.
proof fn lemma_one_frequency<T>(x: Grid<T>, line: Grid<T>)
    requires
        x.wf(),
        x.shape.len() == 4,
        x.shape[2] == 1,
        line.shape == seq![x.shape[0], x.shape[1], x.shape[3]],
        line.data == x.data,
    ensures
        arranged_freq(x) == arranged_time(line),
{
    let (n, c, t) = (x.shape[0] as int, x.shape[1] as int, x.shape[3] as int);
    let (a, b) = (arranged_freq(x), arranged_time(line));
    assert(t * 1 == t);
    lemma_extent(n, t);
    lemma_extent(n * t, c);
    assert forall|p: int| 0 <= p < n * t * c implies #[trigger] a.data[p] == b.data[p] by {
        lemma_split3(n, t, c, p);
        let token = p / c % t;
        assert(token % 1 == 0 && token / 1 == token);
    }
    assert(a.data =~= b.data);
    assert(a.shape =~= b.shape);
}

/// One frequency is a line, taken back too.
proof fn lemma_one_frequency_back<T>(
    tokens: Seq<T>,
    batch: usize,
    channels: usize,
    time: usize,
)
    ensures
        unarranged_freq(tokens, batch, channels, 1, time).data == unarranged_time(
            tokens,
            batch,
            channels,
            time,
        ).data,
{
    let (n, c, t) = (batch as int, channels as int, time as int);
    let a = unarranged_freq(tokens, batch, channels, 1, time);
    let b = unarranged_time(tokens, batch, channels, time);
    lemma_extent(n, c);
    lemma_extent(n * c, t);
    assert(n * c * 1 * t == n * c * t);
    assert(t * 1 == t);
    assert forall|p: int| 0 <= p < n * c * t implies #[trigger] a.data[p] == b.data[p] by {
        lemma_split3(n, c, t, p);
        let row = p / t;
        assert(row / 1 == row && row % 1 == 0);
        assert((p % t) * 1 + 0 == p % t);
    }
    assert(a.data =~= b.data);
}

/// The transformer treats its branches alike: with one frequency, and positions
/// that weigh nothing, a transformer whose norms and layers are exchanged gives
/// the results exchanged on branches that are exchanged.
pub proof fn law_branches_are_treated_alike<A: Arithmetic>(
    one: CrossTransformer<A>,
    other: CrossTransformer<A>,
    x: Grid<A::Real>,
    xt: Grid<A::Real>,
    line: Grid<A::Real>,
    plane: Grid<A::Real>,
)
    requires
        ring::<A>(),
        x.wf(),
        xt.wf(),
        x.shape.len() == 4,
        xt.shape.len() == 3,
        x.shape[2] == 1,
        x.shape[0] == xt.shape[0],
        line == (Grid { shape: seq![x.shape[0], x.shape[1], x.shape[3]], data: x.data }),
        plane == (Grid { shape: seq![xt.shape[0], xt.shape[1], 1, xt.shape[2]], data: xt.data }),
        other.dim == one.dim,
        other.heads == one.heads,
        one.weight_pos_embed == A::zero_spec(),
        other.weight_pos_embed == A::zero_spec(),
        other.norm_in == one.norm_in_t,
        other.norm_in_t == one.norm_in,
        other.layers@ == one.layers_t@,
        other.layers_t@ == one.layers@,
        one.layers@.len() == one.layers_t@.len(),
        forall|i: int|
            0 <= i < one.layers@.len() ==> same_kind::<A>(
                #[trigger] one.layers@[i],
                one.layers_t@[i],
            ),
    ensures
        other.output(plane, line).0.data == one.output(x, xt).1.data,
        other.output(plane, line).1.data == one.output(x, xt).0.data,
{
    reveal(CrossTransformer::output);
    lemma_one_frequency(x, line);
    assert(plane.shape =~= raised(xt.shape));
    lemma_raised(xt.shape);
    assert(xt.shape =~= seq![plane.shape[0], plane.shape[1], plane.shape[3]]);
    lemma_one_frequency(plane, xt);
    lemma_weightless::<A>(
        normed::<A>(arranged_freq(x), one.norm_in),
        embedding_2d::<A>(one.dim, x.shape[2], x.shape[3], one.max_period).data,
    );
    lemma_weightless::<A>(
        normed::<A>(arranged_time(xt), one.norm_in_t),
        embedding_1d::<A>(xt.shape[2], one.dim, one.max_period).data,
    );
    lemma_weightless::<A>(
        normed::<A>(arranged_freq(plane), other.norm_in),
        embedding_2d::<A>(other.dim, plane.shape[2], plane.shape[3], other.max_period).data,
    );
    lemma_weightless::<A>(
        normed::<A>(arranged_time(line), other.norm_in_t),
        embedding_1d::<A>(line.shape[2], other.dim, other.max_period).data,
    );
    let count = one.layers@.len() as int;
    law_exchanging_branches_exchanges_results::<A>(
        one.layers@,
        one.layers_t@,
        one.tokens(x),
        one.tokens_t(xt),
        one.heads,
        count,
    );
    let (a, b) = exchanged::<A>(
        one.layers@,
        one.layers_t@,
        one.tokens(x),
        one.tokens_t(xt),
        one.heads,
        count,
    );
    lemma_one_frequency_back(a.data, x.shape[0], one.dim, x.shape[3]);
    lemma_one_frequency_back(b.data, x.shape[0], one.dim, xt.shape[2]);
}

/// Whether one pair of layers leads from two branches to two branches. A layer
/// that attends across looks at the other branch as it was before the pair.
pub open spec fn leads_to<A: Arithmetic>(
    layer: Layer<A>,
    layer_t: Layer<A>,
    heads: usize,
    before: (Grid<A::Real>, Grid<A::Real>),
    after: (Grid<A::Real>, Grid<A::Real>),
) -> bool {
    match layer {
        Layer::Classic(_) => {
            &&& after.0 == layer.output(before.0, None, heads)
            &&& after.1 == layer_t.output(before.1, None, heads)
        },
        Layer::Cross(_) => {
            &&& after.0 == layer.output(before.0, Some(before.1), heads)
            &&& after.1 == layer_t.output(before.1, Some(before.0), heads)
        },
    }
}

/// Tokens are fixed by where each entry goes.
proof fn lemma_tokens<T>(x: Grid<T>, tokens: Grid<T>)
    requires
        x.wf(),
        x.shape.len() == 4,
        tokens.shape == seq![x.shape[0], (x.shape[3] * x.shape[2]) as usize, x.shape[1]],
        tokens.data.len() == x.data.len(),
        forall|b: int, c: int, j: int, k: int|
            0 <= b < x.shape[0] && 0 <= c < x.shape[1] && 0 <= j < x.shape[2] && 0 <= k
                < x.shape[3] ==> #[trigger] at4(
                x.data,
                x.shape[1] as int,
                x.shape[2] as int,
                x.shape[3] as int,
                b,
                c,
                j,
                k,
            ) == at3(
                tokens.data,
                x.shape[3] * x.shape[2],
                x.shape[1] as int,
                b,
                k * x.shape[2] + j,
                c,
            ),
    ensures
        arranged_freq(x) == tokens,
        x.data.len() == x.shape[0] * (x.shape[3] * x.shape[2]) * x.shape[1],
{
    let (n, c, f, t) = (
        x.shape[0] as int,
        x.shape[1] as int,
        x.shape[2] as int,
        x.shape[3] as int,
    );
    lemma_rank4(x.shape);
    assert(n * c * f * t == n * (t * f) * c) by (nonlinear_arith);
    lemma_extent(t, f);
    let arranged = arranged_freq(x);
    assert forall|p: int| 0 <= p < n * (t * f) * c implies #[trigger] arranged.data[p]
        == tokens.data[p] by {
        lemma_split3(n, t * f, c, p);
        let token = p / c % (t * f);
        lemma_split2(t, f, token);
        let (b, i) = (p / c / (t * f), p % c);
        assert(at4(x.data, c, f, t, b, i, token % f, token / f) == at3(
            tokens.data,
            t * f,
            c,
            b,
            (token / f) * f + token % f,
            i,
        ));
    }
    assert(arranged.data =~= tokens.data);
}

/// Tokens of a line are fixed by where each entry goes.
proof fn lemma_tokens_t<T>(xt: Grid<T>, tokens: Grid<T>)
    requires
        xt.wf(),
        xt.shape.len() == 3,
        tokens.shape == seq![xt.shape[0], xt.shape[2], xt.shape[1]],
        tokens.data.len() == xt.data.len(),
        forall|b: int, c: int, k: int|
            0 <= b < xt.shape[0] && 0 <= c < xt.shape[1] && 0 <= k < xt.shape[2]
                ==> #[trigger] at3(
                xt.data,
                xt.shape[1] as int,
                xt.shape[2] as int,
                b,
                c,
                k,
            ) == at3(tokens.data, xt.shape[2] as int, xt.shape[1] as int, b, k, c),
    ensures
        arranged_time(xt) == tokens,
        xt.data.len() == xt.shape[0] * xt.shape[2] * xt.shape[1],
{
    let (n, c, t) = (xt.shape[0] as int, xt.shape[1] as int, xt.shape[2] as int);
    lemma_rank3(xt.shape);
    assert(n * c * t == n * t * c) by (nonlinear_arith);
    let arranged = arranged_time(xt);
    assert forall|p: int| 0 <= p < n * t * c implies #[trigger] arranged.data[p]
        == tokens.data[p] by {
        lemma_split3(n, t, c, p);
        assert(at3(xt.data, c, t, p / c / t, p % c, p / c % t) == at3(
            tokens.data,
            t,
            c,
            p / c / t,
            p / c % t,
            p % c,
        ));
    }
    assert(arranged.data =~= tokens.data);
}

/// Every sample of normed tokens gets the positions added.
proof fn lemma_placed<A: Arithmetic>(
    tokens: Grid<A::Real>,
    n: int,
    count: int,
    width: int,
    weight: Seq<A::Real>,
    bias: Seq<A::Real>,
    positions: Seq<A::Real>,
    scale: A::Real,
)
    requires
        tokens.shape.len() == 3,
        tokens.shape[0] == n,
        tokens.shape[1] == count,
        tokens.shape[2] == width,
        tokens.data.len() == n * count * width,
        positions.len() == count * width,
    ensures
        forall|b: int, r: int|
            0 <= b < n && 0 <= r < count * width ==> #[trigger] at2(
                with_scaled::<A>(
                    layer_norm_spec::<A>(tokens, weight, bias, A::literal_spec(1, 100_000)),
                    positions,
                    scale,
                ).data,
                count * width,
                b,
                r,
            ) == A::plus_spec(
                at2(
                    layer_norm_spec::<A>(
                        tokens,
                        weight,
                        bias,
                        A::literal_spec(1, 100_000),
                    ).data,
                    count * width,
                    b,
                    r,
                ),
                A::times_spec(scale, positions[r]),
            ),
{
    let base = layer_norm_spec::<A>(tokens, weight, bias, A::literal_spec(1, 100_000));
    let size = count * width;
    lemma_rank2(tokens.shape.drop_last());
    assert(tokens.shape.drop_last()[0] == n && tokens.shape.drop_last()[1] == count);
    assert(tokens.shape.last() == width);
    assert(n * count * width == n * size) by (nonlinear_arith)
        requires
            size == count * width,
    ;
    assert forall|b: int, r: int| 0 <= b < n && 0 <= r < size implies #[trigger] at2(
        with_scaled::<A>(base, positions, scale).data,
        size,
        b,
        r,
    ) == A::plus_spec(at2(base.data, size, b, r), A::times_spec(scale, positions[r])) by {
        lemma_join2(n, size, b, r);
        assert(base.data.len() == n * size);
        vstd::arithmetic::div_mod::lemma_div_multiples_vanish(size, n);
        assert(n <= n * size) by (nonlinear_arith)
            requires
                n > 0,
                size > 0,
        ;
        assert(run_length(base) == size);
    }
}

/// The transformer's way from its inputs to its outputs: every token is normed
/// and gets its position, every pair of layers leads from one state of the
/// branches to the next, and the last state's tokens are the outputs' entries.
/// The frequency branch's token of time `k` and frequency `j` is `k * Fr + j`.
pub proof fn law_layers_lead_from_state_to_state<A: Arithmetic>(
    transformer: CrossTransformer<A>,
    x: Grid<A::Real>,
    xt: Grid<A::Real>,
    tokens: Grid<A::Real>,
    tokens_t: Grid<A::Real>,
) -> (states: Seq<(Grid<A::Real>, Grid<A::Real>)>)
    requires
        tokens.shape == seq![x.shape[0], (x.shape[3] * x.shape[2]) as usize, x.shape[1]],
        tokens.data.len() == x.data.len(),
        forall|b: int, c: int, j: int, k: int|
            0 <= b < x.shape[0] && 0 <= c < x.shape[1] && 0 <= j < x.shape[2] && 0 <= k
                < x.shape[3] ==> #[trigger] at4(
                x.data,
                x.shape[1] as int,
                x.shape[2] as int,
                x.shape[3] as int,
                b,
                c,
                j,
                k,
            ) == at3(
                tokens.data,
                x.shape[3] * x.shape[2],
                x.shape[1] as int,
                b,
                k * x.shape[2] + j,
                c,
            ),
        tokens_t.shape == seq![xt.shape[0], xt.shape[2], xt.shape[1]],
        tokens_t.data.len() == xt.data.len(),
        forall|b: int, c: int, k: int|
            0 <= b < xt.shape[0] && 0 <= c < xt.shape[1] && 0 <= k < xt.shape[2]
                ==> #[trigger] at3(
                xt.data,
                xt.shape[1] as int,
                xt.shape[2] as int,
                b,
                c,
                k,
            ) == at3(tokens_t.data, xt.shape[2] as int, xt.shape[1] as int, b, k, c),
        x.wf(),
        xt.wf(),
        transformer.admits(x.shape, xt.shape),
        x.shape[0] == xt.shape[0],
        x.shape[1] == transformer.dim,
        xt.shape[1] == transformer.dim,
    ensures
        states.len() == transformer.layers@.len() + 1,
        states[0].0.shape == seq![x.shape[0], (x.shape[3] * x.shape[2]) as usize, x.shape[1]],
        states[0].1.shape == seq![xt.shape[0], xt.shape[2], xt.shape[1]],
        forall|b: int, r: int|
            0 <= b < x.shape[0] && 0 <= r < x.shape[3] * x.shape[2] * x.shape[1]
                ==> #[trigger] at2(
                states[0].0.data,
                x.shape[3] * x.shape[2] * x.shape[1],
                b,
                r,
            ) == A::plus_spec(
                at2(
                    layer_norm_spec::<A>(
                        tokens,
                        transformer.norm_in.weight@,
                        transformer.norm_in.bias@,
                        A::literal_spec(1, 100_000),
                    ).data,
                    x.shape[3] * x.shape[2] * x.shape[1],
                    b,
                    r,
                ),
                A::times_spec(
                    transformer.weight_pos_embed,
                    embedding_2d::<A>(
                        transformer.dim,
                        x.shape[2],
                        x.shape[3],
                        transformer.max_period,
                    ).data[r],
                ),
            ),
        forall|b: int, r: int|
            0 <= b < x.shape[0] && 0 <= r < xt.shape[2] * xt.shape[1] ==> #[trigger] at2(
                states[0].1.data,
                xt.shape[2] * xt.shape[1],
                b,
                r,
            ) == A::plus_spec(
                at2(
                    layer_norm_spec::<A>(
                        tokens_t,
                        transformer.norm_in_t.weight@,
                        transformer.norm_in_t.bias@,
                        A::literal_spec(1, 100_000),
                    ).data,
                    xt.shape[2] * xt.shape[1],
                    b,
                    r,
                ),
                A::times_spec(
                    transformer.weight_pos_embed,
                    embedding_1d::<A>(
                        xt.shape[2],
                        transformer.dim,
                        transformer.max_period,
                    ).data[r],
                ),
            ),
        forall|b: int, c: int, j: int, k: int|
            0 <= b < x.shape[0] && 0 <= c < x.shape[1] && 0 <= j < x.shape[2] && 0 <= k
                < x.shape[3] ==> #[trigger] at4(
                transformer.output(x, xt).0.data,
                x.shape[1] as int,
                x.shape[2] as int,
                x.shape[3] as int,
                b,
                c,
                j,
                k,
            ) == at3(
                states.last().0.data,
                x.shape[3] * x.shape[2],
                x.shape[1] as int,
                b,
                k * x.shape[2] + j,
                c,
            ),
        forall|b: int, c: int, k: int|
            0 <= b < x.shape[0] && 0 <= c < x.shape[1] && 0 <= k < xt.shape[2] ==> #[trigger] at3(
                transformer.output(x, xt).1.data,
                xt.shape[1] as int,
                xt.shape[2] as int,
                b,
                c,
                k,
            ) == at3(states.last().1.data, xt.shape[2] as int, xt.shape[1] as int, b, k, c),
        forall|i: int|
            0 <= i < transformer.layers@.len() ==> leads_to::<A>(
                #[trigger] transformer.layers@[i],
                transformer.layers_t@[i],
                transformer.heads,
                states[i],
                states[i + 1],
            ),
{
    reveal(CrossTransformer::admits);
    reveal(CrossTransformer::output);
    let count = transformer.layers@.len();
    let states = Seq::new(
        count + 1,
        |i: int|
            exchanged::<A>(
                transformer.layers@,
                transformer.layers_t@,
                transformer.tokens(x),
                transformer.tokens_t(xt),
                transformer.heads,
                i,
            ),
    );
    assert forall|i: int| 0 <= i < count implies leads_to::<A>(
        #[trigger] transformer.layers@[i],
        transformer.layers_t@[i],
        transformer.heads,
        states[i],
        states[i + 1],
    ) by {}
    let (n, c0, f, t) = (
        x.shape[0] as int,
        x.shape[1] as int,
        x.shape[2] as int,
        x.shape[3] as int,
    );
    let tt = xt.shape[2] as int;
    lemma_arranged_shape(x.shape);
    lemma_tokens(x, tokens);
    lemma_tokens_t(xt, tokens_t);
    lemma_rank4(x.shape);
    lemma_rank3(xt.shape);
    lemma_extent(t, f);
    lemma_placed::<A>(
        tokens,
        n,
        t * f,
        c0,
        transformer.norm_in.weight@,
        transformer.norm_in.bias@,
        embedding_2d::<A>(transformer.dim, x.shape[2], x.shape[3], transformer.max_period).data,
        transformer.weight_pos_embed,
    );
    lemma_placed::<A>(
        tokens_t,
        n,
        tt,
        c0,
        transformer.norm_in_t.weight@,
        transformer.norm_in_t.bias@,
        embedding_1d::<A>(xt.shape[2], transformer.dim, transformer.max_period).data,
        transformer.weight_pos_embed,
    );
    assert forall|b: int, c: int, j: int, k: int|
        0 <= b < n && 0 <= c < c0 && 0 <= j < f && 0 <= k < t implies #[trigger] at4(
        transformer.output(x, xt).0.data,
        c0,
        f,
        t,
        b,
        c,
        j,
        k,
    ) == at3(states.last().0.data, t * f, c0, b, k * f + j, c) by {
        lemma_join4(n, c0, f, t, b, c, j, k);
    }
    assert forall|b: int, c: int, k: int|
        0 <= b < n && 0 <= c < c0 && 0 <= k < xt.shape[2] implies #[trigger] at3(
        transformer.output(x, xt).1.data,
        c0,
        xt.shape[2] as int,
        b,
        c,
        k,
    ) == at3(states.last().1.data, xt.shape[2] as int, c0, b, k, c) by {
        lemma_join3(n, c0, xt.shape[2] as int, b, c, k);
    }
    states
}

} // verus!
