//! The cross-domain transformer.
//!
//! Five layers on each branch. Even layers attend to their own branch; odd
//! layers attend across, the frequency branch querying the time branch and the
//! time branch querying the frequency branch as it was before its own update.
//! The frequency branch carries a two-dimensional (frequency by time)
//! sinusoidal embedding of the position, the time branch a one-dimensional
//! one.

use vstd::prelude::*;

use crate::arithmetic::{lawful, Arithmetic};
use crate::embedding::{
    add_scaled_in_place, embedding_1d, embedding_2d, sin_embedding_1d, sin_embedding_2d,
    with_scaled,
};
use crate::layers::{can_norm, norm, normed, norms, Layer};
use crate::layout::{
    arrange_freq, arrange_time, arranged_freq, arranged_time, lemma_arranged_shape, unarrange_freq,
    unarrange_time, unarranged_freq, unarranged_time,
};
use crate::parameters::{first_unmet, lemma_needs, met, readable, reads, unmet};
use crate::parameters::{Affine, LoadError, Need};
use crate::tensor::{
    addressable, at_least_one, is_addressable, lemma_rank3, lemma_rank4, product, product3, Grid,
    Tensor,
};
use crate::text::{decimal, joined, numbered};
use crate::weights::{Store, Weights};

verus! {

/// The transformer.
pub struct CrossTransformer<A: Arithmetic> {
    pub dim: usize,
    pub heads: usize,
    pub max_period: A::Real,
    pub weight_pos_embed: A::Real,
    pub norm_in: Affine<A>,
    pub norm_in_t: Affine<A>,
    pub layers: Vec<Layer<A>>,
    pub layers_t: Vec<Layer<A>>,
}

/// The prefix of a layer of the frequency branch.
pub open spec fn freq_layer(prefix: Seq<char>, index: nat) -> Seq<char> {
    prefix + ".layers."@ + decimal(index)
}

/// The prefix of a layer of the time branch.
pub open spec fn time_layer(prefix: Seq<char>, index: nat) -> Seq<char> {
    prefix + ".layers_t."@ + decimal(index)
}

/// What the first `count` layers of both branches ask for.
pub open spec fn layers_needs<A: Arithmetic>(prefix: Seq<char>, count: nat) -> Seq<Need>
    decreases count,
{
    if count == 0 {
        Seq::empty()
    } else {
        let index = (count - 1) as nat;
        layers_needs::<A>(prefix, index) + Layer::<A>::needs(
            freq_layer(prefix, index),
            index % 2 == 0,
        ) + Layer::<A>::needs(time_layer(prefix, index), index % 2 == 0)
    }
}

/// Both branches after the first `count` layers.
pub open spec fn exchanged<A: Arithmetic>(
    layers: Seq<Layer<A>>,
    layers_t: Seq<Layer<A>>,
    x: Grid<A::Real>,
    xt: Grid<A::Real>,
    heads: usize,
    count: int,
) -> (Grid<A::Real>, Grid<A::Real>)
    decreases count,
{
    if count <= 0 {
        (x, xt)
    } else {
        let (a, b) = exchanged::<A>(layers, layers_t, x, xt, heads, count - 1);
        let layer = layers[count - 1];
        let layer_t = layers_t[count - 1];
        match layer {
            Layer::Classic(_) => (layer.output(a, None, heads), layer_t.output(b, None, heads)),
            Layer::Cross(_) => (
                layer.output(a, Some(b), heads),
                layer_t.output(b, Some(a), heads),
            ),
        }
    }
}

/// Whether a pair of layers can be computed on sequences of these shapes.
pub open spec fn pair_admits<A: Arithmetic>(
    layer: Layer<A>,
    layer_t: Layer<A>,
    shape: Seq<usize>,
    shape_t: Seq<usize>,
    heads: usize,
) -> bool {
    match layer {
        Layer::Classic(_) => layer.admits(shape, None, heads) && layer_t.admits(
            shape_t,
            None,
            heads,
        ),
        Layer::Cross(_) => layer.admits(shape, Some(shape_t), heads) && layer_t.admits(
            shape_t,
            Some(shape),
            heads,
        ),
    }
}

/// The shape of the tokens of `[B, C, Fr, T]`.
pub open spec fn token_shape(shape: Seq<usize>) -> Seq<usize> {
    seq![shape[0], (shape[3] * shape[2]) as usize, shape[1]]
}

/// The shape of the tokens of `[B, C, T]`.
pub open spec fn token_shape_t(shape: Seq<usize>) -> Seq<usize> {
    seq![shape[0], shape[2], shape[1]]
}

impl<A: Arithmetic> CrossTransformer<A> {
    /// What tells the width of the transformer.
    pub open spec fn width_need(prefix: Seq<char>) -> Need {
        Need {
            name: prefix + ".norm_in.weight"@,
            complaint: "missing transformer norm_in"@,
            axes: 1,
        }
    }

    /// What the transformer of this prefix asks for.
    pub open spec fn needs(prefix: Seq<char>) -> Seq<Need> {
        seq![Self::width_need(prefix)] + layers_needs::<A>(prefix, 5) + Affine::<A>::needs(
            prefix + ".norm_in"@,
        ) + Affine::<A>::needs(prefix + ".norm_in_t"@)
    }

    /// Whether this is the transformer of this prefix.
    pub open spec fn is_from(
        self,
        store: Store,
        prefix: Seq<char>,
        heads: usize,
        max_period: A::Real,
        weight_pos_embed: A::Real,
    ) -> bool {
        &&& store.find(Self::width_need(prefix).name) matches Some(block) && self.dim
            == block.shape[0]
        &&& self.heads == heads
        &&& self.max_period == max_period
        &&& self.weight_pos_embed == weight_pos_embed
        &&& self.norm_in.is_from(store, prefix + ".norm_in"@)
        &&& self.norm_in_t.is_from(store, prefix + ".norm_in_t"@)
        &&& self.layers@.len() == 5
        &&& self.layers_t@.len() == 5
        &&& forall|i: int|
            0 <= i < 5 ==> (#[trigger] self.layers@[i]).is_from(
                store,
                freq_layer(prefix, i as nat),
                i % 2 == 0,
            )
        &&& forall|i: int|
            0 <= i < 5 ==> (#[trigger] self.layers_t@[i]).is_from(
                store,
                time_layer(prefix, i as nat),
                i % 2 == 0,
            )
    }

    /// Whether the transformer can be computed on `[B, C, Fr, T1]` and
    /// `[B, C, T2]` of these shapes.
    #[verifier::opaque]
    pub open spec fn admits(self, shape: Seq<usize>, shape_t: Seq<usize>) -> bool {
        let tokens = token_shape(shape);
        let tokens_t = token_shape_t(shape_t);
        &&& shape.len() == 4
        &&& shape_t.len() == 3
        &&& addressable(seq![1, tokens[1], self.dim])
        &&& addressable(seq![tokens_t[1], 1, self.dim])
        &&& norms::<A>(tokens, self.norm_in)
        &&& norms::<A>(tokens_t, self.norm_in_t)
        &&& self.layers@.len() <= self.layers_t@.len()
        &&& forall|i: int|
            0 <= i < self.layers@.len() ==> pair_admits::<A>(
                #[trigger] self.layers@[i],
                self.layers_t@[i],
                tokens,
                tokens_t,
                self.heads,
            )
        &&& addressable(seq![shape[0], self.dim, shape[2], shape[3]])
        &&& addressable(seq![shape[0], self.dim, shape_t[2]])
        &&& shape[0] * (shape[3] * shape[2]) * self.dim <= shape[0] * (shape[3] * shape[2])
            * shape[1]
        &&& shape[0] * shape_t[2] * self.dim <= shape_t[0] * shape_t[2] * shape_t[1]
    }

    /// What the transformer gives is addressable.
    pub proof fn lemma_addressable(self, shape: Seq<usize>, shape_t: Seq<usize>)
        requires
            self.admits(shape, shape_t),
        ensures
            addressable(seq![shape[0], self.dim, shape[2], shape[3]]),
            addressable(seq![shape[0], self.dim, shape_t[2]]),
    {
        reveal(CrossTransformer::admits);
    }

    /// The tokens of the frequency branch, normed and with their positions.
    pub open spec fn tokens(self, x: Grid<A::Real>) -> Grid<A::Real> {
        with_scaled::<A>(
            normed::<A>(arranged_freq(x), self.norm_in),
            embedding_2d::<A>(self.dim, x.shape[2], x.shape[3], self.max_period).data,
            self.weight_pos_embed,
        )
    }

    /// The tokens of the time branch, normed and with their positions.
    pub open spec fn tokens_t(self, xt: Grid<A::Real>) -> Grid<A::Real> {
        with_scaled::<A>(
            normed::<A>(arranged_time(xt), self.norm_in_t),
            embedding_1d::<A>(xt.shape[2], self.dim, self.max_period).data,
            self.weight_pos_embed,
        )
    }

    /// The transformer's outputs.
    #[verifier::opaque]
    pub open spec fn output(self, x: Grid<A::Real>, xt: Grid<A::Real>) -> (
        Grid<A::Real>,
        Grid<A::Real>,
    ) {
        let (a, b) = exchanged::<A>(
            self.layers@,
            self.layers_t@,
            self.tokens(x),
            self.tokens_t(xt),
            self.heads,
            self.layers@.len() as int,
        );
        (
            unarranged_freq(a.data, x.shape[0], self.dim, x.shape[2], x.shape[3]),
            unarranged_time(b.data, x.shape[0], self.dim, xt.shape[2]),
        )
    }

    /// Whether the transformer can be computed on tensors of these shapes.
    pub fn takes(&self, shape: &[usize], shape_t: &[usize]) -> (can: bool)
        requires
            addressable(shape@),
            addressable(shape_t@),
        ensures
            can == self.admits(shape@, shape_t@),
    {
        proof {
            reveal(CrossTransformer::admits);
        }
        if shape.len() != 4 || shape_t.len() != 3 {
            return false;
        }
        proof {
            lemma_rank4(shape@);
            lemma_rank3(shape_t@);
            lemma_arranged_shape(shape@);
            lemma_token_shape_t(shape_t@);
        }
        let tokens = vec![shape[0], shape[3] * shape[2], shape[1]];
        let tokens_t = vec![shape_t[0], shape_t[2], shape_t[1]];
        let line = vec![1, tokens[1], self.dim];
        let line_t = vec![tokens_t[1], 1, self.dim];
        let out = vec![shape[0], self.dim, shape[2], shape[3]];
        let out_t = vec![shape[0], self.dim, shape_t[2]];
        proof {
            assert(tokens@ =~= token_shape(shape@));
            assert(tokens_t@ =~= token_shape_t(shape_t@));
            assert(line@ =~= seq![1, tokens@[1], self.dim]);
            assert(line_t@ =~= seq![tokens_t@[1], 1, self.dim]);
            assert(out@ =~= seq![shape@[0], self.dim, shape@[2], shape@[3]]);
            assert(out_t@ =~= seq![shape@[0], self.dim, shape_t@[2]]);
            lemma_rank4(out@);
            lemma_rank3(out_t@);
            lemma_rank3(tokens@);
            lemma_rank3(tokens_t@);
        }
        if !is_addressable(line.as_slice()) || !is_addressable(line_t.as_slice())
            || !is_addressable(out.as_slice()) || !is_addressable(out_t.as_slice()) {
            return false;
        }
        if !can_norm(tokens.as_slice(), &self.norm_in) || !can_norm(
            tokens_t.as_slice(),
            &self.norm_in_t,
        ) || self.layers.len() > self.layers_t.len() {
            return false;
        }
        if !no_more_entries(shape[0], tokens[1], self.dim, tokens.as_slice()) || !no_more_entries(
            shape[0],
            tokens_t[1],
            self.dim,
            tokens_t.as_slice(),
        ) {
            return false;
        }
        let mut index: usize = 0;
        while index < self.layers.len()
            invariant
                tokens@ == token_shape(shape@),
                tokens_t@ == token_shape_t(shape_t@),
                addressable(tokens@),
                addressable(tokens_t@),
                index <= self.layers@.len() <= self.layers_t@.len(),
                forall|i: int|
                    0 <= i < index ==> pair_admits::<A>(
                        #[trigger] self.layers@[i],
                        self.layers_t@[i],
                        tokens@,
                        tokens_t@,
                        self.heads,
                    ),
            decreases self.layers@.len() - index,
        {
            let layer = &self.layers[index];
            let layer_t = &self.layers_t[index];
            let can = match layer {
                Layer::Classic(_) => layer.takes(tokens.as_slice(), None, self.heads)
                    && layer_t.takes(tokens_t.as_slice(), None, self.heads),
                Layer::Cross(_) => layer.takes(
                    tokens.as_slice(),
                    Some(tokens_t.as_slice()),
                    self.heads,
                ) && layer_t.takes(
                    tokens_t.as_slice(),
                    Some(tokens.as_slice()),
                    self.heads,
                ),
            };
            if !can {
                reveal(CrossTransformer::admits);
                assert(!pair_admits::<A>(
                    self.layers@[index as int],
                    self.layers_t@[index as int],
                    tokens@,
                    tokens_t@,
                    self.heads,
                ));
                return false;
            }
            index = index + 1;
        }
        true
    }

    /// Loads the transformer.
    pub fn load(
        weights: &Weights,
        prefix: &str,
        heads: usize,
        max_period: A::Real,
        weight_pos_embed: A::Real,
    ) -> (out: Result<Self, LoadError>)
        requires
            lawful::<A>(),
            weights.wf(),
            readable(weights@, Self::needs(prefix@)),
        ensures
            match out {
                Ok(module) => met(weights@, Self::needs(prefix@)) && module.is_from(
                    weights@,
                    prefix@,
                    heads,
                    max_period,
                    weight_pos_embed,
                ),
                Err(error) => unmet(weights@, Self::needs(prefix@), error.message@),
            },
    {
        let width_name = joined(prefix, ".norm_in.weight");
        let norm_name = joined(prefix, ".norm_in");
        let norm_t_name = joined(prefix, ".norm_in_t");
        let ghost first = seq![Self::width_need(prefix@)];
        proof {
            let b = layers_needs::<A>(prefix@, 5);
            let c = Affine::<A>::needs(norm_name@);
            let d = Affine::<A>::needs(norm_t_name@);
            lemma_needs(weights@, first, b);
            lemma_needs(weights@, first + b, c);
            lemma_needs(weights@, first + b + c, d);
            assert(reads(weights@, first[0]));
            assert(weights@.find(width_name@) is None ==> first_unmet(weights@, first, 0));
            assert(weights@.find(width_name@) is None ==> unmet(
                weights@,
                first,
                "missing transformer norm_in"@,
            ));
        }
        let dim = match weights.tensor(width_name.as_str()) {
            Some(tensor) => tensor.shape()[0],
            None => return Err(
                LoadError { message: "missing transformer norm_in".to_owned() },
            ),
        };
        proof {
            assert(met(weights@, first));
        }
        let mut layers: Vec<Layer<A>> = Vec::new();
        let mut layers_t: Vec<Layer<A>> = Vec::new();
        let mut index: usize = 0;
        while index < 5
            invariant
                lawful::<A>(),
                weights.wf(),
                readable(weights@, Self::needs(prefix@)),
                index <= 5,
                layers@.len() == index,
                layers_t@.len() == index,
                first == seq![Self::width_need(prefix@)],
                met(weights@, first),
                norm_name@ == prefix@ + ".norm_in"@,
                norm_t_name@ == prefix@ + ".norm_in_t"@,
                met(weights@, layers_needs::<A>(prefix@, index as nat)),
                forall|i: int|
                    0 <= i < index ==> (#[trigger] layers@[i]).is_from(
                        weights@,
                        freq_layer(prefix@, i as nat),
                        i % 2 == 0,
                    ),
                forall|i: int|
                    0 <= i < index ==> (#[trigger] layers_t@[i]).is_from(
                        weights@,
                        time_layer(prefix@, i as nat),
                        i % 2 == 0,
                    ),
            decreases 5 - index,
        {
            let classic = index % 2 == 0;
            let name = numbered(joined(prefix, ".layers.").as_str(), index);
            let name_t = numbered(joined(prefix, ".layers_t.").as_str(), index);
            proof {
                let store = weights@;
                let a = layers_needs::<A>(prefix@, index as nat);
                let b = Layer::<A>::needs(name@, classic);
                let c = Layer::<A>::needs(name_t@, classic);
                lemma_needs(store, a, b);
                lemma_needs(store, a + b, c);
                assert(layers_needs::<A>(prefix@, (index + 1) as nat) == a + b + c);
                lemma_layers_grow::<A>(store, prefix@, (index + 1) as nat, 5);
                let all = layers_needs::<A>(prefix@, 5);
                let d = Affine::<A>::needs(norm_name@);
                let e = Affine::<A>::needs(norm_t_name@);
                lemma_needs(store, first, all);
                lemma_needs(store, first + all, d);
                lemma_needs(store, first + all + d, e);
            }
            let layer = match Layer::<A>::load(weights, name.as_str(), classic) {
                Ok(layer) => layer,
                Err(error) => return Err(error),
            };
            let layer_t = match Layer::<A>::load(weights, name_t.as_str(), classic) {
                Ok(layer) => layer,
                Err(error) => return Err(error),
            };
            layers.push(layer);
            layers_t.push(layer_t);
            index = index + 1;
        }
        proof {
            let b = layers_needs::<A>(prefix@, 5);
            let c = Affine::<A>::needs(norm_name@);
            let d = Affine::<A>::needs(norm_t_name@);
            lemma_needs(weights@, first, b);
            lemma_needs(weights@, first + b, c);
            lemma_needs(weights@, first + b + c, d);
        }
        let norm_in = match Affine::<A>::load(weights, norm_name.as_str()) {
            Ok(module) => module,
            Err(error) => return Err(error),
        };
        let norm_in_t = match Affine::<A>::load(weights, norm_t_name.as_str()) {
            Ok(module) => module,
            Err(error) => return Err(error),
        };
        Ok(
            CrossTransformer {
                dim,
                heads,
                max_period,
                weight_pos_embed,
                norm_in,
                norm_in_t,
                layers,
                layers_t,
            },
        )
    }

    /// The width of the transformer.
    pub fn dim(&self) -> (dim: usize)
        ensures
            dim == self.dim,
    {
        self.dim
    }

    /// Runs the transformer. `x` is `[B, C, Fr, T1]`, `xt` is `[B, C, T2]`.
    pub fn forward(&self, x: &Tensor<A::Real>, xt: &Tensor<A::Real>) -> (out: (
        Tensor<A::Real>,
        Tensor<A::Real>,
    ))
        requires
            lawful::<A>(),
            x.wf(),
            xt.wf(),
            self.admits(x@.shape, xt@.shape),
        ensures
            (out.0@, out.1@) == self.output(x@, xt@),
            out.0.wf(),
            out.1.wf(),
            out.0@.shape == seq![x@.shape[0], self.dim, x@.shape[2], x@.shape[3]],
            out.1@.shape == seq![x@.shape[0], self.dim, xt@.shape[2]],
    {
        proof {
            reveal(CrossTransformer::admits);
            reveal(CrossTransformer::output);
        }
        let batch = x.shape[0];
        let frequency = x.shape[2];
        let time = x.shape[3];
        let time_t = xt.shape[2];
        proof {
            lemma_rank4(x@.shape);
            lemma_rank3(xt@.shape);
            assert(time * frequency == frequency * time) by (nonlinear_arith);
        }
        let positions = sin_embedding_2d::<A>(self.dim, frequency, time, self.max_period);
        let arranged = arrange_freq(x);
        let mut x_tokens = norm::<A>(&arranged, &self.norm_in);
        add_scaled_in_place::<A>(&mut x_tokens, &positions, self.weight_pos_embed);

        let positions_t = sin_embedding_1d::<A>(time_t, self.dim, self.max_period);
        let arranged_t = arrange_time(xt);
        let mut xt_tokens = norm::<A>(&arranged_t, &self.norm_in_t);
        add_scaled_in_place::<A>(&mut xt_tokens, &positions_t, self.weight_pos_embed);
        proof {
            assert(x_tokens@ == self.tokens(x@));
            assert(xt_tokens@ == self.tokens_t(xt@));
            assert(x_tokens@.shape =~= token_shape(x@.shape));
            assert(xt_tokens@.shape =~= token_shape_t(xt@.shape));
        }

        let mut index: usize = 0;
        while index < self.layers.len()
            invariant
                lawful::<A>(),
                self.layers@.len() <= self.layers_t@.len(),
                forall|i: int|
                    0 <= i < self.layers@.len() ==> pair_admits::<A>(
                        #[trigger] self.layers@[i],
                        self.layers_t@[i],
                        token_shape(x@.shape),
                        token_shape_t(xt@.shape),
                        self.heads,
                    ),
                index <= self.layers@.len(),
                x_tokens.wf(),
                xt_tokens.wf(),
                x_tokens@.shape == token_shape(x@.shape),
                xt_tokens@.shape == token_shape_t(xt@.shape),
                (x_tokens@, xt_tokens@) == exchanged::<A>(
                    self.layers@,
                    self.layers_t@,
                    self.tokens(x@),
                    self.tokens_t(xt@),
                    self.heads,
                    index as int,
                ),
            decreases self.layers@.len() - index,
        {
            proof {
                assert(pair_admits::<A>(
                    self.layers@[index as int],
                    self.layers_t@[index as int],
                    x_tokens@.shape,
                    xt_tokens@.shape,
                    self.heads,
                ));
            }
            let layer = &self.layers[index];
            let layer_t = &self.layers_t[index];
            match layer {
                Layer::Classic(_) => {
                    x_tokens = layer.forward(&x_tokens, None, self.heads);
                    xt_tokens = layer_t.forward(&xt_tokens, None, self.heads);
                },
                Layer::Cross(_) => {
                    let previous_x = x_tokens.clone();
                    x_tokens = layer.forward(&x_tokens, Some(&xt_tokens), self.heads);
                    xt_tokens = layer_t.forward(&xt_tokens, Some(&previous_x), self.heads);
                },
            }
            index = index + 1;
        }
        proof {
            lemma_rank3(x_tokens@.shape);
            lemma_rank3(xt_tokens@.shape);
        }
        let x_out = unarrange_freq(&x_tokens, batch, self.dim, frequency, time);
        let xt_out = unarrange_time(&xt_tokens, batch, self.dim, time_t);
        (x_out, xt_out)
    }
}

/// Whether `a * b * c` entries are no more than a shape has.
fn no_more_entries(a: usize, b: usize, c: usize, shape: &[usize]) -> (fits: bool)
    requires
        shape@.len() == 3,
        addressable(shape@),
    ensures
        fits == (a * b * c <= shape@[0] * shape@[1] * shape@[2]),
{
    proof {
        assert(shape@.skip(0) =~= shape@);
        lemma_rank3(shape@);
    }
    match product3(a, b, c) {
        Some(count) => count <= product(shape, 0),
        None => false,
    }
}

/// Swapping the last two axes keeps a shape addressable.
proof fn lemma_token_shape_t(shape: Seq<usize>)
    requires
        shape.len() == 3,
        addressable(shape),
    ensures
        addressable(token_shape_t(shape)),
{
    lemma_rank3(shape);
    lemma_rank3(token_shape_t(shape));
    let (a, b, c) = (at_least_one(shape[0]), at_least_one(shape[1]), at_least_one(shape[2]));
    assert(a * c * b == a * b * c) by (nonlinear_arith);
}

/// A complaint of the first layers is one of all of them, and they can be looked
/// up where all of them can.
proof fn lemma_layers_grow<A: Arithmetic>(store: Store, prefix: Seq<char>, count: nat, total: nat)
    requires
        count <= total,
    ensures
        forall|complaint: Seq<char>|
            #![trigger unmet(store, layers_needs::<A>(prefix, count), complaint)]
            unmet(store, layers_needs::<A>(prefix, count), complaint) ==> unmet(
                store,
                layers_needs::<A>(prefix, total),
                complaint,
            ),
        readable(store, layers_needs::<A>(prefix, total)) ==> readable(
            store,
            layers_needs::<A>(prefix, count),
        ),
    decreases total - count,
{
    if count < total {
        lemma_layers_grow::<A>(store, prefix, count + 1, total);
        let a = layers_needs::<A>(prefix, count);
        let b = Layer::<A>::needs(freq_layer(prefix, count), count % 2 == 0);
        let c = Layer::<A>::needs(time_layer(prefix, count), count % 2 == 0);
        lemma_needs(store, a, b);
        lemma_needs(store, a + b, c);
        assert(layers_needs::<A>(prefix, count + 1) == a + b + c);
    }
}

/// Where the transformer is as wide as its input, it gives the shapes it was
/// given.
pub proof fn law_the_transformer_keeps_shapes<A: Arithmetic>(
    transformer: CrossTransformer<A>,
    x: Grid<A::Real>,
    xt: Grid<A::Real>,
)
    requires
        x.shape.len() == 4,
        xt.shape.len() == 3,
        xt.shape[0] == x.shape[0],
        x.shape[1] == transformer.dim,
        xt.shape[1] == transformer.dim,
    ensures
        transformer.output(x, xt).0.shape == x.shape,
        transformer.output(x, xt).1.shape == xt.shape,
{
    reveal(CrossTransformer::output);
    assert(transformer.output(x, xt).0.shape =~= x.shape);
    assert(transformer.output(x, xt).1.shape =~= xt.shape);
}

} // verus!
