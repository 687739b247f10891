//! The layers of the transformer: attention, feed-forward and their norms.
//!
//! Sequences are `[B, T, C]` here.

use vstd::prelude::*;
use vstd::slice::slice_subrange;

use crate::arithmetic::{lawful, Arithmetic};
use crate::attention::{attend_heads, from_heads, heads_attention, heads_of, merged_heads, to_heads};
use crate::dconv::norm_eps;
use crate::index::lemma_extent;
use crate::ops::{
    can_layer_norm, can_sequence_norm, gelu, gelu_spec, group_norm_sequence,
    group_norm_sequence_spec, layer_norm, layer_norm_spec, layer_norms, layer_scale_last,
    layer_scale_last_spec, linear, linear_of, linear_shape, linear_spec, projects, sequence_norms,
    sum, sum_spec,
};
use crate::parameters::{lemma_needs, load, met, parameter, readable, unmet, weight_need};
use crate::parameters::{Affine, LoadError, Need};
use crate::tensor::{addressable, lemma_rank3, product, product2, volume, Grid, Tensor};
use crate::text::joined;
use crate::weights::{Store, Weights};

verus! {

/// The projections of an attention. The first holds the queries', the keys'
/// and the values' weights, one after the other.
pub struct AttentionWeights<A: Arithmetic> {
    pub in_proj: Affine<A>,
    pub out_proj: Affine<A>,
}

impl<A: Arithmetic> AttentionWeights<A> {
    /// What the attention of this prefix asks for.
    pub open spec fn needs(prefix: Seq<char>) -> Seq<Need> {
        seq![weight_need(prefix + ".in_proj_weight"@)] + seq![
            weight_need(prefix + ".in_proj_bias"@),
        ] + Affine::<A>::needs(prefix + ".out_proj"@)
    }

    /// Whether these are the projections of this prefix.
    pub open spec fn is_from(self, store: Store, prefix: Seq<char>) -> bool {
        &&& self.in_proj.weight@ == parameter::<A>(store, prefix + ".in_proj_weight"@)
        &&& self.in_proj.bias@ == parameter::<A>(store, prefix + ".in_proj_bias"@)
        &&& self.out_proj.is_from(store, prefix + ".out_proj"@)
    }

    /// Projection `which` of a sequence: queries, keys or values.
    pub open spec fn projection(self, x: Grid<A::Real>, which: int) -> Grid<A::Real> {
        let dim = x.shape[2];
        linear_spec::<A>(
            x,
            self.in_proj.weight@.subrange(which * (dim * dim), which * (dim * dim) + dim * dim),
            self.in_proj.bias@.subrange(which * dim, which * dim + dim),
        )
    }

    /// Whether queries of shape `q` can attend to keys and values of shape `k`.
    pub open spec fn admits(self, q: Seq<usize>, k: Seq<usize>, heads: usize) -> bool {
        &&& q.len() == 3
        &&& k.len() == 3
        &&& q[0] == k[0]
        &&& q[2] == k[2]
        &&& q[2] > 0
        &&& heads > 0
        &&& q[2] % heads == 0
        &&& 3 * (q[2] * q[2]) <= self.in_proj.weight@.len()
        &&& 3 * q[2] <= self.in_proj.bias@.len()
        &&& q[0] > 0 ==> q[1] * k[1] <= usize::MAX
        &&& projects(q, self.out_proj.weight@.len(), self.out_proj.bias@.len())
    }

    /// The attention of queries `q` to keys `k` and their values `v`: project,
    /// split into heads, scale the queries, attend, merge and project again.
    pub open spec fn output(
        self,
        q: Grid<A::Real>,
        k: Grid<A::Real>,
        v: Grid<A::Real>,
        heads: usize,
    ) -> Grid<A::Real> {
        let batch = q.shape[0] as int;
        let queries = q.shape[1] as int;
        let keys = k.shape[1] as int;
        let width = q.shape[2] as int;
        let dim = (q.shape[2] / heads) as int;
        let split_q = heads_of(self.projection(q, 0).data, batch, queries, width, heads as int);
        let split_k = heads_of(self.projection(k, 1).data, batch, keys, width, heads as int);
        let split_v = heads_of(self.projection(v, 2).data, batch, keys, width, heads as int);
        let given = heads_attention::<A>(
            scaled::<A>(split_q, query_scale::<A>((q.shape[2] / heads) as usize)),
            split_k,
            split_v,
            batch * heads,
            queries,
            keys,
            dim,
        );
        linear_spec::<A>(
            Grid {
                shape: q.shape,
                data: merged_heads(given, batch, heads as int, queries, dim),
            },
            self.out_proj.weight@,
            self.out_proj.bias@,
        )
    }

    /// The shape that the attention gives.
    pub open spec fn out_shape(self, q: Seq<usize>) -> Seq<usize> {
        linear_shape(q, self.out_proj.bias@.len() as usize)
    }
}

/// What the queries are multiplied by: one over the square root of the width
/// of a head.
pub open spec fn query_scale<A: Arithmetic>(dim: usize) -> A::Real {
    A::over_spec(A::one_spec(), A::square_root_spec(A::from_count_spec(dim)))
}

/// Every entry times `factor`.
pub open spec fn scaled<A: Arithmetic>(x: Seq<A::Real>, factor: A::Real) -> Seq<A::Real> {
    Seq::new(x.len(), |p: int| A::times_spec(x[p], factor))
}

fn scale<A: Arithmetic>(x: &[A::Real], factor: A::Real) -> (out: Vec<A::Real>)
    requires
        lawful::<A>(),
    ensures
        out@ == scaled::<A>(x@, factor),
{
    let count = x.len();
    let mut out: Vec<A::Real> = Vec::new();
    while out.len() < count
        invariant
            lawful::<A>(),
            count == x@.len(),
            out@.len() <= count,
            forall|p: int|
                0 <= p < out@.len() ==> #[trigger] out@[p] == A::times_spec(x@[p], factor),
        decreases count - out@.len(),
    {
        out.push(A::times(x[out.len()], factor));
    }
    proof {
        assert(out@ =~= scaled::<A>(x@, factor));
    }
    out
}

impl<A: Arithmetic> AttentionWeights<A> {
    /// The shape that the attention gives, where queries of shape `q` can
    /// attend to keys of shape `k`.
    pub fn shape_of(&self, q: &[usize], k: &[usize], heads: usize) -> (out: Option<Vec<usize>>)
        ensures
            match out {
                Some(out) => self.admits(q@, k@, heads) && out@ == self.out_shape(q@),
                None => !self.admits(q@, k@, heads),
            },
    {
        if q.len() != 3 || k.len() != 3 || q[0] != k[0] || q[2] != k[2] || q[2] == 0 || heads == 0
            || q[2] % heads != 0 {
            return None;
        }
        assert(self.in_proj.weight@.len() == self.in_proj.weight.len());
        assert(self.in_proj.bias@.len() == self.in_proj.bias.len());
        proof {
            lemma_extent(q@[2] as int, q@[2] as int);
        }
        match product2(q[2], q[2]) {
            Some(size) => if size > self.in_proj.weight.len() / 3 {
                return None;
            },
            None => return None,
        }
        if q[2] > self.in_proj.bias.len() / 3 {
            return None;
        }
        if q[0] > 0 {
            match product2(q[1], k[1]) {
                Some(_) => {},
                None => return None,
            }
        }
        linear_of(q, self.out_proj.weight.len(), self.out_proj.bias.len())
    }

    fn load(weights: &Weights, prefix: &str) -> (out: Result<Self, LoadError>)
        requires
            lawful::<A>(),
            weights.wf(),
            readable(weights@, Self::needs(prefix@)),
        ensures
            match out {
                Ok(module) => met(weights@, Self::needs(prefix@)) && module.is_from(
                    weights@,
                    prefix@,
                ),
                Err(error) => unmet(weights@, Self::needs(prefix@), error.message@),
            },
    {
        let weight_name = joined(prefix, ".in_proj_weight");
        let bias_name = joined(prefix, ".in_proj_bias");
        let out_name = joined(prefix, ".out_proj");
        proof {
            let a = seq![weight_need(weight_name@)];
            let b = seq![weight_need(bias_name@)];
            let c = Affine::<A>::needs(out_name@);
            lemma_needs(weights@, a, b);
            lemma_needs(weights@, a + b, c);
        }
        let weight = match load::<A>(weights, weight_name.as_str()) {
            Ok(values) => values,
            Err(error) => return Err(error),
        };
        let bias = match load::<A>(weights, bias_name.as_str()) {
            Ok(values) => values,
            Err(error) => return Err(error),
        };
        let out_proj = match Affine::<A>::load(weights, out_name.as_str()) {
            Ok(module) => module,
            Err(error) => return Err(error),
        };
        Ok(AttentionWeights { in_proj: Affine { weight, bias }, out_proj })
    }

    fn project(&self, x: &Tensor<A::Real>, which: usize) -> (out: Vec<A::Real>)
        requires
            lawful::<A>(),
            x.wf(),
            x@.shape.len() == 3,
            x@.shape[2] > 0,
            which < 3,
            3 * (x@.shape[2] * x@.shape[2]) <= self.in_proj.weight@.len(),
            3 * x@.shape[2] <= self.in_proj.bias@.len(),
        ensures
            out@ == self.projection(x@, which as int).data,
            out@.len() == x@.data.len(),
    {
        let dim = x.shape[2];
        assert(self.in_proj.weight@.len() == self.in_proj.weight.len());
        assert(self.in_proj.bias@.len() == self.in_proj.bias.len());
        proof {
            lemma_extent(dim as int, dim as int);
        }
        let size = dim * dim;
        proof {
            assert(0 <= which * size && which * size + size <= 3 * size) by (nonlinear_arith)
                requires
                    0 <= which < 3,
                    0 <= size,
            ;
            assert(0 <= which * dim && which * dim + dim <= 3 * dim) by (nonlinear_arith)
                requires
                    0 <= which < 3,
                    0 <= dim,
            ;
        }
        let weight = slice_subrange(
            self.in_proj.weight.as_slice(),
            which * size,
            which * size + size,
        );
        let bias = slice_subrange(self.in_proj.bias.as_slice(), which * dim, which * dim + dim);
        proof {
            assert(linear_shape(x@.shape, dim) =~= x@.shape);
        }
        let out = linear::<A>(x, weight, bias);
        out.data
    }

    /// Attends with several heads.
    pub fn attend(
        &self,
        q: &Tensor<A::Real>,
        k: &Tensor<A::Real>,
        v: &Tensor<A::Real>,
        heads: usize,
    ) -> (out: Tensor<A::Real>)
        requires
            lawful::<A>(),
            q.wf(),
            k.wf(),
            v.wf(),
            v@.shape == k@.shape,
            self.admits(q@.shape, k@.shape, heads),
        ensures
            out@ == self.output(q@, k@, v@, heads),
            out@.shape == self.out_shape(q@.shape),
            out.wf(),
    {
        let batch = q.shape[0];
        let queries = q.shape[1];
        let keys = k.shape[1];
        let width = q.shape[2];
        let dim = width / heads;
        proof {
            lemma_rank3(q@.shape);
            lemma_rank3(k@.shape);
            lemma_heads(q@.shape, heads);
            lemma_heads(k@.shape, heads);
        }
        let factor = A::over(A::one(), A::square_root(A::from_count(dim)));
        let q_all = self.project(q, 0);
        let k_all = self.project(k, 1);
        let v_all = self.project(v, 2);
        let q_split = to_heads(q_all.as_slice(), batch, queries, width, heads);
        let k_split = to_heads(k_all.as_slice(), batch, keys, width, heads);
        let v_split = to_heads(v_all.as_slice(), batch, keys, width, heads);
        let q_scaled = scale::<A>(q_split.as_slice(), factor);
        proof {
            vstd::arithmetic::mul::lemma_mul_is_associative(
                batch * heads,
                queries as int,
                dim as int,
            );
            vstd::arithmetic::mul::lemma_mul_is_associative(
                batch * heads,
                keys as int,
                dim as int,
            );
            assert(batch == 0 ==> batch * heads == 0) by (nonlinear_arith);
        }
        let given = attend_heads::<A>(
            q_scaled.as_slice(),
            k_split.as_slice(),
            v_split.as_slice(),
            batch * heads,
            queries,
            keys,
            dim,
        );
        let merged = from_heads(given.as_slice(), batch, heads, queries, dim);
        let attended = Tensor {
            shape: vstd::slice::slice_to_vec(q.shape.as_slice()),
            data: merged,
        };
        linear::<A>(
            &attended,
            self.out_proj.weight.as_slice(),
            self.out_proj.bias.as_slice(),
        )
    }
}

/// The sizes of a sequence split into heads.
proof fn lemma_heads(shape: Seq<usize>, heads: usize)
    requires
        shape.len() == 3,
        addressable(shape),
        heads > 0,
        shape[2] > 0,
        shape[2] % heads == 0,
    ensures
        heads * (shape[2] / heads) == shape[2],
        shape[0] * heads <= usize::MAX,
        shape[0] * heads >= 0,
        shape[0] * heads * shape[1] <= usize::MAX,
        shape[0] * shape[1] <= usize::MAX,
        shape[0] * heads * shape[1] * (shape[2] / heads) == shape[0] * shape[1] * shape[2],
        volume(shape) == shape[0] * shape[1] * shape[2],
{
    lemma_rank3(shape);
    let (b, t, c) = (shape[0] as int, shape[1] as int, shape[2] as int);
    let h = heads as int;
    let d = c / h;
    vstd::arithmetic::div_mod::lemma_fundamental_div_mod(c, h);
    assert(d >= 1) by (nonlinear_arith)
        requires
            c == h * d,
            c > 0,
            h > 0,
    ;
    assert(h <= c) by (nonlinear_arith)
        requires
            c == h * d,
            d >= 1,
            h > 0,
    ;
    assert(0 <= b * h <= b * c) by (nonlinear_arith)
        requires
            0 <= b,
            0 < h <= c,
    ;
    assert(b * h * t <= b * t * c) by (nonlinear_arith)
        requires
            0 <= b,
            0 <= t,
            0 < h <= c,
    ;
    assert(b * h * t * d == b * t * c) by (nonlinear_arith)
        requires
            c == h * d,
    ;
}

/// Two linear layers with GELU between them.
pub struct FeedForward<A: Arithmetic> {
    pub linear1: Affine<A>,
    pub linear2: Affine<A>,
}

impl<A: Arithmetic> FeedForward<A> {
    /// What the module of this prefix asks for.
    pub open spec fn needs(prefix: Seq<char>) -> Seq<Need> {
        Affine::<A>::needs(prefix + ".linear1"@) + Affine::<A>::needs(prefix + ".linear2"@)
    }

    /// Whether this is the module of this prefix.
    pub open spec fn is_from(self, store: Store, prefix: Seq<char>) -> bool {
        &&& self.linear1.is_from(store, prefix + ".linear1"@)
        &&& self.linear2.is_from(store, prefix + ".linear2"@)
    }

    /// The shape between the two layers.
    pub open spec fn hidden_shape(self, shape: Seq<usize>) -> Seq<usize> {
        linear_shape(shape, self.linear1.bias@.len() as usize)
    }

    /// The shape that the module gives.
    pub open spec fn out_shape(self, shape: Seq<usize>) -> Seq<usize> {
        linear_shape(self.hidden_shape(shape), self.linear2.bias@.len() as usize)
    }

    /// Whether the module can be computed on a sequence of this shape.
    pub open spec fn admits(self, shape: Seq<usize>) -> bool {
        &&& projects(shape, self.linear1.weight@.len(), self.linear1.bias@.len())
        &&& projects(
            self.hidden_shape(shape),
            self.linear2.weight@.len(),
            self.linear2.bias@.len(),
        )
    }

    /// The module's output.
    pub open spec fn output(self, x: Grid<A::Real>) -> Grid<A::Real> {
        linear_spec::<A>(
            gelu_spec::<A>(linear_spec::<A>(x, self.linear1.weight@, self.linear1.bias@)),
            self.linear2.weight@,
            self.linear2.bias@,
        )
    }

    /// The shape that the module gives, where it can be computed.
    fn shape_of(&self, shape: &[usize]) -> (out: Option<Vec<usize>>)
        ensures
            match out {
                Some(out) => self.admits(shape@) && out@ == self.out_shape(shape@),
                None => !self.admits(shape@),
            },
    {
        match linear_of(shape, self.linear1.weight.len(), self.linear1.bias.len()) {
            Some(hidden) => linear_of(
                hidden.as_slice(),
                self.linear2.weight.len(),
                self.linear2.bias.len(),
            ),
            None => None,
        }
    }

    fn load(weights: &Weights, prefix: &str) -> (out: Result<Self, LoadError>)
        requires
            lawful::<A>(),
            weights.wf(),
            readable(weights@, Self::needs(prefix@)),
        ensures
            match out {
                Ok(module) => met(weights@, Self::needs(prefix@)) && module.is_from(
                    weights@,
                    prefix@,
                ),
                Err(error) => unmet(weights@, Self::needs(prefix@), error.message@),
            },
    {
        let name1 = joined(prefix, ".linear1");
        let name2 = joined(prefix, ".linear2");
        proof {
            lemma_needs(
                weights@,
                Affine::<A>::needs(name1@),
                Affine::<A>::needs(name2@),
            );
        }
        let linear1 = match Affine::<A>::load(weights, name1.as_str()) {
            Ok(module) => module,
            Err(error) => return Err(error),
        };
        let linear2 = match Affine::<A>::load(weights, name2.as_str()) {
            Ok(module) => module,
            Err(error) => return Err(error),
        };
        Ok(FeedForward { linear1, linear2 })
    }

    fn forward(&self, x: &Tensor<A::Real>) -> (out: Tensor<A::Real>)
        requires
            lawful::<A>(),
            x.wf(),
            self.admits(x@.shape),
        ensures
            out@ == self.output(x@),
            out@.shape == self.out_shape(x@.shape),
            out.wf(),
    {
        let hidden = linear::<A>(
            x,
            self.linear1.weight.as_slice(),
            self.linear1.bias.as_slice(),
        );
        let hidden = gelu::<A>(&hidden);
        linear::<A>(
            &hidden,
            self.linear2.weight.as_slice(),
            self.linear2.bias.as_slice(),
        )
    }
}

/// `x` with a branch added to it, the branch's channels scaled first.
pub open spec fn rejoined<A: Arithmetic>(
    x: Grid<A::Real>,
    branch: Grid<A::Real>,
    gamma: Seq<A::Real>,
) -> Grid<A::Real> {
    sum_spec::<A>(x, layer_scale_last_spec::<A>(branch, gamma))
}

/// Whether a branch of this shape can be scaled and added to `shape`.
pub open spec fn rejoins(shape: Seq<usize>, branch: Seq<usize>, scales: nat) -> bool {
    &&& branch.len() >= 1
    &&& branch.last() > 0
    &&& scales == branch.last()
    &&& volume(shape) <= volume(branch)
}

fn can_rejoin(shape: &[usize], branch: &[usize], scales: usize) -> (can: bool)
    requires
        addressable(shape@),
        addressable(branch@),
    ensures
        can == rejoins(shape@, branch@, scales as nat),
{
    if branch.len() < 1 {
        return false;
    }
    let last = branch[branch.len() - 1];
    if last == 0 || scales != last {
        return false;
    }
    proof {
        assert(shape@.skip(0) =~= shape@);
        assert(branch@.skip(0) =~= branch@);
    }
    product(shape, 0) <= product(branch, 0)
}

fn rejoin<A: Arithmetic>(x: &Tensor<A::Real>, branch: &Tensor<A::Real>, gamma: &[A::Real]) -> (out:
    Tensor<A::Real>)
    requires
        lawful::<A>(),
        x.wf(),
        branch.wf(),
        rejoins(x@.shape, branch@.shape, gamma@.len()),
    ensures
        out@ == rejoined::<A>(x@, branch@, gamma@),
        out@.shape == x@.shape,
        out.wf(),
{
    let scaled = layer_scale_last::<A>(branch, gamma);
    sum::<A>(x, &scaled)
}

/// A normalisation over the features of each position.
pub open spec fn normed<A: Arithmetic>(x: Grid<A::Real>, norm: Affine<A>) -> Grid<A::Real> {
    layer_norm_spec::<A>(x, norm.weight@, norm.bias@, norm_eps::<A>())
}

/// Whether a sequence of this shape can be normed.
pub open spec fn norms<A: Arithmetic>(shape: Seq<usize>, norm: Affine<A>) -> bool {
    layer_norms(shape, norm.weight@.len(), norm.bias@.len())
}

/// Norms a sequence.
pub fn norm<A: Arithmetic>(x: &Tensor<A::Real>, by: &Affine<A>) -> (out: Tensor<A::Real>)
    requires
        lawful::<A>(),
        x.wf(),
        norms::<A>(x@.shape, *by),
    ensures
        out@ == normed::<A>(x@, *by),
        out@.shape == x@.shape,
        out.wf(),
{
    layer_norm::<A>(x, by.weight.as_slice(), by.bias.as_slice(), A::literal(1, 100_000))
}

/// Whether a sequence of this shape can be normed.
pub fn can_norm<A: Arithmetic>(shape: &[usize], by: &Affine<A>) -> (can: bool)
    ensures
        can == norms::<A>(shape@, *by),
{
    can_layer_norm(shape, by.weight.len(), by.bias.len())
}

/// The two scaled residual steps that every layer ends with, and its last
/// norm: the attended branch joins, then the feed-forward branch.
pub struct Tail<A: Arithmetic> {
    pub feed_forward: FeedForward<A>,
    pub gamma1: Vec<A::Real>,
    pub gamma2: Vec<A::Real>,
}

impl<A: Arithmetic> Tail<A> {
    /// What the layer of this prefix asks for first.
    pub open spec fn needs(prefix: Seq<char>) -> Seq<Need> {
        FeedForward::<A>::needs(prefix) + seq![weight_need(prefix + ".gamma_1.scale"@)] + seq![
            weight_need(prefix + ".gamma_2.scale"@),
        ]
    }

    /// Whether this belongs to the layer of this prefix.
    pub open spec fn is_from(self, store: Store, prefix: Seq<char>) -> bool {
        &&& self.feed_forward.is_from(store, prefix)
        &&& self.gamma1@ == parameter::<A>(store, prefix + ".gamma_1.scale"@)
        &&& self.gamma2@ == parameter::<A>(store, prefix + ".gamma_2.scale"@)
    }

    /// Whether a sequence of this shape can go through, with an attended
    /// branch of shape `branch`.
    pub open spec fn admits(
        self,
        shape: Seq<usize>,
        branch: Seq<usize>,
        inner: Affine<A>,
        outer: Affine<A>,
    ) -> bool {
        &&& rejoins(shape, branch, self.gamma1@.len())
        &&& norms::<A>(shape, inner)
        &&& self.feed_forward.admits(shape)
        &&& rejoins(shape, self.feed_forward.out_shape(shape), self.gamma2@.len())
        &&& sequence_norms(shape, outer.weight@.len(), outer.bias@.len())
    }

    /// `x` with the attended branch joined, then the feed-forward branch, then
    /// normed over each sample.
    pub open spec fn output(
        self,
        x: Grid<A::Real>,
        branch: Grid<A::Real>,
        inner: Affine<A>,
        outer: Affine<A>,
    ) -> Grid<A::Real> {
        let x = rejoined::<A>(x, branch, self.gamma1@);
        let forwarded = self.feed_forward.output(normed::<A>(x, inner));
        group_norm_sequence_spec::<A>(
            rejoined::<A>(x, forwarded, self.gamma2@),
            outer.weight@,
            outer.bias@,
            norm_eps::<A>(),
        )
    }

    /// Whether a sequence of this shape can go through, with an attended
    /// branch of shape `branch`.
    fn takes(
        &self,
        shape: &[usize],
        branch: &[usize],
        inner: &Affine<A>,
        outer: &Affine<A>,
    ) -> (can: bool)
        requires
            addressable(shape@),
            addressable(branch@),
        ensures
            can == self.admits(shape@, branch@, *inner, *outer),
    {
        if !can_rejoin(shape, branch, self.gamma1.len()) || !can_norm(shape, inner) {
            return false;
        }
        match self.feed_forward.shape_of(shape) {
            Some(out) => can_rejoin(shape, out.as_slice(), self.gamma2.len())
                && can_sequence_norm(shape, outer.weight.len(), outer.bias.len()),
            None => false,
        }
    }

    fn load(weights: &Weights, prefix: &str) -> (out: Result<Self, LoadError>)
        requires
            lawful::<A>(),
            weights.wf(),
            readable(weights@, Self::needs(prefix@)),
        ensures
            match out {
                Ok(module) => met(weights@, Self::needs(prefix@)) && module.is_from(
                    weights@,
                    prefix@,
                ),
                Err(error) => unmet(weights@, Self::needs(prefix@), error.message@),
            },
    {
        let name1 = joined(prefix, ".gamma_1.scale");
        let name2 = joined(prefix, ".gamma_2.scale");
        proof {
            let a = FeedForward::<A>::needs(prefix@);
            let b = seq![weight_need(name1@)];
            let c = seq![weight_need(name2@)];
            lemma_needs(weights@, a, b);
            lemma_needs(weights@, a + b, c);
        }
        let feed_forward = match FeedForward::<A>::load(weights, prefix) {
            Ok(module) => module,
            Err(error) => return Err(error),
        };
        let gamma1 = match load::<A>(weights, name1.as_str()) {
            Ok(values) => values,
            Err(error) => return Err(error),
        };
        let gamma2 = match load::<A>(weights, name2.as_str()) {
            Ok(values) => values,
            Err(error) => return Err(error),
        };
        Ok(Tail { feed_forward, gamma1, gamma2 })
    }

    fn forward(
        &self,
        x: &Tensor<A::Real>,
        branch: &Tensor<A::Real>,
        inner: &Affine<A>,
        outer: &Affine<A>,
    ) -> (out: Tensor<A::Real>)
        requires
            lawful::<A>(),
            x.wf(),
            branch.wf(),
            self.admits(x@.shape, branch@.shape, *inner, *outer),
        ensures
            out@ == self.output(x@, branch@, *inner, *outer),
            out@.shape == x@.shape,
            out.wf(),
    {
        let x = rejoin::<A>(x, branch, self.gamma1.as_slice());
        let inside = norm::<A>(&x, inner);
        let forwarded = self.feed_forward.forward(&inside);
        let x = rejoin::<A>(&x, &forwarded, self.gamma2.as_slice());
        group_norm_sequence::<A>(
            &x,
            outer.weight.as_slice(),
            outer.bias.as_slice(),
            A::literal(1, 100_000),
        )
    }
}

/// A layer that attends to its own branch.
pub struct ClassicLayer<A: Arithmetic> {
    pub norm1: Affine<A>,
    pub norm2: Affine<A>,
    pub norm_out: Affine<A>,
    pub attention: AttentionWeights<A>,
    pub tail: Tail<A>,
}

impl<A: Arithmetic> ClassicLayer<A> {
    /// What the layer of this prefix asks for.
    pub open spec fn needs(prefix: Seq<char>) -> Seq<Need> {
        Tail::<A>::needs(prefix) + Affine::<A>::needs(prefix + ".norm1"@) + Affine::<A>::needs(
            prefix + ".norm2"@,
        ) + Affine::<A>::needs(prefix + ".norm_out"@) + AttentionWeights::<A>::needs(
            prefix + ".self_attn"@,
        )
    }

    /// Whether this is the layer of this prefix.
    pub open spec fn is_from(self, store: Store, prefix: Seq<char>) -> bool {
        &&& self.norm1.is_from(store, prefix + ".norm1"@)
        &&& self.norm2.is_from(store, prefix + ".norm2"@)
        &&& self.norm_out.is_from(store, prefix + ".norm_out"@)
        &&& self.attention.is_from(store, prefix + ".self_attn"@)
        &&& self.tail.is_from(store, prefix)
    }

    /// Whether the layer can be computed on a sequence of this shape.
    pub open spec fn admits(self, shape: Seq<usize>, heads: usize) -> bool {
        &&& norms::<A>(shape, self.norm1)
        &&& self.attention.admits(shape, shape, heads)
        &&& self.tail.admits(
            shape,
            self.attention.out_shape(shape),
            self.norm2,
            self.norm_out,
        )
    }

    /// The layer's output.
    pub open spec fn output(self, x: Grid<A::Real>, heads: usize) -> Grid<A::Real> {
        let inside = normed::<A>(x, self.norm1);
        self.tail.output(
            x,
            self.attention.output(inside, inside, inside, heads),
            self.norm2,
            self.norm_out,
        )
    }

    fn takes(&self, shape: &[usize], heads: usize) -> (can: bool)
        requires
            addressable(shape@),
        ensures
            can == self.admits(shape@, heads),
    {
        if !can_norm(shape, &self.norm1) {
            return false;
        }
        match self.attention.shape_of(shape, shape, heads) {
            Some(out) => self.tail.takes(shape, out.as_slice(), &self.norm2, &self.norm_out),
            None => false,
        }
    }

    fn load(weights: &Weights, prefix: &str) -> (out: Result<Self, LoadError>)
        requires
            lawful::<A>(),
            weights.wf(),
            readable(weights@, Self::needs(prefix@)),
        ensures
            match out {
                Ok(layer) => met(weights@, Self::needs(prefix@)) && layer.is_from(
                    weights@,
                    prefix@,
                ),
                Err(error) => unmet(weights@, Self::needs(prefix@), error.message@),
            },
    {
        let name1 = joined(prefix, ".norm1");
        let name2 = joined(prefix, ".norm2");
        let name_out = joined(prefix, ".norm_out");
        let name_attention = joined(prefix, ".self_attn");
        proof {
            let a = Tail::<A>::needs(prefix@);
            let b = Affine::<A>::needs(name1@);
            let c = Affine::<A>::needs(name2@);
            let d = Affine::<A>::needs(name_out@);
            let e = AttentionWeights::<A>::needs(name_attention@);
            lemma_needs(weights@, a, b);
            lemma_needs(weights@, a + b, c);
            lemma_needs(weights@, a + b + c, d);
            lemma_needs(weights@, a + b + c + d, e);
        }
        let tail = match Tail::<A>::load(weights, prefix) {
            Ok(module) => module,
            Err(error) => return Err(error),
        };
        let norm1 = match Affine::<A>::load(weights, name1.as_str()) {
            Ok(module) => module,
            Err(error) => return Err(error),
        };
        let norm2 = match Affine::<A>::load(weights, name2.as_str()) {
            Ok(module) => module,
            Err(error) => return Err(error),
        };
        let norm_out = match Affine::<A>::load(weights, name_out.as_str()) {
            Ok(module) => module,
            Err(error) => return Err(error),
        };
        let attention = match AttentionWeights::<A>::load(weights, name_attention.as_str()) {
            Ok(module) => module,
            Err(error) => return Err(error),
        };
        Ok(ClassicLayer { norm1, norm2, norm_out, attention, tail })
    }

    fn forward(&self, x: &Tensor<A::Real>, heads: usize) -> (out: Tensor<A::Real>)
        requires
            lawful::<A>(),
            x.wf(),
            self.admits(x@.shape, heads),
        ensures
            out@ == self.output(x@, heads),
            out@.shape == x@.shape,
            out.wf(),
    {
        let inside = norm::<A>(x, &self.norm1);
        let attended = self.attention.attend(&inside, &inside, &inside, heads);
        self.tail.forward(x, &attended, &self.norm2, &self.norm_out)
    }
}

/// A layer that attends to the other branch.
pub struct CrossLayer<A: Arithmetic> {
    pub norm1: Affine<A>,
    pub norm2: Affine<A>,
    pub norm3: Affine<A>,
    pub norm_out: Affine<A>,
    pub attention: AttentionWeights<A>,
    pub tail: Tail<A>,
}

impl<A: Arithmetic> CrossLayer<A> {
    /// What the layer of this prefix asks for.
    pub open spec fn needs(prefix: Seq<char>) -> Seq<Need> {
        Tail::<A>::needs(prefix) + Affine::<A>::needs(prefix + ".norm1"@) + Affine::<A>::needs(
            prefix + ".norm2"@,
        ) + Affine::<A>::needs(prefix + ".norm3"@) + Affine::<A>::needs(prefix + ".norm_out"@)
            + AttentionWeights::<A>::needs(prefix + ".cross_attn"@)
    }

    /// Whether this is the layer of this prefix.
    pub open spec fn is_from(self, store: Store, prefix: Seq<char>) -> bool {
        &&& self.norm1.is_from(store, prefix + ".norm1"@)
        &&& self.norm2.is_from(store, prefix + ".norm2"@)
        &&& self.norm3.is_from(store, prefix + ".norm3"@)
        &&& self.norm_out.is_from(store, prefix + ".norm_out"@)
        &&& self.attention.is_from(store, prefix + ".cross_attn"@)
        &&& self.tail.is_from(store, prefix)
    }

    /// Whether the layer can be computed on sequences of these shapes.
    pub open spec fn admits(self, q: Seq<usize>, k: Seq<usize>, heads: usize) -> bool {
        &&& norms::<A>(q, self.norm1)
        &&& norms::<A>(k, self.norm2)
        &&& self.attention.admits(q, k, heads)
        &&& self.tail.admits(q, self.attention.out_shape(q), self.norm3, self.norm_out)
    }

    /// The layer's output.
    pub open spec fn output(self, q: Grid<A::Real>, k: Grid<A::Real>, heads: usize) -> Grid<
        A::Real,
    > {
        let query = normed::<A>(q, self.norm1);
        let key = normed::<A>(k, self.norm2);
        self.tail.output(
            q,
            self.attention.output(query, key, key, heads),
            self.norm3,
            self.norm_out,
        )
    }

    fn takes(&self, q: &[usize], k: &[usize], heads: usize) -> (can: bool)
        requires
            addressable(q@),
        ensures
            can == self.admits(q@, k@, heads),
    {
        if !can_norm(q, &self.norm1) || !can_norm(k, &self.norm2) {
            return false;
        }
        match self.attention.shape_of(q, k, heads) {
            Some(out) => self.tail.takes(q, out.as_slice(), &self.norm3, &self.norm_out),
            None => false,
        }
    }

    fn load(weights: &Weights, prefix: &str) -> (out: Result<Self, LoadError>)
        requires
            lawful::<A>(),
            weights.wf(),
            readable(weights@, Self::needs(prefix@)),
        ensures
            match out {
                Ok(layer) => met(weights@, Self::needs(prefix@)) && layer.is_from(
                    weights@,
                    prefix@,
                ),
                Err(error) => unmet(weights@, Self::needs(prefix@), error.message@),
            },
    {
        let name1 = joined(prefix, ".norm1");
        let name2 = joined(prefix, ".norm2");
        let name3 = joined(prefix, ".norm3");
        let name_out = joined(prefix, ".norm_out");
        let name_attention = joined(prefix, ".cross_attn");
        proof {
            let a = Tail::<A>::needs(prefix@);
            let b = Affine::<A>::needs(name1@);
            let c = Affine::<A>::needs(name2@);
            let d = Affine::<A>::needs(name3@);
            let e = Affine::<A>::needs(name_out@);
            let f = AttentionWeights::<A>::needs(name_attention@);
            lemma_needs(weights@, a, b);
            lemma_needs(weights@, a + b, c);
            lemma_needs(weights@, a + b + c, d);
            lemma_needs(weights@, a + b + c + d, e);
            lemma_needs(weights@, a + b + c + d + e, f);
        }
        let tail = match Tail::<A>::load(weights, prefix) {
            Ok(module) => module,
            Err(error) => return Err(error),
        };
        let norm1 = match Affine::<A>::load(weights, name1.as_str()) {
            Ok(module) => module,
            Err(error) => return Err(error),
        };
        let norm2 = match Affine::<A>::load(weights, name2.as_str()) {
            Ok(module) => module,
            Err(error) => return Err(error),
        };
        let norm3 = match Affine::<A>::load(weights, name3.as_str()) {
            Ok(module) => module,
            Err(error) => return Err(error),
        };
        let norm_out = match Affine::<A>::load(weights, name_out.as_str()) {
            Ok(module) => module,
            Err(error) => return Err(error),
        };
        let attention = match AttentionWeights::<A>::load(weights, name_attention.as_str()) {
            Ok(module) => module,
            Err(error) => return Err(error),
        };
        Ok(CrossLayer { norm1, norm2, norm3, norm_out, attention, tail })
    }

    fn forward(&self, q: &Tensor<A::Real>, k: &Tensor<A::Real>, heads: usize) -> (out: Tensor<
        A::Real,
    >)
        requires
            lawful::<A>(),
            q.wf(),
            k.wf(),
            self.admits(q@.shape, k@.shape, heads),
        ensures
            out@ == self.output(q@, k@, heads),
            out@.shape == q@.shape,
            out.wf(),
    {
        let query = norm::<A>(q, &self.norm1);
        let key = norm::<A>(k, &self.norm2);
        let attended = self.attention.attend(&query, &key, &key, heads);
        self.tail.forward(q, &attended, &self.norm3, &self.norm_out)
    }
}

/// A layer of one branch.
pub enum Layer<A: Arithmetic> {
    Classic(ClassicLayer<A>),
    Cross(CrossLayer<A>),
}

impl<A: Arithmetic> Layer<A> {
    /// What the layer of this prefix asks for.
    pub open spec fn needs(prefix: Seq<char>, classic: bool) -> Seq<Need> {
        if classic {
            ClassicLayer::<A>::needs(prefix)
        } else {
            CrossLayer::<A>::needs(prefix)
        }
    }

    /// Whether this is the layer of this prefix.
    pub open spec fn is_from(self, store: Store, prefix: Seq<char>, classic: bool) -> bool {
        match self {
            Layer::Classic(layer) => classic && layer.is_from(store, prefix),
            Layer::Cross(layer) => !classic && layer.is_from(store, prefix),
        }
    }

    /// Whether the layer can be computed on a sequence of this shape. A layer
    /// that attends across needs the other branch.
    pub open spec fn admits(
        self,
        shape: Seq<usize>,
        other: Option<Seq<usize>>,
        heads: usize,
    ) -> bool {
        match self {
            Layer::Classic(layer) => layer.admits(shape, heads),
            Layer::Cross(layer) => other matches Some(other) && layer.admits(
                shape,
                other,
                heads,
            ),
        }
    }

    /// The layer's output, given the other branch where there is one.
    pub open spec fn output(
        self,
        x: Grid<A::Real>,
        other: Option<Grid<A::Real>>,
        heads: usize,
    ) -> Grid<A::Real> {
        match self {
            Layer::Classic(layer) => layer.output(x, heads),
            Layer::Cross(layer) => layer.output(x, other->0, heads),
        }
    }

    /// Whether the layer can be computed on a sequence of this shape, given
    /// the shape of the other branch where there is one.
    pub fn takes(&self, shape: &[usize], other: Option<&[usize]>, heads: usize) -> (can: bool)
        requires
            addressable(shape@),
        ensures
            can == self.admits(
                shape@,
                match other {
                    Some(other) => Some(other@),
                    None => None,
                },
                heads,
            ),
    {
        match self {
            Layer::Classic(layer) => layer.takes(shape, heads),
            Layer::Cross(layer) => match other {
                Some(other) => layer.takes(shape, other, heads),
                None => false,
            },
        }
    }

    /// Loads a layer.
    pub fn load(weights: &Weights, prefix: &str, classic: bool) -> (out: Result<Self, LoadError>)
        requires
            lawful::<A>(),
            weights.wf(),
            readable(weights@, Self::needs(prefix@, classic)),
        ensures
            match out {
                Ok(layer) => met(weights@, Self::needs(prefix@, classic)) && layer.is_from(
                    weights@,
                    prefix@,
                    classic,
                ),
                Err(error) => unmet(weights@, Self::needs(prefix@, classic), error.message@),
            },
    {
        if classic {
            match ClassicLayer::<A>::load(weights, prefix) {
                Ok(layer) => Ok(Layer::Classic(layer)),
                Err(error) => Err(error),
            }
        } else {
            match CrossLayer::<A>::load(weights, prefix) {
                Ok(layer) => Ok(Layer::Cross(layer)),
                Err(error) => Err(error),
            }
        }
    }

    /// Runs the layer, given the other branch where there is one.
    pub fn forward(
        &self,
        x: &Tensor<A::Real>,
        other: Option<&Tensor<A::Real>>,
        heads: usize,
    ) -> (out: Tensor<A::Real>)
        requires
            lawful::<A>(),
            x.wf(),
            other matches Some(other) ==> other.wf(),
            self.admits(
                x@.shape,
                match other {
                    Some(other) => Some(other@.shape),
                    None => None,
                },
                heads,
            ),
        ensures
            out@ == self.output(
                x@,
                match other {
                    Some(other) => Some(other@),
                    None => None,
                },
                heads,
            ),
            out@.shape == x@.shape,
            out.wf(),
    {
        match self {
            Layer::Classic(layer) => layer.forward(x, heads),
            Layer::Cross(layer) => match other {
                Some(other) => layer.forward(x, other, heads),
                None => x.clone(),
            },
        }
    }
}

} // verus!
