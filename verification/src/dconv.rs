//! The dilated residual branch.
//!
//! Dilated convolutions with a normalisation and a GLU, each scaled and added
//! to its input. It runs on `[N, C, T]`; the frequency branch flattens its
//! frequency axis into the batch before calling it.

use vstd::arithmetic::power2::pow2;
use vstd::bits::{lemma_usize_pow2_no_overflow, lemma_usize_shl_is_mul};
use vstd::prelude::*;

use crate::arithmetic::{lawful, Arithmetic};
use crate::conv::{
    conv1d, convolution1, convolution1_of, convolution1_shape, convolves1, line, Window,
};
use crate::ops::{
    can_group_norm, gelu, gelu_spec, glu, glu_spec, group_norm, group_norm_spec, group_norms,
    layer_scale, layer_scale_spec, sum, sum_spec,
};
use crate::parameters::{lemma_needs, load, met, parameter, readable, unmet, weight_need};
use crate::parameters::{Affine, LoadError, Need};
use crate::tensor::{same_shape, Grid, Tensor};
use crate::text::{decimal, joined, numbered};
use crate::weights::{Store, Weights};

verus! {

/// What keeps a variance from zero.
pub open spec fn norm_eps<A: Arithmetic>() -> A::Real {
    A::literal_spec(1, 100_000)
}

/// One dilated layer of the branch.
pub struct DConvLayer<A: Arithmetic> {
    pub conv1: Affine<A>,
    pub norm1: Affine<A>,
    pub conv2: Affine<A>,
    pub norm2: Affine<A>,
    pub scale: Vec<A::Real>,
    pub dilation: usize,
    pub hidden: usize,
    pub channels: usize,
}

impl<A: Arithmetic> DConvLayer<A> {
    /// What the layer of this prefix asks for.
    pub open spec fn needs(base: Seq<char>) -> Seq<Need> {
        Affine::<A>::needs(base + ".0"@) + Affine::<A>::needs(base + ".1"@) + Affine::<A>::needs(
            base + ".3"@,
        ) + Affine::<A>::needs(base + ".4"@) + seq![weight_need(base + ".6.scale"@)]
    }

    /// Whether this is the layer of this prefix, at this place in a branch of
    /// so many channels.
    pub open spec fn is_from(
        self,
        store: Store,
        base: Seq<char>,
        channels: usize,
        compress: usize,
        index: nat,
    ) -> bool {
        &&& self.conv1.is_from(store, base + ".0"@)
        &&& self.norm1.is_from(store, base + ".1"@)
        &&& self.conv2.is_from(store, base + ".3"@)
        &&& self.norm2.is_from(store, base + ".4"@)
        &&& self.scale@ == parameter::<A>(store, base + ".6.scale"@)
        &&& self.dilation == pow2(index)
        &&& self.hidden == channels / compress
        &&& self.channels == channels
    }

    /// The shape after the dilated convolution.
    pub open spec fn hidden_shape(self, shape: Seq<usize>) -> Seq<usize> {
        convolution1_shape(shape, self.hidden, line(3, 1, self.dilation, self.dilation))
    }

    /// The shape after the second convolution, before the GLU halves it.
    pub open spec fn gated_shape(self, shape: Seq<usize>) -> Seq<usize> {
        convolution1_shape(
            self.hidden_shape(shape),
            (2 * self.channels) as usize,
            line(1, 1, 0, 1),
        )
    }

    /// Whether the layer can be computed on a tensor of this shape, and gives
    /// one of the same shape.
    pub open spec fn admits(self, shape: Seq<usize>) -> bool {
        let hidden = self.hidden_shape(shape);
        let gated = self.gated_shape(shape);
        &&& convolves1(
            shape,
            self.conv1.weight@.len(),
            self.conv1.bias@.len(),
            self.hidden,
            line(3, 1, self.dilation, self.dilation),
        )
        &&& group_norms(hidden, 1, self.norm1.weight@.len(), self.norm1.bias@.len())
        &&& 2 * self.channels <= usize::MAX
        &&& convolves1(
            hidden,
            self.conv2.weight@.len(),
            self.conv2.bias@.len(),
            (2 * self.channels) as usize,
            line(1, 1, 0, 1),
        )
        &&& group_norms(gated, 1, self.norm2.weight@.len(), self.norm2.bias@.len())
        &&& self.scale@.len() == self.channels
        &&& gated.update(1, self.channels) == shape
    }

    /// The layer's output, before it is added to the input: convolve, norm,
    /// GELU, convolve, norm, GLU, scale.
    pub open spec fn output(self, x: Grid<A::Real>) -> Grid<A::Real> {
        let y = convolution1::<A>(
            x,
            self.conv1.weight@,
            self.conv1.bias@,
            self.hidden,
            line(3, 1, self.dilation, self.dilation),
        );
        let y = group_norm_spec::<A>(
            y,
            1,
            self.norm1.weight@,
            self.norm1.bias@,
            norm_eps::<A>(),
        );
        let y = convolution1::<A>(
            gelu_spec::<A>(y),
            self.conv2.weight@,
            self.conv2.bias@,
            (2 * self.channels) as usize,
            line(1, 1, 0, 1),
        );
        let y = group_norm_spec::<A>(
            y,
            1,
            self.norm2.weight@,
            self.norm2.bias@,
            norm_eps::<A>(),
        );
        layer_scale_spec::<A>(glu_spec::<A>(y), self.scale@)
    }

    /// Whether the layer can be computed on a tensor of this shape.
    fn takes(&self, shape: &[usize]) -> (can: bool)
        ensures
            can == self.admits(shape@),
    {
        let window = Window {
            kernel: (1, 3),
            stride: (1, 1),
            pad: (0, self.dilation),
            dilation: (1, self.dilation),
        };
        let hidden = match convolution1_of(
            shape,
            self.conv1.weight.len(),
            self.conv1.bias.len(),
            self.hidden,
            window,
        ) {
            Some(hidden) => hidden,
            None => return false,
        };
        if !can_group_norm(
            hidden.as_slice(),
            1,
            self.norm1.weight.len(),
            self.norm1.bias.len(),
        ) || self.channels > usize::MAX / 2 {
            return false;
        }
        let point = Window { kernel: (1, 1), stride: (1, 1), pad: (0, 0), dilation: (1, 1) };
        let gated = match convolution1_of(
            hidden.as_slice(),
            self.conv2.weight.len(),
            self.conv2.bias.len(),
            2 * self.channels,
            point,
        ) {
            Some(gated) => gated,
            None => return false,
        };
        if !can_group_norm(
            gated.as_slice(),
            1,
            self.norm2.weight.len(),
            self.norm2.bias.len(),
        ) || self.scale.len() != self.channels {
            return false;
        }
        let mut out = gated;
        out.set(1, self.channels);
        same_shape(out.as_slice(), shape)
    }

    fn load(weights: &Weights, base: &str, channels: usize, compress: usize, index: usize) -> (out:
        Result<Self, LoadError>)
        requires
            lawful::<A>(),
            weights.wf(),
            readable(weights@, Self::needs(base@)),
            compress > 0,
            index < usize::BITS,
        ensures
            match out {
                Ok(layer) => met(weights@, Self::needs(base@)) && layer.is_from(
                    weights@,
                    base@,
                    channels,
                    compress,
                    index as nat,
                ),
                Err(error) => unmet(weights@, Self::needs(base@), error.message@),
            },
    {
        let name0 = joined(base, ".0");
        let name1 = joined(base, ".1");
        let name3 = joined(base, ".3");
        let name4 = joined(base, ".4");
        let name6 = joined(base, ".6.scale");
        proof {
            let a = Affine::<A>::needs(name0@);
            let b = Affine::<A>::needs(name1@);
            let c = Affine::<A>::needs(name3@);
            let d = Affine::<A>::needs(name4@);
            let e = seq![weight_need(name6@)];
            lemma_needs(weights@, a, b);
            lemma_needs(weights@, a + b, c);
            lemma_needs(weights@, a + b + c, d);
            lemma_needs(weights@, a + b + c + d, e);
            lemma_usize_pow2_no_overflow(index as nat);
            lemma_usize_shl_is_mul(1, index);
        }
        let conv1 = match Affine::<A>::load(weights, name0.as_str()) {
            Ok(module) => module,
            Err(error) => return Err(error),
        };
        let norm1 = match Affine::<A>::load(weights, name1.as_str()) {
            Ok(module) => module,
            Err(error) => return Err(error),
        };
        let conv2 = match Affine::<A>::load(weights, name3.as_str()) {
            Ok(module) => module,
            Err(error) => return Err(error),
        };
        let norm2 = match Affine::<A>::load(weights, name4.as_str()) {
            Ok(module) => module,
            Err(error) => return Err(error),
        };
        let scale = match load::<A>(weights, name6.as_str()) {
            Ok(values) => values,
            Err(error) => return Err(error),
        };
        let dilation: usize = 1usize << index;
        Ok(
            DConvLayer {
                conv1,
                norm1,
                conv2,
                norm2,
                scale,
                dilation,
                hidden: channels / compress,
                channels,
            },
        )
    }

    fn forward(&self, x: &Tensor<A::Real>) -> (out: Tensor<A::Real>)
        requires
            lawful::<A>(),
            x.wf(),
            self.admits(x@.shape),
        ensures
            out@ == self.output(x@),
            out@.shape == x@.shape,
            out.wf(),
    {
        let eps = A::literal(1, 100_000);
        // The kernel has three taps, so the padding is the dilation.
        let y = conv1d::<A>(
            x,
            self.conv1.weight.as_slice(),
            self.conv1.bias.as_slice(),
            self.hidden,
            3,
            1,
            self.dilation,
            self.dilation,
        );
        let y = group_norm::<A>(
            &y,
            1,
            self.norm1.weight.as_slice(),
            self.norm1.bias.as_slice(),
            eps,
        );
        let y = gelu::<A>(&y);
        let y = conv1d::<A>(
            &y,
            self.conv2.weight.as_slice(),
            self.conv2.bias.as_slice(),
            2 * self.channels,
            1,
            1,
            0,
            1,
        );
        let y = group_norm::<A>(
            &y,
            1,
            self.norm2.weight.as_slice(),
            self.norm2.bias.as_slice(),
            eps,
        );
        let y = glu::<A>(&y);
        layer_scale::<A>(&y, self.scale.as_slice())
    }
}

/// The residual branch.
pub struct DConv<A: Arithmetic> {
    pub layers: Vec<DConvLayer<A>>,
}

/// The prefix of a layer of the branch.
pub open spec fn layer_name(prefix: Seq<char>, index: nat) -> Seq<char> {
    prefix + ".layers."@ + decimal(index)
}

/// `x` after the first `count` layers, each added to its input.
pub open spec fn residual<A: Arithmetic>(
    layers: Seq<DConvLayer<A>>,
    x: Grid<A::Real>,
    count: int,
) -> Grid<A::Real>
    decreases count,
{
    if count <= 0 {
        x
    } else {
        let before = residual::<A>(layers, x, count - 1);
        sum_spec::<A>(before, layers[count - 1].output(before))
    }
}

impl<A: Arithmetic> DConv<A> {
    /// What the branch of this prefix asks for.
    pub open spec fn needs(prefix: Seq<char>, depth: nat) -> Seq<Need>
        decreases depth,
    {
        if depth == 0 {
            Seq::empty()
        } else {
            Self::needs(prefix, (depth - 1) as nat) + DConvLayer::<A>::needs(
                layer_name(prefix, (depth - 1) as nat),
            )
        }
    }

    /// Whether this is the branch of this prefix.
    pub open spec fn is_from(
        self,
        store: Store,
        prefix: Seq<char>,
        channels: usize,
        compress: usize,
        depth: nat,
    ) -> bool {
        &&& self.layers@.len() == depth
        &&& forall|i: int|
            0 <= i < depth ==> (#[trigger] self.layers@[i]).is_from(
                store,
                layer_name(prefix, i as nat),
                channels,
                compress,
                i as nat,
            )
    }

    /// Whether the branch can be computed on a tensor of this shape.
    pub open spec fn admits(self, shape: Seq<usize>) -> bool {
        forall|i: int| 0 <= i < self.layers@.len() ==> (#[trigger] self.layers@[i]).admits(shape)
    }

    /// The branch's output: every layer added to its input in turn.
    pub open spec fn output(self, x: Grid<A::Real>) -> Grid<A::Real> {
        residual::<A>(self.layers@, x, self.layers@.len() as int)
    }

    /// Whether the branch can be computed on a tensor of this shape.
    pub fn takes(&self, shape: &[usize]) -> (can: bool)
        ensures
            can == self.admits(shape@),
    {
        let mut index: usize = 0;
        while index < self.layers.len()
            invariant
                index <= self.layers@.len(),
                forall|i: int| 0 <= i < index ==> (#[trigger] self.layers@[i]).admits(shape@),
            decreases self.layers@.len() - index,
        {
            if !self.layers[index].takes(shape) {
                return false;
            }
            index = index + 1;
        }
        true
    }

    /// Loads the branch. `prefix` is the module path, e.g. `encoder.0.dconv`.
    pub fn load(weights: &Weights, prefix: &str, channels: usize, compress: usize, depth: usize)
        -> (out: Result<Self, LoadError>)
        requires
            lawful::<A>(),
            weights.wf(),
            readable(weights@, Self::needs(prefix@, depth as nat)),
            compress > 0,
            depth <= usize::BITS,
        ensures
            match out {
                Ok(branch) => met(weights@, Self::needs(prefix@, depth as nat)) && branch.is_from(
                    weights@,
                    prefix@,
                    channels,
                    compress,
                    depth as nat,
                ),
                Err(error) => unmet(
                    weights@,
                    Self::needs(prefix@, depth as nat),
                    error.message@,
                ),
            },
    {
        let mut layers: Vec<DConvLayer<A>> = Vec::with_capacity(depth);
        let mut index: usize = 0;
        while index < depth
            invariant
                lawful::<A>(),
                weights.wf(),
                readable(weights@, Self::needs(prefix@, depth as nat)),
                compress > 0,
                depth <= usize::BITS,
                index <= depth,
                layers@.len() == index,
                met(weights@, Self::needs(prefix@, index as nat)),
                forall|i: int|
                    0 <= i < index ==> (#[trigger] layers@[i]).is_from(
                        weights@,
                        layer_name(prefix@, i as nat),
                        channels,
                        compress,
                        i as nat,
                    ),
            decreases depth - index,
        {
            let base = numbered(joined(prefix, ".layers.").as_str(), index);
            proof {
                lemma_needs(
                    weights@,
                    Self::needs(prefix@, index as nat),
                    DConvLayer::<A>::needs(base@),
                );
                assert(Self::needs(prefix@, (index + 1) as nat) == Self::needs(
                    prefix@,
                    index as nat,
                ) + DConvLayer::<A>::needs(base@));
                Self::lemma_needs_grow(
                    weights@,
                    prefix@,
                    (index + 1) as nat,
                    depth as nat,
                );
            }
            let layer = match DConvLayer::<A>::load(
                weights,
                base.as_str(),
                channels,
                compress,
                index,
            ) {
                Ok(layer) => layer,
                Err(error) => return Err(error),
            };
            layers.push(layer);
            index = index + 1;
        }
        Ok(DConv { layers })
    }

    /// A complaint of the first layers is one of all of them, and they can be
    /// looked up where all of them can.
    proof fn lemma_needs_grow(store: Store, prefix: Seq<char>, count: nat, depth: nat)
        requires
            count <= depth,
        ensures
            forall|complaint: Seq<char>|
                #![trigger unmet(store, Self::needs(prefix, count), complaint)]
                unmet(store, Self::needs(prefix, count), complaint) ==> unmet(
                    store,
                    Self::needs(prefix, depth),
                    complaint,
                ),
            readable(store, Self::needs(prefix, depth)) ==> readable(
                store,
                Self::needs(prefix, count),
            ),
        decreases depth - count,
    {
        if count < depth {
            Self::lemma_needs_grow(store, prefix, (count + 1) as nat, depth);
            lemma_needs(
                store,
                Self::needs(prefix, count),
                DConvLayer::<A>::needs(layer_name(prefix, count)),
            );
            assert(Self::needs(prefix, count + 1) == Self::needs(prefix, count) + DConvLayer::<
                A,
            >::needs(layer_name(prefix, count)));
        }
    }

    /// Runs the branch.
    pub fn forward(&self, x: &Tensor<A::Real>) -> (out: Tensor<A::Real>)
        requires
            lawful::<A>(),
            x.wf(),
            self.admits(x@.shape),
        ensures
            out@ == self.output(x@),
            out@.shape == x@.shape,
            out.wf(),
    {
        let mut current = x.clone();
        let mut index: usize = 0;
        while index < self.layers.len()
            invariant
                lawful::<A>(),
                index <= self.layers@.len(),
                self.admits(x@.shape),
                current.wf(),
                current@.shape == x@.shape,
                current@ == residual::<A>(self.layers@, x@, index as int),
            decreases self.layers@.len() - index,
        {
            let added = self.layers[index].forward(&current);
            current = sum::<A>(&current, &added);
            index = index + 1;
        }
        current
    }
}

} // verus!
