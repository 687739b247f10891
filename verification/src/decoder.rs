//! The decoder layers of both branches.
//!
//! Add the skip, rewrite through a GLU, run the dilated residual branch, then
//! a transposed convolution. The frequency branch crops the frequency axis
//! symmetrically; the time branch crops to the encoder's length. GELU is
//! applied except in the final layer.

use vstd::prelude::*;

use crate::arithmetic::{lawful, Arithmetic};
use crate::conv::{
    conv1d, conv2d, convolution, convolution1, convolution1_of, convolution1_shape, convolution_of,
    convolution_shape, convolves, convolves1, line, Window,
};
use crate::conv_transpose::{
    conv_transpose1d, conv_transpose2d, line_spread, transposes, transposes1, transposition,
    transposition1, transposition1_of, transposition1_shape, transposition_of, transposition_shape,
    Spread,
};
use crate::dconv::DConv;
use crate::encoder::{
    across_frequency, flattened_shape, forward_across_frequency, lemma_flattened,
};
use crate::layout::{
    can_crop_time, crop_frequency, crop_time, cropped_frequency, cropped_time, crops_time,
};
use crate::ops::{gelu, gelu_spec, glu, glu_spec, lemma_halved, sum, sum_spec};
use crate::parameters::{lemma_needs, met, readable, unmet, Affine, LoadError, Need};
use crate::tensor::{addressable, Grid, Tensor};
use crate::text::joined;
use crate::weights::{Store, Weights};

verus! {

/// A decoder layer.
pub struct DecLayer<A: Arithmetic> {
    pub freq: bool,
    pub last: bool,
    pub conv_tr: Affine<A>,
    pub dconv: DConv<A>,
    pub rewrite: Affine<A>,
    pub pad: usize,
}

/// The kernel of the frequency branch's rewrite.
pub open spec fn square_window() -> Window {
    Window { kernel: (3, 3), stride: (1, 1), pad: (1, 1), dilation: (1, 1) }
}

/// The kernel of the frequency branch's transposed convolution.
pub open spec fn frequency_spread() -> Spread {
    Spread { kernel: (8, 1), stride: (4, 1) }
}

/// The rewrite of a tensor: three taps on each axis.
pub open spec fn rewritten<A: Arithmetic>(
    x: Grid<A::Real>,
    rewrite: Affine<A>,
    freq: bool,
) -> Grid<A::Real> {
    let outs = rewrite.bias@.len() as usize;
    if freq {
        convolution::<A>(x, rewrite.weight@, rewrite.bias@, outs, square_window())
    } else {
        convolution1::<A>(x, rewrite.weight@, rewrite.bias@, outs, line(3, 1, 1, 1))
    }
}

/// The shape of a rewrite.
pub open spec fn rewritten_shape(shape: Seq<usize>, outs: usize, freq: bool) -> Seq<usize> {
    if freq {
        convolution_shape(shape, outs, square_window())
    } else {
        convolution1_shape(shape, outs, line(3, 1, 1, 1))
    }
}

/// Whether a tensor of this shape can be rewritten.
pub open spec fn rewrites<A: Arithmetic>(
    shape: Seq<usize>,
    rewrite: Affine<A>,
    freq: bool,
) -> bool {
    let outs = rewrite.bias@.len();
    if freq {
        convolves(shape, rewrite.weight@.len(), outs, outs as usize, square_window())
    } else {
        convolves1(shape, rewrite.weight@.len(), outs, outs as usize, line(3, 1, 1, 1))
    }
}

/// The rewrite convolution.
pub fn conv_rewrite<A: Arithmetic>(x: &Tensor<A::Real>, rewrite: &Affine<A>, freq: bool) -> (out:
    Tensor<A::Real>)
    requires
        lawful::<A>(),
        x.wf(),
        rewrites::<A>(x@.shape, *rewrite, freq),
    ensures
        out@ == rewritten::<A>(x@, *rewrite, freq),
        out.wf(),
{
    let outs = rewrite.bias.len();
    let weight = rewrite.weight.as_slice();
    let bias = rewrite.bias.as_slice();
    if freq {
        conv2d::<A>(x, weight, bias, outs, (3, 3), (1, 1), (1, 1))
    } else {
        conv1d::<A>(x, weight, bias, outs, 3, 1, 1, 1)
    }
}

impl<A: Arithmetic> DecLayer<A> {
    /// What the layer of this prefix asks for.
    pub open spec fn needs(prefix: Seq<char>, depth: nat) -> Seq<Need> {
        Affine::<A>::needs(prefix + ".conv_tr"@) + DConv::<A>::needs(prefix + ".dconv"@, depth)
            + Affine::<A>::needs(prefix + ".rewrite"@)
    }

    /// Whether this is the layer of this prefix.
    pub open spec fn is_from(
        self,
        store: Store,
        prefix: Seq<char>,
        freq: bool,
        last: bool,
        chin: usize,
        compress: usize,
        depth: nat,
    ) -> bool {
        &&& self.freq == freq
        &&& self.last == last
        &&& self.conv_tr.is_from(store, prefix + ".conv_tr"@)
        &&& self.dconv.is_from(store, prefix + ".dconv"@, chin, compress, depth)
        &&& self.rewrite.is_from(store, prefix + ".rewrite"@)
        &&& self.pad == 2
    }

    /// How many channels the layer gives.
    pub open spec fn channels(self) -> usize {
        self.conv_tr.bias@.len() as usize
    }

    /// The shape after the GLU.
    pub open spec fn gated_shape(self, shape: Seq<usize>) -> Seq<usize> {
        let outs = self.rewrite.bias@.len() as usize;
        rewritten_shape(shape, outs, self.freq).update(1, outs / 2)
    }

    /// Whether the layer can be computed on an input and a skip of this shape,
    /// cropped to this length.
    #[verifier::opaque]
    pub open spec fn admits(self, shape: Seq<usize>, length: usize) -> bool {
        let gated = self.gated_shape(shape);
        let weights = self.conv_tr.weight@.len();
        let biases = self.conv_tr.bias@.len();
        &&& rewrites::<A>(shape, self.rewrite, self.freq)
        &&& if self.freq {
            let spread = transposition_shape(gated, self.channels(), frequency_spread());
            &&& self.dconv.admits(flattened_shape(gated))
            &&& transposes(gated, weights, biases, self.channels(), frequency_spread())
            &&& 2 * self.pad <= spread[2]
        } else {
            let spread = transposition1_shape(gated, self.channels(), line_spread(8, 4));
            &&& self.dconv.admits(gated)
            &&& transposes1(gated, weights, biases, self.channels(), line_spread(8, 4))
            &&& crops_time(spread, self.pad, length)
        }
    }

    /// The shape that the layer gives.
    #[verifier::opaque]
    pub open spec fn out_shape(self, shape: Seq<usize>, length: usize) -> Seq<usize> {
        let gated = self.gated_shape(shape);
        if self.freq {
            let spread = transposition_shape(gated, self.channels(), frequency_spread());
            spread.update(2, (spread[2] - 2 * self.pad) as usize)
        } else {
            transposition1_shape(gated, self.channels(), line_spread(8, 4)).update(2, length)
        }
    }

    /// A layer keeps the batch axis.
    pub proof fn lemma_shapes(self, shape: Seq<usize>, length: usize)
        ensures
            self.out_shape(shape, length).len() >= 3,
            self.out_shape(shape, length)[0] == shape[0],
    {
        reveal(DecLayer::out_shape);
    }

    /// The layer's output before the last activation.
    pub open spec fn raw_output(
        self,
        x: Grid<A::Real>,
        skip: Grid<A::Real>,
        length: usize,
    ) -> Grid<A::Real> {
        let y = glu_spec::<A>(rewritten::<A>(sum_spec::<A>(x, skip), self.rewrite, self.freq));
        let weight = self.conv_tr.weight@;
        let bias = self.conv_tr.bias@;
        if self.freq {
            let y = across_frequency::<A>(self.dconv, y);
            cropped_frequency(
                transposition::<A>(y, weight, bias, self.channels(), frequency_spread()),
                self.pad,
            )
        } else {
            let y = self.dconv.output(y);
            cropped_time(
                transposition1::<A>(y, weight, bias, self.channels(), line_spread(8, 4)),
                self.pad,
                length,
            )
        }
    }

    /// The layer's output.
    #[verifier::opaque]
    pub open spec fn output(
        self,
        x: Grid<A::Real>,
        skip: Grid<A::Real>,
        length: usize,
    ) -> Grid<A::Real> {
        let z = self.raw_output(x, skip, length);
        if self.last {
            z
        } else {
            gelu_spec::<A>(z)
        }
    }

    /// The shape that the layer gives, where it can be computed.
    pub fn shape_of(&self, shape: &[usize], length: usize) -> (out: Option<Vec<usize>>)
        ensures
            match out {
                Some(out) => self.admits(shape@, length) && out@ == self.out_shape(
                    shape@,
                    length,
                ),
                None => !self.admits(shape@, length),
            },
    {
        proof {
            reveal(DecLayer::admits);
            reveal(DecLayer::out_shape);
        }
        let outs = self.rewrite.bias.len();
        let weights = self.rewrite.weight.len();
        let rewritten = if self.freq {
            let window = Window { kernel: (3, 3), stride: (1, 1), pad: (1, 1), dilation: (1, 1) };
            convolution_of(shape, weights, outs, outs, window)
        } else {
            let window = Window { kernel: (1, 3), stride: (1, 1), pad: (0, 1), dilation: (1, 1) };
            convolution1_of(shape, weights, outs, outs, window)
        };
        let mut gated = match rewritten {
            Some(rewritten) => rewritten,
            None => return None,
        };
        proof {
            if self.freq {
                lemma_halved(gated@);
            }
        }
        gated.set(1, outs / 2);
        proof {
            assert(gated@ =~= self.gated_shape(shape@));
        }
        if self.freq {
            self.freq_shape_of(gated, Ghost(shape@), length)
        } else {
            self.time_shape_of(gated, Ghost(shape@), length)
        }
    }

    fn freq_shape_of(&self, gated: Vec<usize>, shape: Ghost<Seq<usize>>, length: usize) -> (out:
        Option<Vec<usize>>)
        requires
            self.freq,
            rewrites::<A>(shape@, self.rewrite, self.freq),
            gated@ == self.gated_shape(shape@),
            addressable(gated@),
        ensures
            match out {
                Some(out) => self.admits(shape@, length) && out@ == self.out_shape(
                    shape@,
                    length,
                ),
                None => !self.admits(shape@, length),
            },
    {
        proof {
            reveal(DecLayer::admits);
            reveal(DecLayer::out_shape);
            lemma_flattened(gated@);
        }
        let flattened = vec![gated[0] * gated[2], gated[1], gated[3]];
        proof {
            assert(flattened@ =~= flattened_shape(gated@));
        }
        if !self.dconv.takes(flattened.as_slice()) {
            return None;
        }
        let outs = self.conv_tr.bias.len();
        let spread = Spread { kernel: (8, 1), stride: (4, 1) };
        match transposition_of(
            gated.as_slice(),
            self.conv_tr.weight.len(),
            outs,
            outs,
            spread,
        ) {
            Some(spread) => {
                if self.pad > usize::MAX / 2 || 2 * self.pad > spread[2] {
                    return None;
                }
                let rows = spread[2] - 2 * self.pad;
                let mut out = spread;
                out.set(2, rows);
                Some(out)
            },
            None => None,
        }
    }

    fn time_shape_of(&self, gated: Vec<usize>, shape: Ghost<Seq<usize>>, length: usize) -> (out:
        Option<Vec<usize>>)
        requires
            !self.freq,
            rewrites::<A>(shape@, self.rewrite, self.freq),
            gated@ == self.gated_shape(shape@),
        ensures
            match out {
                Some(out) => self.admits(shape@, length) && out@ == self.out_shape(
                    shape@,
                    length,
                ),
                None => !self.admits(shape@, length),
            },
    {
        proof {
            reveal(DecLayer::admits);
            reveal(DecLayer::out_shape);
        }
        if !self.dconv.takes(gated.as_slice()) {
            return None;
        }
        let outs = self.conv_tr.bias.len();
        let spread = Spread { kernel: (1, 8), stride: (1, 4) };
        match transposition1_of(
            gated.as_slice(),
            self.conv_tr.weight.len(),
            outs,
            outs,
            spread,
        ) {
            Some(spread) => {
                if !can_crop_time(spread.as_slice(), self.pad, length) {
                    return None;
                }
                let mut out = spread;
                out.set(2, length);
                Some(out)
            },
            None => None,
        }
    }

    /// Loads a layer. `prefix` is `decoder.i` or `tdecoder.i`; `chin` is the
    /// number of input channels.
    pub fn load(
        weights: &Weights,
        prefix: &str,
        freq: bool,
        last: bool,
        chin: usize,
        compress: usize,
        depth: usize,
    ) -> (out: Result<Self, LoadError>)
        requires
            lawful::<A>(),
            weights.wf(),
            readable(weights@, Self::needs(prefix@, depth as nat)),
            compress > 0,
            depth <= usize::BITS,
        ensures
            match out {
                Ok(layer) => met(weights@, Self::needs(prefix@, depth as nat)) && layer.is_from(
                    weights@,
                    prefix@,
                    freq,
                    last,
                    chin,
                    compress,
                    depth as nat,
                ),
                Err(error) => unmet(
                    weights@,
                    Self::needs(prefix@, depth as nat),
                    error.message@,
                ),
            },
    {
        let conv_name = joined(prefix, ".conv_tr");
        let dconv_name = joined(prefix, ".dconv");
        let rewrite_name = joined(prefix, ".rewrite");
        proof {
            let a = Affine::<A>::needs(conv_name@);
            let b = DConv::<A>::needs(dconv_name@, depth as nat);
            let c = Affine::<A>::needs(rewrite_name@);
            lemma_needs(weights@, a, b);
            lemma_needs(weights@, a + b, c);
        }
        let conv_tr = match Affine::<A>::load(weights, conv_name.as_str()) {
            Ok(module) => module,
            Err(error) => return Err(error),
        };
        let dconv = match DConv::<A>::load(weights, dconv_name.as_str(), chin, compress, depth) {
            Ok(module) => module,
            Err(error) => return Err(error),
        };
        let rewrite = match Affine::<A>::load(weights, rewrite_name.as_str()) {
            Ok(module) => module,
            Err(error) => return Err(error),
        };
        Ok(DecLayer { freq, last, conv_tr, dconv, rewrite, pad: 2 })
    }

    /// Runs the layer. `x` is its input, `skip` the matching encoder's output.
    /// `length` is the time branch's target; the frequency branch ignores it.
    pub fn forward(&self, x: &Tensor<A::Real>, skip: &Tensor<A::Real>, length: usize) -> (out:
        Tensor<A::Real>)
        requires
            lawful::<A>(),
            x.wf(),
            skip.wf(),
            x@.shape == skip@.shape,
            self.admits(x@.shape, length),
        ensures
            out@ == self.output(x@, skip@, length),
            out@.shape == self.out_shape(x@.shape, length),
            out.wf(),
    {
        proof {
            reveal(DecLayer::admits);
            reveal(DecLayer::out_shape);
            reveal(DecLayer::output);
        }
        let x = sum::<A>(x, skip);
        let y = glu::<A>(&conv_rewrite::<A>(&x, &self.rewrite, self.freq));
        let outs = self.conv_tr.bias.len();
        let weight = self.conv_tr.weight.as_slice();
        let bias = self.conv_tr.bias.as_slice();
        let z = if self.freq {
            let y = forward_across_frequency::<A>(&self.dconv, &y);
            let z = conv_transpose2d::<A>(&y, weight, bias, outs, (8, 1), (4, 1));
            crop_frequency(&z, self.pad)
        } else {
            let y = self.dconv.forward(&y);
            let z = conv_transpose1d::<A>(&y, weight, bias, outs, 8, 4);
            crop_time(&z, self.pad, length)
        };
        proof {
            assert(z@.shape =~= self.out_shape(x@.shape, length));
        }
        if self.last {
            z
        } else {
            gelu::<A>(&z)
        }
    }
}

/// The frequency branch ignores the length that the time branch is cropped to.
pub proof fn law_frequency_layers_ignore_the_length<A: Arithmetic>(
    layer: DecLayer<A>,
    x: Grid<A::Real>,
    skip: Grid<A::Real>,
    length: usize,
    other: usize,
)
    requires
        layer.freq,
    ensures
        layer.output(x, skip, length) == layer.output(x, skip, other),
        layer.admits(x.shape, length) == layer.admits(x.shape, other),
{
    reveal(DecLayer::admits);
    reveal(DecLayer::output);
}

} // verus!
