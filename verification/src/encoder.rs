//! The encoder layers of both branches.
//!
//! The frequency branch is `[B, C, Fr, T]` and convolves with a `(8, 1)`
//! kernel; the time branch is `[B, C, T]` and convolves over time. A layer is
//! a strided convolution, GELU, the dilated residual branch and a gated
//! rewrite.

use vstd::prelude::*;

use crate::arithmetic::{lawful, Arithmetic};
use crate::conv::{
    conv1d, conv2d, convolution, convolution1, convolution1_of, convolution1_shape, convolution_of,
    convolution_shape, convolves, convolves1, lemma_lowered, line, raised, reach, Window,
};
use crate::dconv::DConv;
use crate::index::{at4, lemma_extent, lemma_join2, lemma_split3, lemma_split4, table4};
use crate::layout::{pad_time, padded_right, permute_0213, permuted};
use crate::ops::{gelu, gelu_spec, glu, glu_spec, lemma_halved};
use crate::parameters::{
    first_unmet, lemma_needs, load_plain, met, parameter, plain_need, readable, reads, unmet,
};
use crate::parameters::{Affine, LoadError, Need};
use crate::tensor::{
    addressable, at_least_one, is_addressable, lemma_rank3, lemma_rank4, product2, volume, Grid,
    Tensor,
};
use crate::text::joined;
use crate::weights::{Store, Weights};

verus! {

/// `[B, C, Fr, T]` with the frequency axis flattened into the batch.
pub open spec fn flattened_shape(shape: Seq<usize>) -> Seq<usize> {
    seq![(shape[0] * shape[2]) as usize, shape[1], shape[3]]
}

/// The residual branch run on each frequency of `[B, C, Fr, T]`.
pub open spec fn across_frequency<A: Arithmetic>(dconv: DConv<A>, y: Grid<A::Real>) -> Grid<
    A::Real,
> {
    let rows = permuted(y);
    let convolved = dconv.output(rows.reshaped(flattened_shape(y.shape)));
    permuted(convolved.reshaped(rows.shape))
}

/// Flattening keeps a shape's volume, and keeps it addressable.
pub proof fn lemma_flattened(shape: Seq<usize>)
    requires
        shape.len() == 4,
        addressable(shape),
    ensures
        shape[0] * shape[2] <= usize::MAX,
        volume(flattened_shape(shape)) == volume(shape),
        volume(seq![shape[0], shape[2], shape[1], shape[3]]) == volume(shape),
        addressable(flattened_shape(shape)),
{
    lemma_rank4(shape);
    let other = flattened_shape(shape);
    let merged = shape[0] * shape[2];
    lemma_extent(shape[0] as int, shape[2] as int);
    lemma_rank3(other);
    lemma_rank4(seq![shape[0], shape[2], shape[1], shape[3]]);
    let (p, q, r, s) = (shape[0] as int, shape[1] as int, shape[2] as int, shape[3] as int);
    assert(p * r * q == p * q * r) by (nonlinear_arith);
    let (a, b, c, d) = (
        at_least_one(shape[0]),
        at_least_one(shape[1]),
        at_least_one(shape[2]),
        at_least_one(shape[3]),
    );
    let e = at_least_one(merged as usize);
    assert(e <= a * c) by (nonlinear_arith)
        requires
            merged == shape[0] * shape[2],
            shape[0] <= a,
            shape[2] <= c,
            a >= 1,
            c >= 1,
            e == if merged == 0 {
                1int
            } else {
                merged
            },
    ;
    assert(e * b * d <= a * b * c * d) by (nonlinear_arith)
        requires
            e <= a * c,
            0 <= b,
            0 <= d,
    ;
}

/// Runs the residual branch on each frequency of `[B, C, Fr, T]`: frequency is
/// flattened into the batch, and taken out again.
pub fn forward_across_frequency<A: Arithmetic>(dconv: &DConv<A>, y: &Tensor<A::Real>) -> (out:
    Tensor<A::Real>)
    requires
        lawful::<A>(),
        y.wf(),
        y@.shape.len() == 4,
        dconv.admits(flattened_shape(y@.shape)),
    ensures
        out@ == across_frequency::<A>(*dconv, y@),
        out@.shape == y@.shape,
        out.wf(),
{
    let batch = y.shape[0];
    let channels = y.shape[1];
    let frequency = y.shape[2];
    let time = y.shape[3];
    proof {
        lemma_flattened(y@.shape);
    }
    let rows = permute_0213(y);
    let flattened = Tensor { shape: vec![batch * frequency, channels, time], data: rows.data };
    proof {
        assert(flattened@.shape =~= flattened_shape(y@.shape));
        assert(flattened@ =~= permuted(y@).reshaped(flattened_shape(y@.shape)));
    }
    let convolved = dconv.forward(&flattened);
    let restored = Tensor { shape: rows.shape, data: convolved.data };
    proof {
        assert(restored@ =~= convolved@.reshaped(permuted(y@).shape));
    }
    let out = permute_0213(&restored);
    proof {
        assert(out@.shape =~= y@.shape);
    }
    out
}

/// An encoder layer.
pub struct EncLayer<A: Arithmetic> {
    pub freq: bool,
    pub conv: Affine<A>,
    pub dconv: DConv<A>,
    pub rewrite: Affine<A>,
}

/// The kernel of the frequency branch's strided convolution.
pub open spec fn frequency_window() -> Window {
    Window { kernel: (8, 1), stride: (4, 1), pad: (2, 0), dilation: (1, 1) }
}

/// The kernel of the frequency branch's rewrite.
pub open spec fn point_window() -> Window {
    Window { kernel: (1, 1), stride: (1, 1), pad: (0, 0), dilation: (1, 1) }
}

/// What a length lacks to be a multiple of four.
pub open spec fn shortfall(time: usize) -> usize {
    if time % 4 == 0 {
        0
    } else {
        (4 - time % 4) as usize
    }
}

/// `[B, C, T]` with the time axis padded to a multiple of four.
pub open spec fn aligned<A: Arithmetic>(x: Grid<A::Real>) -> Grid<A::Real> {
    if x.shape[2] % 4 == 0 {
        x
    } else {
        padded_right(x, shortfall(x.shape[2]), A::zero_spec())
    }
}

/// The shape of [`aligned`].
pub open spec fn aligned_shape(shape: Seq<usize>) -> Seq<usize> {
    seq![shape[0], shape[1], (shape[2] + shortfall(shape[2])) as usize]
}

impl<A: Arithmetic> EncLayer<A> {
    /// What the layer of this prefix asks for.
    pub open spec fn needs(prefix: Seq<char>, depth: nat) -> Seq<Need> {
        Affine::<A>::needs(prefix + ".conv"@) + DConv::<A>::needs(prefix + ".dconv"@, depth)
            + Affine::<A>::needs(prefix + ".rewrite"@)
    }

    /// Whether this is the layer of this prefix.
    pub open spec fn is_from(
        self,
        store: Store,
        prefix: Seq<char>,
        freq: bool,
        chout: usize,
        compress: usize,
        depth: nat,
    ) -> bool {
        &&& self.freq == freq
        &&& self.conv.is_from(store, prefix + ".conv"@)
        &&& self.dconv.is_from(store, prefix + ".dconv"@, chout, compress, depth)
        &&& self.rewrite.is_from(store, prefix + ".rewrite"@)
    }

    /// How many channels the layer gives.
    pub open spec fn channels(self) -> usize {
        self.conv.bias@.len() as usize
    }

    /// The shape after the strided convolution.
    pub open spec fn strided_shape(self, shape: Seq<usize>) -> Seq<usize> {
        if self.freq {
            convolution_shape(shape, self.channels(), frequency_window())
        } else {
            convolution1_shape(aligned_shape(shape), self.channels(), line(8, 4, 2, 1))
        }
    }

    /// Whether the layer can be computed on a tensor of this shape.
    #[verifier::opaque]
    pub open spec fn admits(self, shape: Seq<usize>) -> bool {
        let strided = self.strided_shape(shape);
        &&& 2 * self.channels() <= usize::MAX
        &&& if self.freq {
            &&& convolves(
                shape,
                self.conv.weight@.len(),
                self.conv.bias@.len(),
                self.channels(),
                frequency_window(),
            )
            &&& self.dconv.admits(flattened_shape(strided))
            &&& convolves(
                strided,
                self.rewrite.weight@.len(),
                self.rewrite.bias@.len(),
                (2 * self.channels()) as usize,
                point_window(),
            )
        } else {
            &&& shape.len() == 3
            &&& shape[2] + shortfall(shape[2]) <= usize::MAX
            &&& addressable(aligned_shape(shape))
            &&& convolves1(
                aligned_shape(shape),
                self.conv.weight@.len(),
                self.conv.bias@.len(),
                self.channels(),
                line(8, 4, 2, 1),
            )
            &&& self.dconv.admits(strided)
            &&& convolves1(
                strided,
                self.rewrite.weight@.len(),
                self.rewrite.bias@.len(),
                (2 * self.channels()) as usize,
                line(1, 1, 0, 1),
            )
        }
    }

    /// The shape that the layer gives.
    #[verifier::opaque]
    pub open spec fn out_shape(self, shape: Seq<usize>) -> Seq<usize> {
        let strided = self.strided_shape(shape);
        let doubled = (2 * self.channels()) as usize;
        if self.freq {
            convolution_shape(strided, doubled, point_window()).update(1, self.channels())
        } else {
            convolution1_shape(strided, doubled, line(1, 1, 0, 1)).update(1, self.channels())
        }
    }

    /// A layer takes three axes or four, and keeps the batch axis.
    pub proof fn lemma_shapes(self, shape: Seq<usize>)
        ensures
            self.admits(shape) ==> shape.len() == if self.freq {
                4int
            } else {
                3int
            },
            self.out_shape(shape).len() >= 3,
            self.out_shape(shape)[0] == shape[0],
    {
        reveal(EncLayer::admits);
        reveal(EncLayer::out_shape);
    }

    /// What a layer gives is addressable.
    pub proof fn lemma_addressable(self, shape: Seq<usize>)
        requires
            self.admits(shape),
        ensures
            addressable(self.out_shape(shape)),
    {
        reveal(EncLayer::admits);
        reveal(EncLayer::out_shape);
        let strided = self.strided_shape(shape);
        let doubled = (2 * self.channels()) as usize;
        if self.freq {
            lemma_halved(convolution_shape(strided, doubled, point_window()));
        } else {
            let window = line(1, 1, 0, 1);
            let raised_out = convolution_shape(raised(strided), doubled, window);
            assert(window.height(1) == 1);
            lemma_lowered(raised_out);
            lemma_halved(convolution1_shape(strided, doubled, window));
        }
    }

    /// The frequency layer's output.
    pub open spec fn freq_output(self, x: Grid<A::Real>) -> Grid<A::Real> {
        let y = convolution::<A>(
            x,
            self.conv.weight@,
            self.conv.bias@,
            self.channels(),
            frequency_window(),
        );
        let y = across_frequency::<A>(self.dconv, gelu_spec::<A>(y));
        glu_spec::<A>(
            convolution::<A>(
                y,
                self.rewrite.weight@,
                self.rewrite.bias@,
                (2 * self.channels()) as usize,
                point_window(),
            ),
        )
    }

    /// The time layer's output.
    pub open spec fn time_output(self, x: Grid<A::Real>) -> Grid<A::Real> {
        let y = convolution1::<A>(
            aligned::<A>(x),
            self.conv.weight@,
            self.conv.bias@,
            self.channels(),
            line(8, 4, 2, 1),
        );
        let y = self.dconv.output(gelu_spec::<A>(y));
        glu_spec::<A>(
            convolution1::<A>(
                y,
                self.rewrite.weight@,
                self.rewrite.bias@,
                (2 * self.channels()) as usize,
                line(1, 1, 0, 1),
            ),
        )
    }

    /// The layer's output.
    #[verifier::opaque]
    pub open spec fn output(self, x: Grid<A::Real>) -> Grid<A::Real> {
        if self.freq {
            self.freq_output(x)
        } else {
            self.time_output(x)
        }
    }

    /// The shape that the layer gives, where it can be computed.
    pub fn shape_of(&self, shape: &[usize]) -> (out: Option<Vec<usize>>)
        ensures
            match out {
                Some(out) => self.admits(shape@) && out@ == self.out_shape(shape@),
                None => !self.admits(shape@),
            },
    {
        proof {
            reveal(EncLayer::admits);
            reveal(EncLayer::out_shape);
        }
        let channels = self.conv.bias.len();
        if channels > usize::MAX / 2 {
            return None;
        }
        if self.freq {
            self.freq_shape_of(shape)
        } else {
            self.time_shape_of(shape)
        }
    }

    fn freq_shape_of(&self, shape: &[usize]) -> (out: Option<Vec<usize>>)
        requires
            self.freq,
            2 * self.channels() <= usize::MAX,
        ensures
            match out {
                Some(out) => self.admits(shape@) && out@ == self.out_shape(shape@),
                None => !self.admits(shape@),
            },
    {
        proof {
            reveal(EncLayer::admits);
            reveal(EncLayer::out_shape);
        }
        let channels = self.conv.bias.len();
        let window = Window { kernel: (8, 1), stride: (4, 1), pad: (2, 0), dilation: (1, 1) };
        let strided = match convolution_of(
            shape,
            self.conv.weight.len(),
            self.conv.bias.len(),
            channels,
            window,
        ) {
            Some(strided) => strided,
            None => return None,
        };
        proof {
            lemma_flattened(strided@);
        }
        let flattened = vec![strided[0] * strided[2], strided[1], strided[3]];
        proof {
            assert(flattened@ =~= flattened_shape(strided@));
        }
        if !self.dconv.takes(flattened.as_slice()) {
            return None;
        }
        let point = Window { kernel: (1, 1), stride: (1, 1), pad: (0, 0), dilation: (1, 1) };
        match convolution_of(
            strided.as_slice(),
            self.rewrite.weight.len(),
            self.rewrite.bias.len(),
            2 * channels,
            point,
        ) {
            Some(doubled) => {
                let mut out = doubled;
                out.set(1, channels);
                Some(out)
            },
            None => None,
        }
    }

    fn time_shape_of(&self, shape: &[usize]) -> (out: Option<Vec<usize>>)
        requires
            !self.freq,
            2 * self.channels() <= usize::MAX,
        ensures
            match out {
                Some(out) => self.admits(shape@) && out@ == self.out_shape(shape@),
                None => !self.admits(shape@),
            },
    {
        proof {
            reveal(EncLayer::admits);
            reveal(EncLayer::out_shape);
        }
        let channels = self.conv.bias.len();
        if shape.len() != 3 {
            return None;
        }
        let time = shape[2];
        let short = if time % 4 == 0 {
            0
        } else {
            4 - time % 4
        };
        if time > usize::MAX - short {
            return None;
        }
        let padded = vec![shape[0], shape[1], time + short];
        proof {
            assert(padded@ =~= aligned_shape(shape@));
        }
        if !is_addressable(padded.as_slice()) {
            return None;
        }
        let window = Window { kernel: (1, 8), stride: (1, 4), pad: (0, 2), dilation: (1, 1) };
        let strided = match convolution1_of(
            padded.as_slice(),
            self.conv.weight.len(),
            self.conv.bias.len(),
            channels,
            window,
        ) {
            Some(strided) => strided,
            None => return None,
        };
        if !self.dconv.takes(strided.as_slice()) {
            return None;
        }
        let point = Window { kernel: (1, 1), stride: (1, 1), pad: (0, 0), dilation: (1, 1) };
        match convolution1_of(
            strided.as_slice(),
            self.rewrite.weight.len(),
            self.rewrite.bias.len(),
            2 * channels,
            point,
        ) {
            Some(doubled) => {
                let mut out = doubled;
                out.set(1, channels);
                Some(out)
            },
            None => None,
        }
    }

    /// Loads a layer. `prefix` is `encoder.i` or `tencoder.i`; `chout` is the
    /// number of output channels.
    pub fn load(
        weights: &Weights,
        prefix: &str,
        freq: bool,
        chout: usize,
        compress: usize,
        depth: usize,
    ) -> (out: Result<Self, LoadError>)
        requires
            lawful::<A>(),
            weights.wf(),
            readable(weights@, Self::needs(prefix@, depth as nat)),
            compress > 0,
            depth <= usize::BITS,
        ensures
            match out {
                Ok(layer) => met(weights@, Self::needs(prefix@, depth as nat)) && layer.is_from(
                    weights@,
                    prefix@,
                    freq,
                    chout,
                    compress,
                    depth as nat,
                ),
                Err(error) => unmet(
                    weights@,
                    Self::needs(prefix@, depth as nat),
                    error.message@,
                ),
            },
    {
        let conv_name = joined(prefix, ".conv");
        let dconv_name = joined(prefix, ".dconv");
        let rewrite_name = joined(prefix, ".rewrite");
        proof {
            let a = Affine::<A>::needs(conv_name@);
            let b = DConv::<A>::needs(dconv_name@, depth as nat);
            let c = Affine::<A>::needs(rewrite_name@);
            lemma_needs(weights@, a, b);
            lemma_needs(weights@, a + b, c);
        }
        let conv = match Affine::<A>::load(weights, conv_name.as_str()) {
            Ok(module) => module,
            Err(error) => return Err(error),
        };
        let dconv = match DConv::<A>::load(weights, dconv_name.as_str(), chout, compress, depth) {
            Ok(module) => module,
            Err(error) => return Err(error),
        };
        let rewrite = match Affine::<A>::load(weights, rewrite_name.as_str()) {
            Ok(module) => module,
            Err(error) => return Err(error),
        };
        Ok(EncLayer { freq, conv, dconv, rewrite })
    }

    /// Runs the layer.
    pub fn forward(&self, x: &Tensor<A::Real>) -> (out: Tensor<A::Real>)
        requires
            lawful::<A>(),
            x.wf(),
            self.admits(x@.shape),
        ensures
            out@ == self.output(x@),
            out@.shape == self.out_shape(x@.shape),
            out.wf(),
    {
        proof {
            reveal(EncLayer::output);
        }
        if self.freq {
            self.forward_freq(x)
        } else {
            self.forward_time(x)
        }
    }

    fn forward_freq(&self, x: &Tensor<A::Real>) -> (out: Tensor<A::Real>)
        requires
            lawful::<A>(),
            x.wf(),
            self.freq,
            self.admits(x@.shape),
        ensures
            out@ == self.freq_output(x@),
            out@.shape == self.out_shape(x@.shape),
            out.wf(),
    {
        proof {
            reveal(EncLayer::admits);
            reveal(EncLayer::out_shape);
        }
        let channels = self.conv.bias.len();
        let y = conv2d::<A>(
            x,
            self.conv.weight.as_slice(),
            self.conv.bias.as_slice(),
            channels,
            (8, 1),
            (4, 1),
            (2, 0),
        );
        let y = gelu::<A>(&y);
        let y = forward_across_frequency::<A>(&self.dconv, &y);
        let z = conv2d::<A>(
            &y,
            self.rewrite.weight.as_slice(),
            self.rewrite.bias.as_slice(),
            2 * channels,
            (1, 1),
            (1, 1),
            (0, 0),
        );
        glu::<A>(&z)
    }

    fn forward_time(&self, x: &Tensor<A::Real>) -> (out: Tensor<A::Real>)
        requires
            lawful::<A>(),
            x.wf(),
            !self.freq,
            self.admits(x@.shape),
        ensures
            out@ == self.time_output(x@),
            out@.shape == self.out_shape(x@.shape),
            out.wf(),
    {
        proof {
            reveal(EncLayer::admits);
            reveal(EncLayer::out_shape);
        }
        let channels = self.conv.bias.len();
        // The length is padded to a multiple of the stride, so the output is
        // exactly a quarter of it.
        let time = x.shape[2];
        let padded = if time % 4 == 0 {
            x.clone()
        } else {
            pad_time(x, 4 - time % 4, A::zero())
        };
        proof {
            assert(padded@.shape =~= aligned_shape(x@.shape));
        }
        let y = conv1d::<A>(
            &padded,
            self.conv.weight.as_slice(),
            self.conv.bias.as_slice(),
            channels,
            8,
            4,
            2,
            1,
        );
        let y = gelu::<A>(&y);
        let y = self.dconv.forward(&y);
        let z = conv1d::<A>(
            &y,
            self.rewrite.weight.as_slice(),
            self.rewrite.bias.as_slice(),
            2 * channels,
            1,
            1,
            0,
            1,
        );
        glu::<A>(&z)
    }
}

/// A learned vector per frequency, added after the first encoder layer. The
/// parameter is stored raw, and multiplied by `scale` when it is applied.
pub struct FrequencyEmbedding<A: Arithmetic> {
    pub weight: Vec<A::Real>,
    pub dim: usize,
    pub scale: A::Real,
}

/// The name of the embedding's parameter.
pub open spec fn embedding_name() -> Seq<char> {
    "freq_emb.embedding.weight"@
}

impl<A: Arithmetic> FrequencyEmbedding<A> {
    /// What the embedding asks for.
    pub open spec fn needs() -> Seq<Need> {
        seq![Need { axes: 2, ..plain_need(embedding_name()) }]
    }

    /// Whether this is the embedding.
    pub open spec fn is_from(self, store: Store, scale: A::Real) -> bool {
        &&& self.weight@ == parameter::<A>(store, embedding_name())
        &&& store.find(embedding_name()) matches Some(block) && self.dim == block.shape[1]
        &&& self.scale == scale
    }

    /// Whether the embedding can be applied to a tensor of this shape: it has
    /// a vector of the right length for every frequency.
    pub open spec fn admits(self, shape: Seq<usize>) -> bool {
        &&& shape.len() == 4
        &&& shape[1] == self.dim
        &&& shape[2] * self.dim == self.weight@.len()
    }

    /// `[B, C, Fr, T]` with `weight_scale * scale * weight[fr, c]` added.
    #[verifier::opaque]
    pub open spec fn output(self, x: Grid<A::Real>, weight_scale: A::Real) -> Grid<A::Real> {
        let (c, f, t) = (x.shape[1] as int, x.shape[2] as int, x.shape[3] as int);
        let factor = A::times_spec(weight_scale, self.scale);
        Grid {
            shape: x.shape,
            data: table4(
                x.shape[0] as int,
                c,
                f,
                t,
                |b: int, i: int, j: int, k: int|
                    A::plus_spec(
                        at4(x.data, c, f, t, b, i, j, k),
                        A::times_spec(factor, self.weight@[j * self.dim + i]),
                    ),
            ),
        }
    }

    /// Whether the embedding can be applied to a tensor of this shape.
    pub fn takes(&self, shape: &[usize]) -> (can: bool)
        ensures
            can == self.admits(shape@),
    {
        if shape.len() != 4 || shape[1] != self.dim {
            return false;
        }
        assert(self.weight@.len() == self.weight.len());
        match product2(shape[2], self.dim) {
            Some(count) => count == self.weight.len(),
            None => false,
        }
    }

    /// Loads the embedding.
    pub fn load(weights: &Weights, scale: A::Real) -> (out: Result<Self, LoadError>)
        requires
            lawful::<A>(),
            weights.wf(),
            readable(weights@, Self::needs()),
        ensures
            match out {
                Ok(embedding) => met(weights@, Self::needs()) && embedding.is_from(weights@, scale),
                Err(error) => unmet(weights@, Self::needs(), error.message@),
            },
    {
        let name = "freq_emb.embedding.weight";
        proof {
            let asked = Self::needs();
            assert(reads(weights@, asked[0]));
            assert(weights@.find(name@) is None ==> first_unmet(weights@, asked, 0));
            assert(weights@.find(name@) is None ==> unmet(weights@, asked, asked[0].complaint));
        }
        let weight = match load_plain::<A>(weights, name) {
            Ok(values) => values,
            Err(error) => return Err(error),
        };
        proof {
            assert(weights@.find(seq![plain_need(name@)][0].name) is Some);
            assert(met(weights@, Self::needs()));
        }
        match weights.tensor(name) {
            Some(tensor) => {
                let dim = tensor.shape()[1];
                Ok(FrequencyEmbedding { weight, dim, scale })
            },
            None => Err(LoadError { message: joined("missing ", name) }),
        }
    }

    /// Adds `weight_scale * scale * weight[fr, c]` to `[B, C, Fr, T]`.
    pub fn apply(&self, x: &Tensor<A::Real>, weight_scale: A::Real) -> (out: Tensor<A::Real>)
        requires
            lawful::<A>(),
            x.wf(),
            self.admits(x@.shape),
        ensures
            out@ == self.output(x@, weight_scale),
            out@.shape == x@.shape,
            out.wf(),
    {
        let c = x.shape[1];
        let f = x.shape[2];
        let t = x.shape[3];
        let ghost batch = x@.shape[0] as int;
        let count = x.data.len();
        proof {
            reveal(FrequencyEmbedding::output);
        }
        let factor = A::times(weight_scale, self.scale);
        proof {
            lemma_rank4(x@.shape);
            assert(self.weight@.len() == self.weight.len());
        }
        let mut data: Vec<A::Real> = Vec::new();
        while data.len() < count
            invariant
                lawful::<A>(),
                batch >= 0,
                factor == A::times_spec(weight_scale, self.scale),
                c == self.dim,
                f * self.dim == self.weight@.len() <= usize::MAX,
                count == x@.data.len(),
                count == batch * c * f * t,
                data@.len() <= count,
                forall|p: int|
                    0 <= p < data@.len() ==> #[trigger] data@[p] == A::plus_spec(
                        at4(
                            x@.data,
                            c as int,
                            f as int,
                            t as int,
                            p / t as int / f as int / c as int,
                            p / t as int / f as int % c as int,
                            p / t as int % f as int,
                            p % t as int,
                        ),
                        A::times_spec(
                            factor,
                            self.weight@[(p / t as int % f as int) * self.dim + p / t as int
                                / f as int % c as int],
                        ),
                    ),
            decreases count - data@.len(),
        {
            let position = data.len();
            proof {
                lemma_split4(batch, c as int, f as int, t as int, position as int);
            }
            let frequency = position / t % f;
            let channel = position / t / f % c;
            proof {
                lemma_join2(f as int, c as int, frequency as int, channel as int);
            }
            let added = A::times(factor, self.weight[frequency * self.dim + channel]);
            data.push(A::plus(x.data[position], added));
        }
        proof {
            assert(data@ =~= self.output(x@, weight_scale).data);
        }
        Tensor { shape: vstd::slice::slice_to_vec(x.shape.as_slice()), data }
    }
}

/// A time layer gives exactly a quarter of its length, rounded up.
pub proof fn law_time_layers_quarter_the_length<A: Arithmetic>(
    layer: EncLayer<A>,
    shape: Seq<usize>,
)
    requires
        !layer.freq,
        layer.admits(shape),
    ensures
        layer.out_shape(shape) == seq![
            shape[0],
            layer.channels(),
            ((shape[2] + 3) / 4) as usize,
        ],
{
    reveal(EncLayer::admits);
    reveal(EncLayer::out_shape);
    let padded = aligned_shape(shape)[2] as int;
    assert(padded == 4 * ((shape[2] + 3) / 4));
    assert(reach(8, 1) == 8 && reach(1, 1) == 1);
    assert((padded + 2 * 2 - 8) / 4 + 1 == padded / 4);
    let strided = layer.strided_shape(shape);
    assert(strided[2] == padded / 4);
    assert((strided[2] - 1) / 1 == strided[2] - 1);
    assert(layer.out_shape(shape) =~= seq![
        shape[0],
        layer.channels(),
        ((shape[2] + 3) / 4) as usize,
    ]);
}

/// Padding every row with zeros to the next multiple of four changes nothing
/// of what a time layer gives.
pub proof fn law_time_layers_pad_to_a_multiple_of_four<A: Arithmetic>(
    layer: EncLayer<A>,
    x: Grid<A::Real>,
)
    requires
        !layer.freq,
        x.wf(),
        layer.admits(x.shape),
    ensures
        ({
            let padded = padded_right(x, shortfall(x.shape[2]), A::zero_spec());
            &&& padded.shape[2] % 4 == 0
            &&& padded.wf()
            &&& layer.admits(padded.shape)
            &&& layer.output(padded) == layer.output(x)
        }),
{
    reveal(EncLayer::admits);
    reveal(EncLayer::output);
    let lacking = shortfall(x.shape[2]);
    let padded = padded_right(x, lacking, A::zero_spec());
    assert(padded.shape =~= aligned_shape(x.shape));
    assert(aligned_shape(padded.shape) =~= padded.shape);
    lemma_rank3(x.shape);
    lemma_rank3(padded.shape);
    let (b, c, t) = (x.shape[0] as int, x.shape[1] as int, x.shape[2] as int);
    lemma_extent(b, c);
    lemma_extent(b * c, t + lacking);
    if lacking == 0 {
        assert forall|p: int| 0 <= p < x.data.len() implies #[trigger] padded.data[p]
            == x.data[p] by {
            lemma_split3(b, c, t, p);
        }
        assert(padded.data =~= x.data);
        assert(padded.shape =~= x.shape);
    }
}

} // verus!
