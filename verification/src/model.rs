//! The full forward pass.
//!
//! The short-time Fourier transform stays outside: the caller supplies the
//! spectrogram, complex parts as channels, and the waveform. The output is the
//! frequency branch (16 channels: 4 stems of 2 audio channels of real and
//! imaginary part) and the waveform branch (8 channels), both taken back to
//! the moments of the input.

use vstd::prelude::*;

use crate::arithmetic::{lawful, Arithmetic};
use crate::conv::{
    conv1d, convolution1, convolution1_of, convolution1_shape, convolution_shape, convolves1,
    lemma_lowered, line, raised, reach, steps, Window,
};
use crate::decoder::DecLayer;
use crate::encoder::{frequency_window, EncLayer, FrequencyEmbedding};
use crate::moments::{denormalise, denormalised, normalise, normalised, sample_moments};
use crate::parameters::{lemma_needs, load_plain, met, parameter, plain_need, readable, unmet};
use crate::parameters::{LoadError, Need};
use crate::tensor::{
    addressable, at_least_one, is_addressable, lemma_rank3, lemma_rank4, same_shape, volume, Grid,
    Tensor,
};
use crate::text::{decimal, joined, numbered};
use crate::transformer::CrossTransformer;
use crate::weights::{Store, Weights};

verus! {

/// A convolution of one tap: the channels of every position mixed.
pub struct ChannelConv<A: Arithmetic> {
    pub weight: Vec<A::Real>,
    pub bias: Vec<A::Real>,
}

/// `[B, C, Fr, T]` as `[B, C, Fr * T]`.
pub open spec fn flat_shape(shape: Seq<usize>) -> Seq<usize> {
    seq![shape[0], shape[1], (shape[2] * shape[3]) as usize]
}

/// Flattening a plane keeps the volume of a shape, and keeps it addressable.
pub proof fn lemma_flat(shape: Seq<usize>)
    requires
        shape.len() == 4,
        addressable(shape),
    ensures
        shape[2] * shape[3] <= usize::MAX,
        volume(flat_shape(shape)) == volume(shape),
        addressable(flat_shape(shape)),
{
    lemma_rank4(shape);
    let merged = shape[2] * shape[3];
    let other = flat_shape(shape);
    lemma_rank3(other);
    vstd::arithmetic::mul::lemma_mul_is_associative(
        shape[0] * shape[1],
        shape[2] as int,
        shape[3] as int,
    );
    let (a, b, c, d) = (
        at_least_one(shape[0]),
        at_least_one(shape[1]),
        at_least_one(shape[2]),
        at_least_one(shape[3]),
    );
    let e = at_least_one(merged as usize);
    assert(e <= c * d) by (nonlinear_arith)
        requires
            merged == shape[2] * shape[3],
            shape[2] <= c,
            shape[3] <= d,
            c >= 1,
            d >= 1,
            e == if merged == 0 {
                1int
            } else {
                merged
            },
    ;
    assert(a * b * e <= a * b * c * d) by (nonlinear_arith)
        requires
            e <= c * d,
            0 <= a,
            0 <= b,
    ;
}

/// A plane that is not empty can be taken apart again.
proof fn lemma_unflat(batch: usize, channels: usize, frequency: usize, time: usize)
    requires
        1 <= frequency * time <= usize::MAX,
        addressable(seq![batch, channels, (frequency * time) as usize]),
    ensures
        volume(seq![batch, channels, frequency, time]) == volume(
            seq![batch, channels, (frequency * time) as usize],
        ),
        addressable(seq![batch, channels, frequency, time]),
{
    let plane = seq![batch, channels, frequency, time];
    let flat = seq![batch, channels, (frequency * time) as usize];
    lemma_rank4(plane);
    lemma_rank3(flat);
    assert(frequency >= 1 && time >= 1) by (nonlinear_arith)
        requires
            1 <= frequency * time,
            frequency >= 0,
            time >= 0,
    ;
    vstd::arithmetic::mul::lemma_mul_is_associative(
        batch * channels,
        frequency as int,
        time as int,
    );
    let (a, b) = (at_least_one(batch), at_least_one(channels));
    vstd::arithmetic::mul::lemma_mul_is_associative(
        (a * b) as int,
        frequency as int,
        time as int,
    );
}

impl<A: Arithmetic> ChannelConv<A> {
    /// What the module of this prefix asks for.
    pub open spec fn needs(prefix: Seq<char>) -> Seq<Need> {
        seq![plain_need(prefix + ".weight"@)] + seq![plain_need(prefix + ".bias"@)]
    }

    /// Whether this is the module of this prefix.
    pub open spec fn is_from(self, store: Store, prefix: Seq<char>) -> bool {
        &&& self.weight@ == parameter::<A>(store, prefix + ".weight"@)
        &&& self.bias@ == parameter::<A>(store, prefix + ".bias"@)
    }

    /// How many channels the module gives.
    pub open spec fn channels(self) -> usize {
        self.bias@.len() as usize
    }

    /// Whether the module can be computed on `[B, C, T]` of this shape.
    pub open spec fn admits(self, shape: Seq<usize>) -> bool {
        convolves1(
            shape,
            self.weight@.len(),
            self.bias@.len(),
            self.channels(),
            line(1, 1, 0, 1),
        )
    }

    /// The shape that the module gives on `[B, C, T]`.
    pub open spec fn out_shape(self, shape: Seq<usize>) -> Seq<usize> {
        convolution1_shape(shape, self.channels(), line(1, 1, 0, 1))
    }

    /// The module's output on `[B, C, T]`.
    pub open spec fn output(self, x: Grid<A::Real>) -> Grid<A::Real> {
        convolution1::<A>(x, self.weight@, self.bias@, self.channels(), line(1, 1, 0, 1))
    }

    /// Whether the module can be computed on `[B, C, Fr, T]` of this shape.
    pub open spec fn admits_plane(self, shape: Seq<usize>) -> bool {
        &&& shape.len() == 4
        &&& self.admits(flat_shape(shape))
    }

    /// The shape that the module gives on `[B, C, Fr, T]`.
    pub open spec fn plane_shape(self, shape: Seq<usize>) -> Seq<usize> {
        seq![shape[0], self.channels(), shape[2], shape[3]]
    }

    /// The module's output on `[B, C, Fr, T]`: the plane is a line, row after
    /// row.
    pub open spec fn plane_output(self, x: Grid<A::Real>) -> Grid<A::Real> {
        self.output(x.reshaped(flat_shape(x.shape))).reshaped(self.plane_shape(x.shape))
    }

    /// The shape that the module gives on `[B, C, T]`, where it can be
    /// computed.
    fn shape_of(&self, shape: &[usize]) -> (out: Option<Vec<usize>>)
        ensures
            match out {
                Some(out) => self.admits(shape@) && out@ == self.out_shape(shape@)
                    && addressable(out@),
                None => !self.admits(shape@),
            },
    {
        let point = Window { kernel: (1, 1), stride: (1, 1), pad: (0, 0), dilation: (1, 1) };
        let out = convolution1_of(
            shape,
            self.weight.len(),
            self.bias.len(),
            self.bias.len(),
            point,
        );
        proof {
            if self.admits(shape@) {
                assert(point.height(1) == 1);
                lemma_lowered(convolution_shape(raised(shape@), self.channels(), point));
            }
        }
        out
    }

    /// The shape that the module gives on `[B, C, Fr, T]`, where it can be
    /// computed.
    fn plane_of(&self, shape: &[usize]) -> (out: Option<Vec<usize>>)
        requires
            addressable(shape@),
        ensures
            match out {
                Some(out) => self.admits_plane(shape@) && out@ == self.plane_shape(shape@)
                    && addressable(out@),
                None => !self.admits_plane(shape@),
            },
    {
        if shape.len() != 4 {
            return None;
        }
        proof {
            lemma_flat(shape@);
        }
        let flat = vec![shape[0], shape[1], shape[2] * shape[3]];
        proof {
            assert(flat@ =~= flat_shape(shape@));
        }
        match self.shape_of(flat.as_slice()) {
            Some(mixed) => {
                let out = vec![shape[0], self.bias.len(), shape[2], shape[3]];
                proof {
                    assert(mixed@ =~= seq![
                        shape@[0],
                        self.channels(),
                        (shape@[2] * shape@[3]) as usize,
                    ]);
                    lemma_unflat(shape@[0], self.channels(), shape@[2], shape@[3]);
                    assert(out@ =~= self.plane_shape(shape@));
                }
                Some(out)
            },
            None => None,
        }
    }

    fn load(weights: &Weights, prefix: &str) -> (out: Result<Self, LoadError>)
        requires
            lawful::<A>(),
            weights.wf(),
            readable(weights@, Self::needs(prefix@)),
        ensures
            match out {
                Ok(module) => met(weights@, Self::needs(prefix@)) && module.is_from(
                    weights@,
                    prefix@,
                ),
                Err(error) => unmet(weights@, Self::needs(prefix@), error.message@),
            },
    {
        let weight_name = joined(prefix, ".weight");
        let bias_name = joined(prefix, ".bias");
        proof {
            lemma_needs(
                weights@,
                seq![plain_need(weight_name@)],
                seq![plain_need(bias_name@)],
            );
        }
        let weight = match load_plain::<A>(weights, weight_name.as_str()) {
            Ok(values) => values,
            Err(error) => return Err(error),
        };
        let bias = match load_plain::<A>(weights, bias_name.as_str()) {
            Ok(values) => values,
            Err(error) => return Err(error),
        };
        Ok(ChannelConv { weight, bias })
    }

    fn forward(&self, x: &Tensor<A::Real>) -> (out: Tensor<A::Real>)
        requires
            lawful::<A>(),
            x.wf(),
            self.admits(x@.shape),
        ensures
            out@ == self.output(x@),
            out@.shape == self.out_shape(x@.shape),
            out.wf(),
    {
        conv1d::<A>(
            x,
            self.weight.as_slice(),
            self.bias.as_slice(),
            self.bias.len(),
            1,
            1,
            0,
            1,
        )
    }

    /// Runs the module on every position of a plane.
    fn forward_plane(&self, x: &Tensor<A::Real>) -> (out: Tensor<A::Real>)
        requires
            lawful::<A>(),
            x.wf(),
            self.admits_plane(x@.shape),
        ensures
            out@ == self.plane_output(x@),
            out@.shape == self.plane_shape(x@.shape),
            out.wf(),
    {
        let batch = x.shape[0];
        let channels = x.shape[1];
        let frequency = x.shape[2];
        let time = x.shape[3];
        proof {
            lemma_flat(x@.shape);
        }
        let flat = Tensor {
            shape: vec![batch, channels, frequency * time],
            data: vstd::slice::slice_to_vec(x.data.as_slice()),
        };
        proof {
            assert(flat@.shape =~= flat_shape(x@.shape));
        }
        let out = self.forward(&flat);
        proof {
            assert(out@.shape =~= seq![batch, self.channels(), (frequency * time) as usize]);
            lemma_unflat(batch, self.channels(), frequency, time);
        }
        let plane = Tensor {
            shape: vec![batch, self.bias.len(), frequency, time],
            data: out.data,
        };
        proof {
            assert(plane@.shape =~= self.plane_shape(x@.shape));
        }
        plane
    }
}

/// The channels of each level.
pub open spec fn level_channels(index: int) -> usize {
    if index == 0 {
        48
    } else if index == 1 {
        96
    } else if index == 2 {
        192
    } else {
        384
    }
}

fn channels_at(index: usize) -> (channels: usize)
    ensures
        channels == level_channels(index as int),
{
    match index {
        0 => 48,
        1 => 96,
        2 => 192,
        _ => 384,
    }
}

/// The prefix of a level of one of the stacks.
pub open spec fn level_name(stack: Seq<char>, index: nat) -> Seq<char> {
    stack + decimal(index)
}

/// What a level asks for.
pub open spec fn level_need<A: Arithmetic>(index: nat) -> Seq<Need> {
    EncLayer::<A>::needs(level_name("encoder."@, index), 2) + EncLayer::<A>::needs(
        level_name("tencoder."@, index),
        2,
    ) + DecLayer::<A>::needs(level_name("decoder."@, index), 2) + DecLayer::<A>::needs(
        level_name("tdecoder."@, index),
        2,
    )
}

/// What the first `count` levels ask for.
pub open spec fn level_needs<A: Arithmetic>(count: nat) -> Seq<Need>
    decreases count,
{
    if count == 0 {
        Seq::empty()
    } else {
        level_needs::<A>((count - 1) as nat) + level_need::<A>((count - 1) as nat)
    }
}

/// The network.
pub struct HtDemucs<A: Arithmetic> {
    pub encoders: Vec<EncLayer<A>>,
    pub tencoders: Vec<EncLayer<A>>,
    pub frequency_embedding: FrequencyEmbedding<A>,
    pub channel_upsampler: ChannelConv<A>,
    pub channel_upsampler_t: ChannelConv<A>,
    pub channel_downsampler: ChannelConv<A>,
    pub channel_downsampler_t: ChannelConv<A>,
    pub transformer: CrossTransformer<A>,
    pub decoders: Vec<DecLayer<A>>,
    pub tdecoders: Vec<DecLayer<A>>,
}

/// The layers of one level.
pub struct Level<A: Arithmetic> {
    pub encoder: EncLayer<A>,
    pub tencoder: EncLayer<A>,
    pub decoder: DecLayer<A>,
    pub tdecoder: DecLayer<A>,
}

/// Whether these are the layers of a level. Decoders are stored deepest first,
/// so the input channels of a decoder are those of the opposite level.
pub open spec fn level_is_from<A: Arithmetic>(
    encoder: EncLayer<A>,
    tencoder: EncLayer<A>,
    decoder: DecLayer<A>,
    tdecoder: DecLayer<A>,
    store: Store,
    index: nat,
) -> bool {
    let chout = level_channels(index as int);
    let chin = level_channels(3 - index);
    let last = index == 3;
    &&& encoder.is_from(store, level_name("encoder."@, index), true, chout, 8, 2)
    &&& tencoder.is_from(store, level_name("tencoder."@, index), false, chout, 8, 2)
    &&& decoder.is_from(store, level_name("decoder."@, index), true, last, chin, 8, 2)
    &&& tdecoder.is_from(store, level_name("tdecoder."@, index), false, last, chin, 8, 2)
}

impl<A: Arithmetic> Level<A> {
    fn load(weights: &Weights, index: usize) -> (out: Result<Self, LoadError>)
        requires
            lawful::<A>(),
            weights.wf(),
            readable(weights@, level_need::<A>(index as nat)),
            index < 4,
        ensures
            match out {
                Ok(level) => met(weights@, level_need::<A>(index as nat)) && level_is_from::<A>(
                    level.encoder,
                    level.tencoder,
                    level.decoder,
                    level.tdecoder,
                    weights@,
                    index as nat,
                ),
                Err(error) => unmet(weights@, level_need::<A>(index as nat), error.message@),
            },
    {
        let encoder_name = numbered("encoder.", index);
        let tencoder_name = numbered("tencoder.", index);
        let decoder_name = numbered("decoder.", index);
        let tdecoder_name = numbered("tdecoder.", index);
        proof {
            let a = EncLayer::<A>::needs(encoder_name@, 2);
            let b = EncLayer::<A>::needs(tencoder_name@, 2);
            let c = DecLayer::<A>::needs(decoder_name@, 2);
            let d = DecLayer::<A>::needs(tdecoder_name@, 2);
            lemma_needs(weights@, a, b);
            lemma_needs(weights@, a + b, c);
            lemma_needs(weights@, a + b + c, d);
        }
        let chout = channels_at(index);
        let chin = channels_at(3 - index);
        let last = index == 3;
        let encoder = match EncLayer::<A>::load(
            weights,
            encoder_name.as_str(),
            true,
            chout,
            8,
            2,
        ) {
            Ok(layer) => layer,
            Err(error) => return Err(error),
        };
        let tencoder = match EncLayer::<A>::load(
            weights,
            tencoder_name.as_str(),
            false,
            chout,
            8,
            2,
        ) {
            Ok(layer) => layer,
            Err(error) => return Err(error),
        };
        let decoder = match DecLayer::<A>::load(
            weights,
            decoder_name.as_str(),
            true,
            last,
            chin,
            8,
            2,
        ) {
            Ok(layer) => layer,
            Err(error) => return Err(error),
        };
        let tdecoder = match DecLayer::<A>::load(
            weights,
            tdecoder_name.as_str(),
            false,
            last,
            chin,
            8,
            2,
        ) {
            Ok(layer) => layer,
            Err(error) => return Err(error),
        };
        Ok(Level { encoder, tencoder, decoder, tdecoder })
    }
}

/// A complaint of the first levels is one of all of them, and they can be looked
/// up where all of them can.
proof fn lemma_levels_grow<A: Arithmetic>(store: Store, count: nat, total: nat)
    requires
        count <= total,
    ensures
        forall|complaint: Seq<char>|
            #![trigger unmet(store, level_needs::<A>(count), complaint)]
            unmet(store, level_needs::<A>(count), complaint) ==> unmet(
                store,
                level_needs::<A>(total),
                complaint,
            ),
        readable(store, level_needs::<A>(total)) ==> readable(store, level_needs::<A>(count)),
    decreases total - count,
{
    if count < total {
        lemma_levels_grow::<A>(store, count + 1, total);
        lemma_needs(store, level_needs::<A>(count), level_need::<A>(count));
        assert(level_needs::<A>(count + 1) == level_needs::<A>(count) + level_need::<A>(count));
    }
}

impl<A: Arithmetic> HtDemucs<A> {
    /// What the network asks for.
    #[verifier::opaque]
    pub open spec fn needs() -> Seq<Need> {
        level_needs::<A>(4) + FrequencyEmbedding::<A>::needs() + ChannelConv::<A>::needs(
            "channel_upsampler"@,
        ) + ChannelConv::<A>::needs("channel_upsampler_t"@) + ChannelConv::<A>::needs(
            "channel_downsampler"@,
        ) + ChannelConv::<A>::needs("channel_downsampler_t"@) + CrossTransformer::<A>::needs(
            "crosstransformer"@,
        )
    }

    /// Whether this is the network of a bundle.
    #[verifier::opaque]
    pub open spec fn is_from(self, store: Store) -> bool {
        &&& self.encoders@.len() == 4
        &&& self.tencoders@.len() == 4
        &&& self.decoders@.len() == 4
        &&& self.tdecoders@.len() == 4
        &&& forall|i: int|
            #![trigger self.encoders@[i]]
            0 <= i < 4 ==> level_is_from::<A>(
                self.encoders@[i],
                self.tencoders@[i],
                self.decoders@[i],
                self.tdecoders@[i],
                store,
                i as nat,
            )
        &&& self.frequency_embedding.is_from(store, A::literal_spec(10, 1))
        &&& self.channel_upsampler.is_from(store, "channel_upsampler"@)
        &&& self.channel_upsampler_t.is_from(store, "channel_upsampler_t"@)
        &&& self.channel_downsampler.is_from(store, "channel_downsampler"@)
        &&& self.channel_downsampler_t.is_from(store, "channel_downsampler_t"@)
        &&& self.transformer.is_from(
            store,
            "crosstransformer"@,
            8,
            A::literal_spec(10_000, 1),
            A::one_spec(),
        )
    }

    proof fn lemma_all_needs(store: Store)
        ensures
            forall|complaint: Seq<char>|
                #![trigger unmet(store, level_needs::<A>(4), complaint)]
                unmet(store, level_needs::<A>(4), complaint) ==> unmet(
                    store,
                    Self::needs(),
                    complaint,
                ),
            readable(store, Self::needs()) ==> readable(store, level_needs::<A>(4)),
    {
        reveal(HtDemucs::needs);
        let a = level_needs::<A>(4);
        let b = FrequencyEmbedding::<A>::needs();
        let c = ChannelConv::<A>::needs("channel_upsampler"@);
        let d = ChannelConv::<A>::needs("channel_upsampler_t"@);
        let e = ChannelConv::<A>::needs("channel_downsampler"@);
        let f = ChannelConv::<A>::needs("channel_downsampler_t"@);
        let g = CrossTransformer::<A>::needs("crosstransformer"@);
        lemma_needs(store, a, b);
        lemma_needs(store, a + b, c);
        lemma_needs(store, a + b + c, d);
        lemma_needs(store, a + b + c + d, e);
        lemma_needs(store, a + b + c + d + e, f);
        lemma_needs(store, a + b + c + d + e + f, g);
    }

    /// Loads the network.
    pub fn load(weights: &Weights) -> (out: Result<Self, LoadError>)
        requires
            lawful::<A>(),
            weights.wf(),
            readable(weights@, Self::needs()),
        ensures
            match out {
                Ok(model) => met(weights@, Self::needs()) && model.is_from(weights@),
                Err(error) => unmet(weights@, Self::needs(), error.message@),
            },
    {
        let mut encoders: Vec<EncLayer<A>> = Vec::new();
        let mut tencoders: Vec<EncLayer<A>> = Vec::new();
        let mut decoders: Vec<DecLayer<A>> = Vec::new();
        let mut tdecoders: Vec<DecLayer<A>> = Vec::new();
        let mut index: usize = 0;
        while index < 4
            invariant
                lawful::<A>(),
                weights.wf(),
                readable(weights@, Self::needs()),
                index <= 4,
                encoders@.len() == index,
                tencoders@.len() == index,
                decoders@.len() == index,
                tdecoders@.len() == index,
                met(weights@, level_needs::<A>(index as nat)),
                forall|i: int|
                    #![trigger encoders@[i]]
                    0 <= i < index ==> level_is_from::<A>(
                        encoders@[i],
                        tencoders@[i],
                        decoders@[i],
                        tdecoders@[i],
                        weights@,
                        i as nat,
                    ),
            decreases 4 - index,
        {
            proof {
                let a = level_needs::<A>(index as nat);
                let b = level_need::<A>(index as nat);
                lemma_needs(weights@, a, b);
                assert(level_needs::<A>((index + 1) as nat) == a + b);
                lemma_levels_grow::<A>(weights@, (index + 1) as nat, 4);
                Self::lemma_all_needs(weights@);
            }
            let level = match Level::<A>::load(weights, index) {
                Ok(level) => level,
                Err(error) => return Err(error),
            };
            encoders.push(level.encoder);
            tencoders.push(level.tencoder);
            decoders.push(level.decoder);
            tdecoders.push(level.tdecoder);
            index = index + 1;
        }
        proof {
            reveal(HtDemucs::needs);
            reveal(HtDemucs::is_from);
            let store = weights@;
            let a = level_needs::<A>(4);
            let b = FrequencyEmbedding::<A>::needs();
            let c = ChannelConv::<A>::needs("channel_upsampler"@);
            let d = ChannelConv::<A>::needs("channel_upsampler_t"@);
            let e = ChannelConv::<A>::needs("channel_downsampler"@);
            let f = ChannelConv::<A>::needs("channel_downsampler_t"@);
            let g = CrossTransformer::<A>::needs("crosstransformer"@);
            lemma_needs(store, a, b);
            lemma_needs(store, a + b, c);
            lemma_needs(store, a + b + c, d);
            lemma_needs(store, a + b + c + d, e);
            lemma_needs(store, a + b + c + d + e, f);
            lemma_needs(store, a + b + c + d + e + f, g);
        }
        let frequency_embedding = match FrequencyEmbedding::<A>::load(
            weights,
            A::literal(10, 1),
        ) {
            Ok(module) => module,
            Err(error) => return Err(error),
        };
        let channel_upsampler = match ChannelConv::<A>::load(weights, "channel_upsampler") {
            Ok(module) => module,
            Err(error) => return Err(error),
        };
        let channel_upsampler_t = match ChannelConv::<A>::load(weights, "channel_upsampler_t") {
            Ok(module) => module,
            Err(error) => return Err(error),
        };
        let channel_downsampler = match ChannelConv::<A>::load(weights, "channel_downsampler") {
            Ok(module) => module,
            Err(error) => return Err(error),
        };
        let channel_downsampler_t = match ChannelConv::<A>::load(
            weights,
            "channel_downsampler_t",
        ) {
            Ok(module) => module,
            Err(error) => return Err(error),
        };
        let transformer = match CrossTransformer::<A>::load(
            weights,
            "crosstransformer",
            8,
            A::literal(10_000, 1),
            A::one(),
        ) {
            Ok(module) => module,
            Err(error) => return Err(error),
        };
        Ok(
            HtDemucs {
                encoders,
                tencoders,
                frequency_embedding,
                channel_upsampler,
                channel_upsampler_t,
                channel_downsampler,
                channel_downsampler_t,
                transformer,
                decoders,
                tdecoders,
            },
        )
    }
}

impl<A: Arithmetic> HtDemucs<A> {
    /// The frequency branch after the first `count` encoders. The frequency
    /// embedding joins after the first.
    pub open spec fn encoded(self, x: Grid<A::Real>, count: int) -> Grid<A::Real>
        decreases count,
    {
        if count <= 0 {
            x
        } else {
            let y = self.encoders@[count - 1].output(self.encoded(x, count - 1));
            if count == 1 {
                self.frequency_embedding.output(y, A::literal_spec(1, 5))
            } else {
                y
            }
        }
    }

    /// The time branch after the first `count` encoders.
    pub open spec fn encoded_t(self, xt: Grid<A::Real>, count: int) -> Grid<A::Real>
        decreases count,
    {
        if count <= 0 {
            xt
        } else {
            self.tencoders@[count - 1].output(self.encoded_t(xt, count - 1))
        }
    }

    /// The shape of [`Self::encoded`].
    pub open spec fn encoded_shape(self, shape: Seq<usize>, count: int) -> Seq<usize>
        decreases count,
    {
        if count <= 0 {
            shape
        } else {
            self.encoders@[count - 1].out_shape(self.encoded_shape(shape, count - 1))
        }
    }

    /// The shape of [`Self::encoded_t`].
    pub open spec fn encoded_shape_t(self, shape: Seq<usize>, count: int) -> Seq<usize>
        decreases count,
    {
        if count <= 0 {
            shape
        } else {
            self.tencoders@[count - 1].out_shape(self.encoded_shape_t(shape, count - 1))
        }
    }

    /// Both branches through the transformer, the channels raised before it
    /// and lowered after it.
    pub open spec fn crossed(self, x: Grid<A::Real>, xt: Grid<A::Real>) -> (
        Grid<A::Real>,
        Grid<A::Real>,
    ) {
        let (a, b) = self.transformer.output(
            self.channel_upsampler.plane_output(x),
            self.channel_upsampler_t.output(xt),
        );
        (self.channel_downsampler.plane_output(a), self.channel_downsampler_t.output(b))
    }

    /// The shape of the first half of [`Self::crossed`].
    pub open spec fn crossed_shape(self, shape: Seq<usize>) -> Seq<usize> {
        seq![shape[0], self.channel_downsampler.channels(), shape[2], shape[3]]
    }

    /// The shape of the time branch inside the transformer.
    pub open spec fn inner_shape_t(self, shape: Seq<usize>, shape_t: Seq<usize>) -> Seq<usize> {
        seq![
            shape[0],
            self.transformer.dim,
            self.channel_upsampler_t.out_shape(shape_t)[2],
        ]
    }

    /// The shape of the second half of [`Self::crossed`].
    pub open spec fn crossed_shape_t(self, shape: Seq<usize>, shape_t: Seq<usize>) -> Seq<usize> {
        self.channel_downsampler_t.out_shape(self.inner_shape_t(shape, shape_t))
    }

    /// Whether the transformer can be run between branches of these shapes.
    pub open spec fn crosses(self, shape: Seq<usize>, shape_t: Seq<usize>) -> bool {
        &&& self.channel_upsampler.admits_plane(shape)
        &&& self.channel_upsampler_t.admits(shape_t)
        &&& self.transformer.admits(
            self.channel_upsampler.plane_shape(shape),
            self.channel_upsampler_t.out_shape(shape_t),
        )
        &&& self.channel_downsampler.admits_plane(
            seq![shape[0], self.transformer.dim, shape[2], shape[3]],
        )
        &&& self.channel_downsampler_t.admits(self.inner_shape_t(shape, shape_t))
    }

    /// The frequency branch after the first `count` decoders, from `start` on.
    /// Each decoder takes the output of the opposite encoder as its skip, and
    /// the length of that encoder's input.
    pub open spec fn decoded(
        self,
        x: Grid<A::Real>,
        start: Grid<A::Real>,
        count: int,
    ) -> Grid<A::Real>
        decreases count,
    {
        if count <= 0 {
            start
        } else {
            let level = self.encoders@.len() - count;
            self.decoders@[count - 1].output(
                self.decoded(x, start, count - 1),
                self.encoded(x, level + 1),
                self.encoded(x, level).shape[2],
            )
        }
    }

    /// The time branch after the first `count` decoders, from `start` on.
    pub open spec fn decoded_t(
        self,
        xt: Grid<A::Real>,
        start: Grid<A::Real>,
        count: int,
    ) -> Grid<A::Real>
        decreases count,
    {
        if count <= 0 {
            start
        } else {
            let level = self.encoders@.len() - count;
            self.tdecoders@[count - 1].output(
                self.decoded_t(xt, start, count - 1),
                self.encoded_t(xt, level + 1),
                self.encoded_t(xt, level).shape[2],
            )
        }
    }

    /// The shape of [`Self::decoded`].
    pub open spec fn decoded_shape(
        self,
        shape: Seq<usize>,
        start: Seq<usize>,
        count: int,
    ) -> Seq<usize>
        decreases count,
    {
        if count <= 0 {
            start
        } else {
            self.decoders@[count - 1].out_shape(
                self.decoded_shape(shape, start, count - 1),
                self.encoded_shape(shape, self.encoders@.len() - count)[2],
            )
        }
    }

    /// The shape of [`Self::decoded_t`].
    pub open spec fn decoded_shape_t(
        self,
        shape: Seq<usize>,
        start: Seq<usize>,
        count: int,
    ) -> Seq<usize>
        decreases count,
    {
        if count <= 0 {
            start
        } else {
            self.tdecoders@[count - 1].out_shape(
                self.decoded_shape_t(shape, start, count - 1),
                self.encoded_shape_t(shape, self.encoders@.len() - count)[2],
            )
        }
    }

    /// Whether the encoders can be run on branches of these shapes.
    pub open spec fn encodes(self, shape: Seq<usize>, shape_t: Seq<usize>) -> bool {
        &&& self.encoders@.len() <= self.tencoders@.len()
        &&& forall|i: int|
            0 <= i < self.encoders@.len() ==> (#[trigger] self.encoders@[i]).admits(
                self.encoded_shape(shape, i),
            )
        &&& forall|i: int|
            0 <= i < self.encoders@.len() ==> (#[trigger] self.tencoders@[i]).admits(
                self.encoded_shape_t(shape_t, i),
            )
        &&& self.encoders@.len() > 0 ==> self.frequency_embedding.admits(
            self.encoded_shape(shape, 1),
        )
    }

    /// Whether the frequency decoders can be run from `start` on: each finds a
    /// skip of its input's shape.
    pub open spec fn decodes_freq(self, shape: Seq<usize>, start: Seq<usize>) -> bool {
        &&& self.decoders@.len() <= self.encoders@.len()
        &&& forall|i: int|
            0 <= i < self.decoders@.len() ==> #[trigger] self.decodes_freq_at(shape, start, i)
    }

    /// Whether frequency decoder `i` finds a skip of its input's shape, and can be
    /// run on it.
    pub open spec fn decodes_freq_at(self, shape: Seq<usize>, start: Seq<usize>, i: int) -> bool {
        let level = self.encoders@.len() - 1 - i;
        let input = self.decoded_shape(shape, start, i);
        &&& input == self.encoded_shape(shape, level + 1)
        &&& self.decoders@[i].admits(input, self.encoded_shape(shape, level)[2])
    }

    /// Whether the time decoders can be run from `start` on.
    pub open spec fn decodes_time(self, shape: Seq<usize>, start: Seq<usize>) -> bool {
        &&& self.decoders@.len() <= self.encoders@.len()
        &&& self.decoders@.len() <= self.tdecoders@.len()
        &&& forall|i: int|
            0 <= i < self.decoders@.len() ==> #[trigger] self.decodes_time_at(shape, start, i)
    }

    /// Whether time decoder `i` finds a skip of its input's shape, and can be
    /// run on it.
    pub open spec fn decodes_time_at(self, shape: Seq<usize>, start: Seq<usize>, i: int) -> bool {
        let level = self.encoders@.len() - 1 - i;
        let input = self.decoded_shape_t(shape, start, i);
        &&& input == self.encoded_shape_t(shape, level + 1)
        &&& self.tdecoders@[i].admits(input, self.encoded_shape_t(shape, level)[2])
    }

    /// Whether the network can be computed on a spectrogram and a waveform of
    /// these shapes.
    #[verifier::opaque]
    pub open spec fn admits(self, shape: Seq<usize>, shape_t: Seq<usize>) -> bool {
        let depth = self.encoders@.len() as int;
        let deep = self.encoded_shape(shape, depth);
        let deep_t = self.encoded_shape_t(shape_t, depth);
        &&& shape.len() == 4
        &&& shape_t.len() == 3
        &&& shape[0] == shape_t[0]
        &&& self.encodes(shape, shape_t)
        &&& self.crosses(deep, deep_t)
        &&& self.decodes_freq(shape, self.crossed_shape(deep))
        &&& self.decodes_time(shape_t, self.crossed_shape_t(deep, deep_t))
    }

    /// The network's outputs: every sample standardised, encoded, crossed and
    /// decoded, and taken back to its own moments.
    #[verifier::opaque]
    pub open spec fn output(self, magnitude: Grid<A::Real>, waveform: Grid<A::Real>) -> (
        Grid<A::Real>,
        Grid<A::Real>,
    ) {
        let x = normalised::<A>(magnitude);
        let xt = normalised::<A>(waveform);
        let depth = self.encoders@.len() as int;
        let count = self.decoders@.len() as int;
        let (a, b) = self.crossed(self.encoded(x, depth), self.encoded_t(xt, depth));
        (
            denormalised::<A>(self.decoded(x, a, count), sample_moments::<A>(magnitude)),
            denormalised::<A>(self.decoded_t(xt, b, count), sample_moments::<A>(waveform)),
        )
    }

    /// The shapes of [`Self::output`].
    #[verifier::opaque]
    pub open spec fn out_shapes(self, shape: Seq<usize>, shape_t: Seq<usize>) -> (
        Seq<usize>,
        Seq<usize>,
    ) {
        let depth = self.encoders@.len() as int;
        let count = self.decoders@.len() as int;
        let deep = self.encoded_shape(shape, depth);
        let deep_t = self.encoded_shape_t(shape_t, depth);
        (
            self.decoded_shape(shape, self.crossed_shape(deep), count),
            self.decoded_shape_t(shape_t, self.crossed_shape_t(deep, deep_t), count),
        )
    }

    /// The batch axis goes through the encoders unchanged.
    proof fn lemma_encoded_batch(self, shape: Seq<usize>, count: int)
        requires
            shape.len() >= 1,
        ensures
            self.encoded_shape(shape, count).len() >= 1,
            self.encoded_shape(shape, count)[0] == shape[0],
        decreases count,
    {
        if count > 0 {
            self.lemma_encoded_batch(shape, count - 1);
            self.encoders@[count - 1].lemma_shapes(self.encoded_shape(shape, count - 1));
        }
    }

    /// The batch axis goes through the frequency decoders unchanged.
    proof fn lemma_decoded_batch(self, shape: Seq<usize>, start: Seq<usize>, count: int)
        requires
            start.len() >= 1,
        ensures
            self.decoded_shape(shape, start, count).len() >= 1,
            self.decoded_shape(shape, start, count)[0] == start[0],
        decreases count,
    {
        if count > 0 {
            self.lemma_decoded_batch(shape, start, count - 1);
            self.decoders@[count - 1].lemma_shapes(
                self.decoded_shape(shape, start, count - 1),
                self.encoded_shape(shape, self.encoders@.len() - count)[2],
            );
        }
    }

    /// The batch axis goes through the time decoders unchanged.
    proof fn lemma_decoded_batch_t(self, shape: Seq<usize>, start: Seq<usize>, count: int)
        requires
            start.len() >= 1,
        ensures
            self.decoded_shape_t(shape, start, count).len() >= 1,
            self.decoded_shape_t(shape, start, count)[0] == start[0],
        decreases count,
    {
        if count > 0 {
            self.lemma_decoded_batch_t(shape, start, count - 1);
            self.tdecoders@[count - 1].lemma_shapes(
                self.decoded_shape_t(shape, start, count - 1),
                self.encoded_shape_t(shape, self.encoders@.len() - count)[2],
            );
        }
    }

    /// The shapes of both branches after each encoder, where all can be run.
    fn shapes_encoded(&self, shape: &[usize], shape_t: &[usize]) -> (out: Option<
        (Vec<Vec<usize>>, Vec<Vec<usize>>),
    >)
        requires
            addressable(shape@),
            addressable(shape_t@),
        ensures
            match out {
                Some((shapes, shapes_t)) => {
                    &&& self.encodes(shape@, shape_t@)
                    &&& shapes@.len() == self.encoders@.len() + 1
                    &&& shapes_t@.len() == self.encoders@.len() + 1
                    &&& forall|i: int|
                        0 <= i < shapes@.len() ==> (#[trigger] shapes@[i])@
                            == self.encoded_shape(shape@, i) && addressable(shapes@[i]@)
                    &&& forall|i: int|
                        0 <= i < shapes_t@.len() ==> (#[trigger] shapes_t@[i])@
                            == self.encoded_shape_t(shape_t@, i) && addressable(shapes_t@[i]@)
                },
                None => !self.encodes(shape@, shape_t@),
            },
    {
        let depth = self.encoders.len();
        if depth > self.tencoders.len() {
            return None;
        }
        let mut shapes: Vec<Vec<usize>> = Vec::new();
        let mut shapes_t: Vec<Vec<usize>> = Vec::new();
        shapes.push(vstd::slice::slice_to_vec(shape));
        shapes_t.push(vstd::slice::slice_to_vec(shape_t));
        let mut index: usize = 0;
        while index < depth
            invariant
                depth == self.encoders@.len(),
                depth <= self.tencoders@.len(),
                index <= depth,
                shapes@.len() == index + 1,
                shapes_t@.len() == index + 1,
                forall|i: int|
                    0 <= i <= index ==> (#[trigger] shapes@[i])@ == self.encoded_shape(shape@, i)
                        && addressable(shapes@[i]@),
                forall|i: int|
                    0 <= i <= index ==> (#[trigger] shapes_t@[i])@ == self.encoded_shape_t(
                        shape_t@,
                        i,
                    ) && addressable(shapes_t@[i]@),
                forall|i: int|
                    0 <= i < index ==> (#[trigger] self.encoders@[i]).admits(
                        self.encoded_shape(shape@, i),
                    ),
                forall|i: int|
                    0 <= i < index ==> (#[trigger] self.tencoders@[i]).admits(
                        self.encoded_shape_t(shape_t@, i),
                    ),
                index > 0 ==> self.frequency_embedding.admits(self.encoded_shape(shape@, 1)),
            decreases depth - index,
        {
            let ghost now = shapes@[index as int]@;
            let ghost now_t = shapes_t@[index as int]@;
            let next = match self.encoders[index].shape_of(shapes[index].as_slice()) {
                Some(next) => next,
                None => {
                    assert(!self.encoders@[index as int].admits(now));
                    return None;
                },
            };
            let next_t = match self.tencoders[index].shape_of(shapes_t[index].as_slice()) {
                Some(next) => next,
                None => {
                    assert(!self.tencoders@[index as int].admits(now_t));
                    return None;
                },
            };
            proof {
                self.encoders@[index as int].lemma_addressable(now);
                self.tencoders@[index as int].lemma_addressable(now_t);
                assert(next@ == self.encoded_shape(shape@, index + 1));
                assert(next_t@ == self.encoded_shape_t(shape_t@, index + 1));
            }
            if index == 0 && !self.frequency_embedding.takes(next.as_slice()) {
                return None;
            }
            shapes.push(next);
            shapes_t.push(next_t);
            index = index + 1;
        }
        Some((shapes, shapes_t))
    }

    /// The shapes of both branches after the transformer, where it can be run.
    fn shapes_crossed(&self, shape: &[usize], shape_t: &[usize]) -> (out: Option<
        (Vec<usize>, Vec<usize>),
    >)
        requires
            addressable(shape@),
            addressable(shape_t@),
        ensures
            match out {
                Some((start, start_t)) => {
                    &&& self.crosses(shape@, shape_t@)
                    &&& start@ == self.crossed_shape(shape@)
                    &&& start_t@ == self.crossed_shape_t(shape@, shape_t@)
                },
                None => !self.crosses(shape@, shape_t@),
            },
    {
        let raised_shape = match self.channel_upsampler.plane_of(shape) {
            Some(out) => out,
            None => return None,
        };
        let raised_shape_t = match self.channel_upsampler_t.shape_of(shape_t) {
            Some(out) => out,
            None => return None,
        };
        if !self.transformer.takes(raised_shape.as_slice(), raised_shape_t.as_slice()) {
            return None;
        }
        let dim = self.transformer.dim();
        let inner = vec![shape[0], dim, shape[2], shape[3]];
        let inner_t = vec![shape[0], dim, raised_shape_t[2]];
        proof {
            self.transformer.lemma_addressable(raised_shape@, raised_shape_t@);
            assert(inner@ =~= seq![shape@[0], dim, shape@[2], shape@[3]]);
            assert(inner@ =~= seq![
                raised_shape@[0],
                dim,
                raised_shape@[2],
                raised_shape@[3],
            ]);
            assert(inner_t@ =~= self.inner_shape_t(shape@, shape_t@));
        }
        let start = match self.channel_downsampler.plane_of(inner.as_slice()) {
            Some(out) => out,
            None => return None,
        };
        match self.channel_downsampler_t.shape_of(inner_t.as_slice()) {
            Some(start_t) => {
                proof {
                    assert(start@ =~= self.crossed_shape(shape@));
                }
                Some((start, start_t))
            },
            None => None,
        }
    }

    /// Whether the frequency decoders can be run from `start` on.
    fn takes_freq(
        &self,
        shapes: &Vec<Vec<usize>>,
        start: &[usize],
        shape: Ghost<Seq<usize>>,
    ) -> (can: bool)
        requires
            shapes@.len() == self.encoders@.len() + 1,
            forall|i: int|
                0 <= i < shapes@.len() ==> (#[trigger] shapes@[i])@ == self.encoded_shape(
                    shape@,
                    i,
                ),
            forall|i: int| 0 <= i < shapes@.len() ==> (#[trigger] shapes@[i])@.len() >= 3,
        ensures
            can == self.decodes_freq(shape@, start@),
    {
        let depth = self.encoders.len();
        let count = self.decoders.len();
        if count > depth {
            return false;
        }
        let mut current = vstd::slice::slice_to_vec(start);
        let mut index: usize = 0;
        while index < count
            invariant
                depth == self.encoders@.len(),
                count == self.decoders@.len(),
                count <= depth,
                index <= count,
                shapes@.len() == depth + 1,
                forall|i: int|
                    0 <= i < shapes@.len() ==> (#[trigger] shapes@[i])@ == self.encoded_shape(
                        shape@,
                        i,
                    ),
                forall|i: int| 0 <= i < shapes@.len() ==> (#[trigger] shapes@[i])@.len() >= 3,
                current@ == self.decoded_shape(shape@, start@, index as int),
                forall|i: int|
                    0 <= i < index ==> #[trigger] self.decodes_freq_at(shape@, start@, i),
            decreases count - index,
        {
            let level = depth - 1 - index;
            assert(shapes@[level as int]@.len() >= 3);
            let length = shapes[level][2];
            let next = if same_shape(current.as_slice(), shapes[level + 1].as_slice()) {
                self.decoders[index].shape_of(current.as_slice(), length)
            } else {
                None
            };
            proof {
                assert(shapes@[level + 1]@ == self.encoded_shape(shape@, level + 1));
                assert(shapes@[level as int]@ == self.encoded_shape(shape@, level as int));
                assert(next is Some <==> self.decodes_freq_at(shape@, start@, index as int));
            }
            match next {
                Some(next) => {
                    current = next;
                },
                None => return false,
            }
            index = index + 1;
        }
        true
    }

    /// Whether the time decoders can be run from `start` on.
    fn takes_time(
        &self,
        shapes: &Vec<Vec<usize>>,
        start: &[usize],
        shape: Ghost<Seq<usize>>,
    ) -> (can: bool)
        requires
            shapes@.len() == self.encoders@.len() + 1,
            forall|i: int|
                0 <= i < shapes@.len() ==> (#[trigger] shapes@[i])@ == self.encoded_shape_t(
                    shape@,
                    i,
                ),
            forall|i: int| 0 <= i < shapes@.len() ==> (#[trigger] shapes@[i])@.len() >= 3,
        ensures
            can == self.decodes_time(shape@, start@),
    {
        let depth = self.encoders.len();
        let count = self.decoders.len();
        if count > depth || count > self.tdecoders.len() {
            return false;
        }
        let mut current = vstd::slice::slice_to_vec(start);
        let mut index: usize = 0;
        while index < count
            invariant
                depth == self.encoders@.len(),
                count == self.decoders@.len(),
                count <= depth,
                count <= self.tdecoders@.len(),
                index <= count,
                shapes@.len() == depth + 1,
                forall|i: int|
                    0 <= i < shapes@.len() ==> (#[trigger] shapes@[i])@ == self.encoded_shape_t(
                        shape@,
                        i,
                    ),
                forall|i: int| 0 <= i < shapes@.len() ==> (#[trigger] shapes@[i])@.len() >= 3,
                current@ == self.decoded_shape_t(shape@, start@, index as int),
                forall|i: int|
                    0 <= i < index ==> #[trigger] self.decodes_time_at(shape@, start@, i),
            decreases count - index,
        {
            let level = depth - 1 - index;
            assert(shapes@[level as int]@.len() >= 3);
            let length = shapes[level][2];
            let next = if same_shape(current.as_slice(), shapes[level + 1].as_slice()) {
                self.tdecoders[index].shape_of(current.as_slice(), length)
            } else {
                None
            };
            proof {
                assert(shapes@[level + 1]@ == self.encoded_shape_t(shape@, level + 1));
                assert(shapes@[level as int]@ == self.encoded_shape_t(shape@, level as int));
                assert(next is Some <==> self.decodes_time_at(shape@, start@, index as int));
            }
            match next {
                Some(next) => {
                    current = next;
                },
                None => return false,
            }
            index = index + 1;
        }
        true
    }

    /// Whether the network can be computed on a spectrogram and a waveform of
    /// these shapes.
    pub fn takes(&self, shape: &[usize], shape_t: &[usize]) -> (can: bool)
        ensures
            can ==> self.admits(shape@, shape_t@),
            addressable(shape@) && addressable(shape_t@) && self.admits(shape@, shape_t@) ==> can,
    {
        proof {
            reveal(HtDemucs::admits);
        }
        if shape.len() != 4 || shape_t.len() != 3 || shape[0] != shape_t[0] || !is_addressable(
            shape,
        ) || !is_addressable(shape_t) {
            return false;
        }
        let (shapes, shapes_t) = match self.shapes_encoded(shape, shape_t) {
            Some(shapes) => shapes,
            None => return false,
        };
        let depth = self.encoders.len();
        let (start, start_t) = match self.shapes_crossed(
            shapes[depth].as_slice(),
            shapes_t[depth].as_slice(),
        ) {
            Some(starts) => starts,
            None => return false,
        };
        proof {
            assert forall|i: int| 0 <= i < shapes@.len() implies (#[trigger] shapes@[i])@.len()
                >= 3 by {
                if i > 0 {
                    self.encoders@[i - 1].lemma_shapes(self.encoded_shape(shape@, i - 1));
                }
            }
            assert forall|i: int| 0 <= i < shapes_t@.len() implies (
            #[trigger] shapes_t@[i])@.len() >= 3 by {
                if i > 0 {
                    self.tencoders@[i - 1].lemma_shapes(self.encoded_shape_t(shape_t@, i - 1));
                }
            }
        }
        self.takes_freq(&shapes, start.as_slice(), Ghost(shape@)) && self.takes_time(
            &shapes_t,
            start_t.as_slice(),
            Ghost(shape_t@),
        )
    }

    fn cross(&self, x: &Tensor<A::Real>, xt: &Tensor<A::Real>) -> (out: (
        Tensor<A::Real>,
        Tensor<A::Real>,
    ))
        requires
            lawful::<A>(),
            x.wf(),
            xt.wf(),
            self.crosses(x@.shape, xt@.shape),
        ensures
            (out.0@, out.1@) == self.crossed(x@, xt@),
            out.0@.shape == self.crossed_shape(x@.shape),
            out.1@.shape == self.crossed_shape_t(x@.shape, xt@.shape),
            out.0.wf(),
            out.1.wf(),
    {
        let raised = self.channel_upsampler.forward_plane(x);
        let raised_t = self.channel_upsampler_t.forward(xt);
        let (a, b) = self.transformer.forward(&raised, &raised_t);
        let lowered = self.channel_downsampler.forward_plane(&a);
        let lowered_t = self.channel_downsampler_t.forward(&b);
        (lowered, lowered_t)
    }

    fn encode(&self, first: &Tensor<A::Real>, first_t: &Tensor<A::Real>) -> (out: Skips<A>)
        requires
            lawful::<A>(),
            first.wf(),
            first_t.wf(),
            self.encodes(first@.shape, first_t@.shape),
        ensures
            out.hold(*self, first@, first_t@, self.encoders@.len() as int),
            out.x.wf(),
            out.xt.wf(),
            out.x@ == self.encoded(first@, self.encoders@.len() as int),
            out.xt@ == self.encoded_t(first_t@, self.encoders@.len() as int),
            out.x@.shape == self.encoded_shape(first@.shape, self.encoders@.len() as int),
            out.xt@.shape == self.encoded_shape_t(first_t@.shape, self.encoders@.len() as int),
    {
        let depth = self.encoders.len();
        let mut out = Skips {
            x: first.clone(),
            xt: first_t.clone(),
            saved: Vec::new(),
            saved_t: Vec::new(),
            lengths: Vec::new(),
            lengths_t: Vec::new(),
        };
        let mut index: usize = 0;
        while index < depth
            invariant
                lawful::<A>(),
                depth == self.encoders@.len(),
                self.encodes(first@.shape, first_t@.shape),
                index <= depth,
                out.hold(*self, first@, first_t@, index as int),
                out.x.wf(),
                out.xt.wf(),
                out.x@ == self.encoded(first@, index as int),
                out.xt@ == self.encoded_t(first_t@, index as int),
                out.x@.shape == self.encoded_shape(first@.shape, index as int),
                out.xt@.shape == self.encoded_shape_t(first_t@.shape, index as int),
            decreases depth - index,
        {
            proof {
                assert(self.encoders@[index as int].admits(out.x@.shape));
                assert(self.tencoders@[index as int].admits(out.xt@.shape));
                self.encoders@[index as int].lemma_shapes(out.x@.shape);
                self.tencoders@[index as int].lemma_shapes(out.xt@.shape);
            }
            out.lengths.push(out.x.shape[2]);
            out.lengths_t.push(out.xt.shape[2]);
            out.xt = self.tencoders[index].forward(&out.xt);
            out.saved_t.push(out.xt.clone());
            out.x = self.encoders[index].forward(&out.x);
            if index == 0 {
                out.x = self.frequency_embedding.apply(&out.x, A::literal(1, 5));
            }
            out.saved.push(out.x.clone());
            index = index + 1;
        }
        out
    }

    fn decode(&self, start: &Tensor<A::Real>, skips: &Skips<A>, first: Ghost<Grid<A::Real>>) -> (
        out: Tensor<A::Real>)
        requires
            lawful::<A>(),
            start.wf(),
            skips.hold_freq(*self, first@, self.encoders@.len() as int),
            self.decodes_freq(first@.shape, start@.shape),
        ensures
            out@ == self.decoded(first@, start@, self.decoders@.len() as int),
            out@.shape == self.decoded_shape(
                first@.shape,
                start@.shape,
                self.decoders@.len() as int,
            ),
            out.wf(),
    {
        let depth = self.encoders.len();
        let count = self.decoders.len();
        let mut x = start.clone();
        let mut index: usize = 0;
        while index < count
            invariant
                lawful::<A>(),
                depth == self.encoders@.len(),
                count == self.decoders@.len(),
                skips.hold_freq(*self, first@, depth as int),
                self.decodes_freq(first@.shape, start@.shape),
                index <= count,
                x.wf(),
                x@ == self.decoded(first@, start@, index as int),
                x@.shape == self.decoded_shape(first@.shape, start@.shape, index as int),
            decreases count - index,
        {
            let level = depth - 1 - index;
            proof {
                assert(self.decodes_freq_at(first@.shape, start@.shape, index as int));
                assert(self.decoders@[index as int].admits(
                    x@.shape,
                    skips.lengths@[level as int],
                ));
                assert(depth - index == level + 1);
                assert(skips.saved@[level as int]@.shape == x@.shape);
            }
            x = self.decoders[index].forward(&x, &skips.saved[level], skips.lengths[level]);
            index = index + 1;
        }
        x
    }

    fn decode_t(&self, start: &Tensor<A::Real>, skips: &Skips<A>, first: Ghost<Grid<A::Real>>) -> (
        out: Tensor<A::Real>)
        requires
            lawful::<A>(),
            start.wf(),
            skips.hold_time(*self, first@, self.encoders@.len() as int),
            self.decodes_time(first@.shape, start@.shape),
        ensures
            out@ == self.decoded_t(first@, start@, self.decoders@.len() as int),
            out@.shape == self.decoded_shape_t(
                first@.shape,
                start@.shape,
                self.decoders@.len() as int,
            ),
            out.wf(),
    {
        let depth = self.encoders.len();
        let count = self.decoders.len();
        let mut x = start.clone();
        let mut index: usize = 0;
        while index < count
            invariant
                lawful::<A>(),
                depth == self.encoders@.len(),
                count == self.decoders@.len(),
                skips.hold_time(*self, first@, depth as int),
                self.decodes_time(first@.shape, start@.shape),
                index <= count,
                x.wf(),
                x@ == self.decoded_t(first@, start@, index as int),
                x@.shape == self.decoded_shape_t(first@.shape, start@.shape, index as int),
            decreases count - index,
        {
            let level = depth - 1 - index;
            proof {
                assert(self.decodes_time_at(first@.shape, start@.shape, index as int));
                assert(self.tdecoders@[index as int].admits(
                    x@.shape,
                    skips.lengths_t@[level as int],
                ));
                assert(depth - index == level + 1);
                assert(skips.saved_t@[level as int]@.shape == x@.shape);
            }
            x = self.tdecoders[index].forward(&x, &skips.saved_t[level], skips.lengths_t[level]);
            index = index + 1;
        }
        x
    }

    /// Runs the network. `magnitude` is `[B, 4, Fr, T]`, complex parts as
    /// channels, `waveform` is `[B, 2, N]`.
    pub fn forward(&self, magnitude: &Tensor<A::Real>, waveform: &Tensor<A::Real>) -> (out: (
        Tensor<A::Real>,
        Tensor<A::Real>,
    ))
        requires
            lawful::<A>(),
            magnitude.wf(),
            waveform.wf(),
            self.admits(magnitude@.shape, waveform@.shape),
        ensures
            (out.0@, out.1@) == self.output(magnitude@, waveform@),
            (out.0@.shape, out.1@.shape) == self.out_shapes(magnitude@.shape, waveform@.shape),
            out.0.wf(),
            out.1.wf(),
    {
        proof {
            reveal(HtDemucs::admits);
            reveal(HtDemucs::output);
            reveal(HtDemucs::out_shapes);
        }
        let (first, moments) = normalise::<A>(magnitude);
        let (first_t, moments_t) = normalise::<A>(waveform);
        let skips = self.encode(&first, &first_t);
        let (start, start_t) = self.cross(&skips.x, &skips.xt);
        let x = self.decode(&start, &skips, Ghost(first@));
        let xt = self.decode_t(&start_t, &skips, Ghost(first_t@));
        proof {
            let shape = magnitude@.shape;
            let depth = self.encoders@.len() as int;
            let count = self.decoders@.len() as int;
            self.lemma_encoded_batch(shape, depth);
            self.lemma_decoded_batch(shape, start@.shape, count);
            self.lemma_decoded_batch_t(waveform@.shape, start_t@.shape, count);
        }
        let out = denormalise::<A>(&x, moments.as_slice());
        let out_t = denormalise::<A>(&xt, moments_t.as_slice());
        (out, out_t)
    }
}

/// The deepest activations, and what the decoders take from the encoders: the
/// output of each, and the length of its input.
pub struct Skips<A: Arithmetic> {
    pub x: Tensor<A::Real>,
    pub xt: Tensor<A::Real>,
    pub saved: Vec<Tensor<A::Real>>,
    pub saved_t: Vec<Tensor<A::Real>>,
    pub lengths: Vec<usize>,
    pub lengths_t: Vec<usize>,
}

impl<A: Arithmetic> Skips<A> {
    /// Whether the first `count` frequency encoders are recorded.
    pub open spec fn hold_freq(self, model: HtDemucs<A>, x: Grid<A::Real>, count: int) -> bool {
        &&& self.saved@.len() == count
        &&& self.lengths@.len() == count
        &&& forall|j: int|
            0 <= j < count ==> {
                &&& (#[trigger] self.saved@[j]).wf()
                &&& self.saved@[j]@ == model.encoded(x, j + 1)
                &&& self.saved@[j]@.shape == model.encoded_shape(x.shape, j + 1)
            }
        &&& forall|j: int|
            0 <= j < count ==> {
                &&& #[trigger] self.lengths@[j] == model.encoded(x, j).shape[2]
                &&& self.lengths@[j] == model.encoded_shape(x.shape, j)[2]
            }
    }

    /// Whether the first `count` time encoders are recorded.
    pub open spec fn hold_time(self, model: HtDemucs<A>, xt: Grid<A::Real>, count: int) -> bool {
        &&& self.saved_t@.len() == count
        &&& self.lengths_t@.len() == count
        &&& forall|j: int|
            0 <= j < count ==> {
                &&& (#[trigger] self.saved_t@[j]).wf()
                &&& self.saved_t@[j]@ == model.encoded_t(xt, j + 1)
                &&& self.saved_t@[j]@.shape == model.encoded_shape_t(xt.shape, j + 1)
            }
        &&& forall|j: int|
            0 <= j < count ==> {
                &&& #[trigger] self.lengths_t@[j] == model.encoded_t(xt, j).shape[2]
                &&& self.lengths_t@[j] == model.encoded_shape_t(xt.shape, j)[2]
            }
    }

    /// Whether the first `count` encoders of both branches are recorded.
    pub open spec fn hold(
        self,
        model: HtDemucs<A>,
        x: Grid<A::Real>,
        xt: Grid<A::Real>,
        count: int,
    ) -> bool {
        &&& self.hold_freq(model, x, count)
        &&& self.hold_time(model, xt, count)
    }
}

/// A kernel of one tap, or of three with a margin of one, keeps an extent.
proof fn lemma_kept(extent: int)
    ensures
        steps(extent, 1, 1, 0, 1) == extent,
        steps(extent, 3, 1, 1, 1) == extent,
{
    assert(reach(1, 1) == 1 && reach(3, 1) == 3);
    assert((extent - 1) / 1 == extent - 1);
}

/// The extents of a frequency encoder's output.
proof fn lemma_freq_encoder<A: Arithmetic>(layer: EncLayer<A>, shape: Seq<usize>)
    requires
        layer.freq,
        layer.admits(shape),
    ensures
        layer.out_shape(shape) == seq![
            shape[0],
            layer.channels(),
            (shape[2] as int / 4) as usize,
            shape[3],
        ],
        shape[2] as int / 4 >= 1,
{
    reveal(EncLayer::admits);
    reveal(EncLayer::out_shape);
    let window = frequency_window();
    let strided = layer.strided_shape(shape);
    assert(reach(8, 1) == 8 && reach(1, 1) == 1);
    assert(window.height(shape[2]) == (shape[2] + 4 - 8) / 4 + 1);
    lemma_kept(shape[3] as int);
    lemma_kept(strided[2] as int);
    lemma_kept(strided[3] as int);
    assert(layer.out_shape(shape) =~= seq![
        shape[0],
        layer.channels(),
        (shape[2] as int / 4) as usize,
        shape[3],
    ]);
}

/// The extents of a frequency decoder's output.
proof fn lemma_freq_decoder<A: Arithmetic>(layer: DecLayer<A>, shape: Seq<usize>, length: usize)
    requires
        layer.freq,
        layer.pad == 2,
        layer.admits(shape, length),
    ensures
        layer.out_shape(shape, length) == seq![
            shape[0],
            layer.channels(),
            (4 * shape[2]) as usize,
            shape[3],
        ],
{
    reveal(DecLayer::admits);
    reveal(DecLayer::out_shape);
    lemma_kept(shape[2] as int);
    lemma_kept(shape[3] as int);
    let gated = layer.gated_shape(shape);
    assert(gated[2] == shape[2] && gated[3] == shape[3]);
    assert((gated[2] - 1) * 4 + 8 == 4 * gated[2] + 4 && (gated[3] - 1) * 1 + 1 == gated[3]);
    assert(layer.out_shape(shape, length) =~= seq![
        shape[0],
        layer.channels(),
        (4 * shape[2]) as usize,
        shape[3],
    ]);
}

/// The extents of a time decoder's output.
proof fn lemma_time_decoder<A: Arithmetic>(layer: DecLayer<A>, shape: Seq<usize>, length: usize)
    requires
        !layer.freq,
        layer.admits(shape, length),
    ensures
        layer.out_shape(shape, length) == seq![shape[0], layer.channels(), length],
{
    reveal(DecLayer::admits);
    reveal(DecLayer::out_shape);
    assert(layer.out_shape(shape, length) =~= seq![shape[0], layer.channels(), length]);
}

/// The network gives back the extents that it was given: the frames and, where
/// it is a multiple of four, the height of the spectrogram, and the length of
/// the waveform. The channels are those of the last decoders.
pub proof fn law_outputs_have_the_extents_of_the_inputs<A: Arithmetic>(
    model: HtDemucs<A>,
    store: Store,
    shape: Seq<usize>,
    shape_t: Seq<usize>,
)
    requires
        model.is_from(store),
        model.admits(shape, shape_t),
    ensures
        model.out_shapes(shape, shape_t).0 == seq![
            shape[0],
            model.decoders@[3].channels(),
            (4 * (shape[2] as int / 4)) as usize,
            shape[3],
        ],
        model.out_shapes(shape, shape_t).1 == seq![
            shape_t[0],
            model.tdecoders@[3].channels(),
            shape_t[2],
        ],
        shape[2] % 4 == 0 ==> model.out_shapes(shape, shape_t).0[2] == shape[2],
{
    reveal(HtDemucs::is_from);
    reveal(HtDemucs::admits);
    reveal(HtDemucs::out_shapes);
    let deep = model.encoded_shape(shape, 4);
    let deep_t = model.encoded_shape_t(shape_t, 4);
    let start = model.crossed_shape(deep);
    let start_t = model.crossed_shape_t(deep, deep_t);
    assert(level_is_from::<A>(
        model.encoders@[0],
        model.tencoders@[0],
        model.decoders@[0],
        model.tdecoders@[0],
        store,
        0,
    ));
    assert(level_is_from::<A>(
        model.encoders@[3],
        model.tencoders@[3],
        model.decoders@[3],
        model.tdecoders@[3],
        store,
        3,
    ));
    assert(model.encoders@[0].admits(model.encoded_shape(shape, 0)));
    assert(model.tencoders@[0].admits(model.encoded_shape_t(shape_t, 0)));
    lemma_freq_encoder::<A>(model.encoders@[0], shape);
    assert(model.encoded_shape(shape, 1) == model.encoders@[0].out_shape(shape));
    assert(model.encoded_shape_t(shape_t, 1) == model.tencoders@[0].out_shape(shape_t));
    model.tencoders@[0].lemma_shapes(shape_t);
    assert(model.decodes_freq_at(shape, start, 3));
    assert(model.decodes_time_at(shape_t, start_t, 3));
    lemma_freq_decoder::<A>(model.decoders@[3], model.encoded_shape(shape, 1), shape[2]);
    lemma_time_decoder::<A>(model.tdecoders@[3], model.encoded_shape_t(shape_t, 1), shape_t[2]);
    assert(model.out_shapes(shape, shape_t).0 =~= seq![
        shape[0],
        model.decoders@[3].channels(),
        (4 * (shape[2] as int / 4)) as usize,
        shape[3],
    ]);
}

} // verus!
