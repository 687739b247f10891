//! The network and its layers, on bundles made up here.

use sha2::Digest;
use stemsplits::arithmetic::Arithmetic;
use stemsplits::dconv::DConv;
use stemsplits::decoder::DecLayer;
use stemsplits::encoder::{EncLayer, FrequencyEmbedding};
use stemsplits::model::HtDemucs;
use stemsplits::ops::{
    conv1d, conv2d, conv_transpose1d, gelu, glu, group_norm, layer_scale, sum,
};
use stemsplits::layers::AttentionWeights;
use stemsplits::layout::{crop_time, pad_time};
use stemsplits::parameters::Affine;
use stemsplits::separate::{spectrum, Separation, PLANE, SEGMENT};
use stemsplits::tensor::Tensor;
use stemsplits::transformer::CrossTransformer;
use stemsplits::weights::{Bundle, TensorMeta, Weights, WeightsMeta};

struct Float;

impl Arithmetic for Float {
    type Real = f32;
    type Wide = f64;

    fn zero() -> f32 {
        0.0
    }
    fn one() -> f32 {
        1.0
    }
    fn lowest() -> f32 {
        f32::MIN
    }
    fn frac_1_sqrt_2() -> f32 {
        std::f32::consts::FRAC_1_SQRT_2
    }
    fn literal(numerator: u32, denominator: u32) -> f32 {
        (numerator as f64 / denominator as f64) as f32
    }
    fn from_bits(bits: u32) -> f32 {
        f32::from_bits(bits)
    }
    fn from_count(count: usize) -> f32 {
        count as f32
    }
    fn plus(a: f32, b: f32) -> f32 {
        a + b
    }
    fn minus(a: f32, b: f32) -> f32 {
        a - b
    }
    fn times(a: f32, b: f32) -> f32 {
        a * b
    }
    fn over(a: f32, b: f32) -> f32 {
        a / b
    }
    fn larger(a: f32, b: f32) -> f32 {
        a.max(b)
    }
    fn power(base: f32, exponent: f32) -> f32 {
        base.powf(exponent)
    }
    fn negated(a: f32) -> f32 {
        -a
    }
    fn exponential(a: f32) -> f32 {
        a.exp()
    }
    fn logarithm(a: f32) -> f32 {
        a.ln()
    }
    fn square_root(a: f32) -> f32 {
        a.sqrt()
    }
    fn sine(a: f32) -> f32 {
        a.sin()
    }
    fn cosine(a: f32) -> f32 {
        a.cos()
    }
    fn error_function(a: f32) -> f32 {
        libm::erff(a)
    }
    fn exceeds(a: f32, b: f32) -> bool {
        a > b
    }
    fn wide_zero() -> f64 {
        0.0
    }
    fn wide_count(count: usize) -> f64 {
        count as f64
    }
    fn widen(a: f32) -> f64 {
        a as f64
    }
    fn narrow(a: f64) -> f32 {
        a as f32
    }
    fn wide_plus(a: f64, b: f64) -> f64 {
        a + b
    }
    fn wide_minus(a: f64, b: f64) -> f64 {
        a - b
    }
    fn wide_times(a: f64, b: f64) -> f64 {
        a * b
    }
    fn wide_over(a: f64, b: f64) -> f64 {
        a / b
    }
    fn wide_square(a: f64) -> f64 {
        a.powi(2)
    }
    fn wide_square_root(a: f64) -> f64 {
        a.sqrt()
    }
    fn wide_exceeds(a: f64, b: f64) -> bool {
        a > b
    }
}

/// Names and shapes of tensors.
struct Manifest {
    tensors: Vec<(String, Vec<usize>)>,
}

impl Manifest {
    fn new() -> Self {
        Manifest { tensors: Vec::new() }
    }

    fn add(&mut self, name: String, shape: Vec<usize>) {
        self.tensors.push((name, shape));
    }

    fn affine(&mut self, prefix: &str, shape: Vec<usize>) {
        let outs = shape[0];
        self.add(format!("{prefix}.weight"), shape);
        self.add(format!("{prefix}.bias"), vec![outs]);
    }

    fn norm(&mut self, prefix: &str, channels: usize) {
        self.affine(prefix, vec![channels]);
    }

    fn dconv(&mut self, prefix: &str, channels: usize, compress: usize, depth: usize) {
        let hidden = channels / compress;
        for index in 0..depth {
            let base = format!("{prefix}.layers.{index}");
            self.affine(&format!("{base}.0"), vec![hidden, channels, 3]);
            self.norm(&format!("{base}.1"), hidden);
            self.affine(&format!("{base}.3"), vec![2 * channels, hidden, 1]);
            self.norm(&format!("{base}.4"), 2 * channels);
            self.add(format!("{base}.6.scale"), vec![channels]);
        }
    }

    fn encoder(&mut self, prefix: &str, chin: usize, chout: usize, freq: bool) {
        let mut taps = vec![chout, chin, 8];
        let mut point = vec![2 * chout, chout, 1];
        if freq {
            taps.push(1);
            point.push(1);
        }
        self.affine(&format!("{prefix}.conv"), taps);
        self.dconv(&format!("{prefix}.dconv"), chout, 8, 2);
        self.affine(&format!("{prefix}.rewrite"), point);
    }

    fn decoder(&mut self, prefix: &str, chin: usize, chout: usize, freq: bool) {
        let mut taps = vec![chin, chout, 8];
        let mut wide = vec![2 * chin, chin, 3];
        if freq {
            taps.push(1);
            wide.push(3);
        }
        self.add(format!("{prefix}.conv_tr.weight"), taps);
        self.add(format!("{prefix}.conv_tr.bias"), vec![chout]);
        self.dconv(&format!("{prefix}.dconv"), chin, 8, 2);
        self.affine(&format!("{prefix}.rewrite"), wide);
    }

    fn transformer(&mut self, prefix: &str, dim: usize, hidden: usize) {
        self.norm(&format!("{prefix}.norm_in"), dim);
        self.norm(&format!("{prefix}.norm_in_t"), dim);
        for index in 0..5 {
            for branch in ["layers", "layers_t"] {
                let base = format!("{prefix}.{branch}.{index}");
                self.affine(&format!("{base}.linear1"), vec![hidden, dim]);
                self.affine(&format!("{base}.linear2"), vec![dim, hidden]);
                self.add(format!("{base}.gamma_1.scale"), vec![dim]);
                self.add(format!("{base}.gamma_2.scale"), vec![dim]);
                self.norm(&format!("{base}.norm1"), dim);
                self.norm(&format!("{base}.norm2"), dim);
                if index % 2 == 1 {
                    self.norm(&format!("{base}.norm3"), dim);
                }
                self.norm(&format!("{base}.norm_out"), dim);
                let attention = if index % 2 == 0 { "self_attn" } else { "cross_attn" };
                self.add(format!("{base}.{attention}.in_proj_weight"), vec![3 * dim, dim]);
                self.add(format!("{base}.{attention}.in_proj_bias"), vec![3 * dim]);
                self.affine(&format!("{base}.{attention}.out_proj"), vec![dim, dim]);
            }
        }
    }

    /// All of the network, with a transformer of this width over this many
    /// frequencies after the first encoder.
    fn network(dim: usize, hidden: usize, frequencies: usize) -> Self {
        let mut all = Manifest::new();
        let channels = [48, 96, 192, 384];
        for index in 0..4 {
            let chin = if index == 0 { 4 } else { channels[index - 1] };
            let chin_t = if index == 0 { 2 } else { channels[index - 1] };
            all.encoder(&format!("encoder.{index}"), chin, channels[index], true);
            all.encoder(&format!("tencoder.{index}"), chin_t, channels[index], false);
            let deep = channels[3 - index];
            let out = if index == 3 { 16 } else { channels[2 - index] };
            let out_t = if index == 3 { 8 } else { channels[2 - index] };
            all.decoder(&format!("decoder.{index}"), deep, out, true);
            all.decoder(&format!("tdecoder.{index}"), deep, out_t, false);
        }
        all.add("freq_emb.embedding.weight".to_string(), vec![frequencies, 48]);
        all.affine("channel_upsampler", vec![dim, 384, 1]);
        all.affine("channel_upsampler_t", vec![dim, 384, 1]);
        all.affine("channel_downsampler", vec![384, dim, 1]);
        all.affine("channel_downsampler_t", vec![384, dim, 1]);
        all.transformer("crosstransformer", dim, hidden);
        all
    }

    /// A bundle in which every tensor starts at the start of one blob.
    fn open(self, bytes: Vec<u8>) -> Weights {
        self.open_with(bytes, Vec::new())
    }

    /// The same with these tensors after the others.
    fn open_with(self, bytes: Vec<u8>, more: Vec<TensorMeta>) -> Weights {
        let tensors = self
            .tensors
            .into_iter()
            .map(|(name, shape)| TensorMeta {
                count: shape.iter().product(),
                name,
                shape,
                dtype: "f32".to_string(),
                offset: 0,
            })
            .chain(more)
            .collect();
        let sha256 = sha2::Sha256::digest(&bytes).iter().map(|b| format!("{b:02x}")).collect();
        let bundle = Bundle {
            format: "stemsplits-bundle".to_string(),
            version: 1,
            model: "htdemucs".to_string(),
            checkpoint: "test".to_string(),
            config: serde_json::Value::Null,
            weights: WeightsMeta {
                file: "weights.f32".to_string(),
                dtype: "f32".to_string(),
                byte_length: bytes.len(),
                sha256,
            },
            tensors,
        };
        Weights::open("bundle".into(), Bundle::from_json(Some(bundle)).unwrap(), bytes)
            .unwrap()
    }

    fn largest(&self) -> usize {
        self.tensors.iter().map(|(_, shape)| shape.iter().product()).max().unwrap()
    }
}

/// A blob of small values, none alike its neighbour.
fn ripple(count: usize) -> Vec<u8> {
    (0..count)
        .flat_map(|i| (((i * 7919) % 101) as f32 / 101.0 - 0.4).to_le_bytes())
        .collect()
}

fn values(count: usize) -> Vec<f32> {
    (0..count).map(|i| ((i * 31) % 17) as f32 / 17.0 - 0.5).collect()
}

fn stored(weights: &Weights, name: &str) -> Vec<f32> {
    weights.tensor(name).unwrap().data().iter().map(|bits| f32::from_bits(*bits)).collect()
}

/// One layer of the residual branch, step by step.
fn layer_by_steps(weights: &Weights, base: &str, x: &Tensor<f32>, index: usize) -> Tensor<f32> {
    let get = |name: &str| stored(weights, &format!("{base}.{name}"));
    let hidden = get("0.bias").len();
    let channels = get("6.scale").len();
    let d = 1 << index;
    let y = conv1d::<Float>(x, &get("0.weight"), &get("0.bias"), hidden, 3, 1, d, d);
    let y = gelu::<Float>(&group_norm::<Float>(&y, 1, &get("1.weight"), &get("1.bias"), 1e-5));
    let y = conv1d::<Float>(&y, &get("3.weight"), &get("3.bias"), 2 * channels, 1, 1, 0, 1);
    let y = glu::<Float>(&group_norm::<Float>(&y, 1, &get("4.weight"), &get("4.bias"), 1e-5));
    sum::<Float>(x, &layer_scale::<Float>(&y, &get("6.scale")))
}

#[test]
fn the_residual_branch_is_its_layers_in_turn() {
    let mut manifest = Manifest::new();
    manifest.dconv("d", 8, 4, 2);
    let count = manifest.largest();
    let weights = manifest.open(ripple(count));
    let branch = DConv::<Float>::load(&weights, "d", 8, 4, 2).unwrap();
    assert_eq!(branch.layers.len(), 2);
    assert_eq!((branch.layers[0].dilation, branch.layers[1].dilation), (1, 2));
    assert_eq!(branch.layers[0].hidden, 2);
    let x = Tensor::new(vec![2, 8, 5], values(80));
    assert!(branch.takes(&x.shape));
    assert!(!branch.takes(&[2, 7, 5]));
    assert!(!branch.takes(&[2, 8, 0]));
    let expected = layer_by_steps(&weights, "d.layers.0", &x, 0);
    let expected = layer_by_steps(&weights, "d.layers.1", &expected, 1);
    assert_eq!(branch.forward(&x), expected);
    let empty = DConv::<Float>::load(&weights, "nowhere", 8, 4, 0).unwrap();
    assert_eq!(empty.forward(&x), x);
}

#[test]
fn loading_complains_of_the_first_missing_weight() {
    let mut manifest = Manifest::new();
    manifest.dconv("d", 8, 4, 1);
    let count = manifest.largest();
    let weights = manifest.open(ripple(count));
    match DConv::<Float>::load(&weights, "d", 8, 4, 2) {
        Err(error) => assert_eq!(error.message, "missing weight d.layers.1.0.weight"),
        Ok(_) => panic!("the second layer is not there"),
    }
    match EncLayer::<Float>::load(&weights, "encoder.0", true, 8, 4, 1) {
        Err(error) => assert_eq!(error.message, "missing weight encoder.0.conv.weight"),
        Ok(_) => panic!("there is no encoder"),
    }
    match DecLayer::<Float>::load(&weights, "decoder.0", true, false, 8, 4, 1) {
        Err(error) => assert_eq!(error.message, "missing weight decoder.0.conv_tr.weight"),
        Ok(_) => panic!("there is no decoder"),
    }
    match FrequencyEmbedding::<Float>::load(&weights, 10.0) {
        Err(error) => assert_eq!(error.message, "missing freq_emb.embedding.weight"),
        Ok(_) => panic!("there is no embedding"),
    }
    match CrossTransformer::<Float>::load(&weights, "t", 8, 10_000.0, 1.0) {
        Err(error) => assert_eq!(error.message, "missing transformer norm_in"),
        Ok(_) => panic!("there is no transformer"),
    }
    match HtDemucs::<Float>::load(&weights) {
        Err(error) => assert_eq!(error.message, "missing weight encoder.0.conv.weight"),
        Ok(_) => panic!("there is no network"),
    }
}

#[test]
fn the_network_complains_in_loading_order() {
    let mut manifest = Manifest::network(8, 4, 64);
    manifest.tensors.retain(|(name, _)| !name.starts_with("channel_upsampler_t"));
    let count = manifest.largest();
    let weights = manifest.open(vec![0; 4 * count]);
    assert!(HtDemucs::<Float>::can_load(&weights));
    match HtDemucs::<Float>::load(&weights) {
        Err(error) => assert_eq!(error.message, "missing channel_upsampler_t.weight"),
        Ok(_) => panic!("an upsampler is not there"),
    }
}

#[test]
fn a_time_encoder_pads_to_a_multiple_of_four() {
    let mut manifest = Manifest::new();
    manifest.encoder("e", 2, 8, false);
    let count = manifest.largest();
    let weights = manifest.open(ripple(count));
    let layer = EncLayer::<Float>::load(&weights, "e", false, 8, 8, 2).unwrap();
    let x = Tensor::new(vec![1, 2, 10], values(20));
    assert_eq!(layer.shape_of(&x.shape), Some(vec![1, 8, 3]));
    assert_eq!(layer.shape_of(&[1, 3, 10]), None);
    let mut padded = Vec::new();
    for row in x.data.chunks(10) {
        padded.extend_from_slice(row);
        padded.extend_from_slice(&[0.0, 0.0]);
    }
    let padded = Tensor::new(vec![1, 2, 12], padded);
    let get = |name: &str| stored(&weights, &format!("e.{name}"));
    let y = conv1d::<Float>(&padded, &get("conv.weight"), &get("conv.bias"), 8, 8, 4, 2, 1);
    let y = gelu::<Float>(&y);
    let y = layer_by_steps(&weights, "e.dconv.layers.0", &y, 0);
    let y = layer_by_steps(&weights, "e.dconv.layers.1", &y, 1);
    let z = conv1d::<Float>(&y, &get("rewrite.weight"), &get("rewrite.bias"), 16, 1, 1, 0, 1);
    let out = layer.forward(&x);
    assert_eq!(out.shape, vec![1, 8, 3]);
    assert_eq!(out, glu::<Float>(&z));
}

#[test]
fn a_frequency_encoder_runs_the_branch_per_frequency() {
    let mut manifest = Manifest::new();
    manifest.encoder("e", 4, 8, true);
    let count = manifest.largest();
    let weights = manifest.open(ripple(count));
    let layer = EncLayer::<Float>::load(&weights, "e", true, 8, 8, 2).unwrap();
    let x = Tensor::new(vec![1, 4, 8, 3], values(96));
    assert_eq!(layer.shape_of(&x.shape), Some(vec![1, 8, 2, 3]));
    let get = |name: &str| stored(&weights, &format!("e.{name}"));
    let y = conv2d::<Float>(
        &x,
        &get("conv.weight"),
        &get("conv.bias"),
        8,
        (8, 1),
        (4, 1),
        (2, 0),
    );
    let mut y = gelu::<Float>(&y);
    // One frequency at a time.
    for frequency in 0..2 {
        let mut line = Tensor::zeros(vec![1, 8, 3], 0.0f32);
        for channel in 0..8 {
            for time in 0..3 {
                line.set(&[0, channel, time], y.at(&[0, channel, frequency, time]));
            }
        }
        let line = layer_by_steps(&weights, "e.dconv.layers.0", &line, 0);
        let line = layer_by_steps(&weights, "e.dconv.layers.1", &line, 1);
        for channel in 0..8 {
            for time in 0..3 {
                y.set(&[0, channel, frequency, time], line.at(&[0, channel, time]));
            }
        }
    }
    let z = conv2d::<Float>(
        &y,
        &get("rewrite.weight"),
        &get("rewrite.bias"),
        16,
        (1, 1),
        (1, 1),
        (0, 0),
    );
    assert_eq!(layer.forward(&x), glu::<Float>(&z));
}

#[test]
fn a_time_decoder_adds_its_skip_and_crops() {
    let mut manifest = Manifest::new();
    manifest.decoder("d", 8, 2, false);
    let count = manifest.largest();
    let weights = manifest.open(ripple(count));
    let layer = DecLayer::<Float>::load(&weights, "d", false, false, 8, 8, 2).unwrap();
    let x = Tensor::new(vec![1, 8, 3], values(24));
    let skip = Tensor::new(vec![1, 8, 3], values(48)[24..].to_vec());
    assert_eq!(layer.shape_of(&x.shape, 10), Some(vec![1, 2, 10]));
    assert_eq!(layer.shape_of(&x.shape, 15), None);
    let get = |name: &str| stored(&weights, &format!("d.{name}"));
    let y = sum::<Float>(&x, &skip);
    let y = conv1d::<Float>(&y, &get("rewrite.weight"), &get("rewrite.bias"), 16, 3, 1, 1, 1);
    let y = glu::<Float>(&y);
    let y = layer_by_steps(&weights, "d.dconv.layers.0", &y, 0);
    let y = layer_by_steps(&weights, "d.dconv.layers.1", &y, 1);
    let z = conv_transpose1d::<Float>(&y, &get("conv_tr.weight"), &get("conv_tr.bias"), 2, 8, 4);
    let z = crop_time(&z, 2, 10);
    assert_eq!(layer.forward(&x, &skip, 10), gelu::<Float>(&z));
    let last = DecLayer::<Float>::load(&weights, "d", false, true, 8, 8, 2).unwrap();
    assert_eq!(last.forward(&x, &skip, 10), z);
}

#[test]
fn a_frequency_decoder_gives_four_times_the_height() {
    let mut manifest = Manifest::new();
    manifest.decoder("d", 8, 3, true);
    let count = manifest.largest();
    let weights = manifest.open(ripple(count));
    let layer = DecLayer::<Float>::load(&weights, "d", true, true, 8, 8, 2).unwrap();
    let x = Tensor::new(vec![1, 8, 2, 3], values(48));
    assert_eq!(layer.shape_of(&x.shape, 0), Some(vec![1, 3, 8, 3]));
    let out = layer.forward(&x, &x, 0);
    assert_eq!(out.shape, vec![1, 3, 8, 3]);
    assert_eq!(layer.forward(&x, &x, 99), out, "the length is the time branch's");
}

#[test]
fn the_frequency_embedding_is_added_per_frequency() {
    let mut manifest = Manifest::new();
    manifest.add("freq_emb.embedding.weight".to_string(), vec![2, 3]);
    let weights = manifest.open(ripple(6));
    let embedding = FrequencyEmbedding::<Float>::load(&weights, 10.0).unwrap();
    assert_eq!(embedding.dim, 3);
    assert!(embedding.takes(&[1, 3, 2, 4]));
    assert!(!embedding.takes(&[1, 3, 3, 4]));
    assert!(!embedding.takes(&[1, 2, 3, 4]));
    let x = Tensor::new(vec![1, 3, 2, 1], values(6));
    let out = embedding.apply(&x, 0.2);
    let weight = stored(&weights, "freq_emb.embedding.weight");
    for channel in 0..3 {
        for frequency in 0..2 {
            let expected = x.at(&[0, channel, frequency, 0])
                + (0.2 * 10.0) * weight[frequency * 3 + channel];
            assert_eq!(out.at(&[0, channel, frequency, 0]), expected);
        }
    }
}

#[test]
fn the_transformer_keeps_shapes() {
    let mut manifest = Manifest::new();
    manifest.transformer("t", 16, 4);
    let count = manifest.largest();
    let weights = manifest.open(ripple(count));
    let transformer = CrossTransformer::<Float>::load(&weights, "t", 8, 10_000.0, 1.0).unwrap();
    assert_eq!(transformer.dim(), 16);
    let x = Tensor::new(vec![1, 16, 2, 3], values(96));
    let xt = Tensor::new(vec![1, 16, 5], values(80));
    assert!(transformer.takes(&x.shape, &xt.shape));
    assert!(!transformer.takes(&[1, 15, 2, 3], &xt.shape));
    assert!(!transformer.takes(&[2, 16, 2, 3], &xt.shape));
    let (out, out_t) = transformer.forward(&x, &xt);
    assert_eq!(out.shape, x.shape);
    assert_eq!(out_t.shape, xt.shape);
    assert!(out.data.iter().chain(&out_t.data).all(|value| value.is_finite()));
    let (again, again_t) = transformer.forward(&x, &xt);
    assert_eq!(out, again);
    assert_eq!(out_t, again_t);
}

#[test]
fn the_shipped_network_has_its_known_size() {
    let manifest = Manifest::network(512, 2_048, 512);
    assert_eq!(manifest.tensors.len(), 533);
    let weights = manifest.open(Vec::new());
    assert_eq!(weights.parameter_count(), 41_984_456);
    assert_eq!(
        weights.bundle().tensor("encoder.0.conv.weight").unwrap().shape,
        vec![48, 4, 8, 1]
    );
}

#[test]
fn silence_in_the_weights_gives_the_mean_back() {
    let manifest = Manifest::network(8, 4, 64);
    let count = manifest.largest();
    let weights = manifest.open(vec![0; 4 * count]);
    let model = HtDemucs::<Float>::load(&weights).unwrap();
    let magnitude = Tensor::new(vec![1, 4, 256, 1], values(1_024));
    let waveform = Tensor::new(vec![1, 2, 250], values(500));
    assert!(model.takes(&magnitude.shape, &waveform.shape));
    assert!(!model.takes(&[1, 4, 252, 1], &waveform.shape));
    let (frequency, time) = model.forward(&magnitude, &waveform);
    assert_eq!(frequency.shape, vec![1, 16, 256, 1]);
    assert_eq!(time.shape, vec![1, 8, 250]);
    let mean = |x: &Tensor<f32>| {
        let sum: f64 = x.data.iter().map(|value| *value as f64).sum();
        (sum / x.data.len() as f64) as f32
    };
    let expected = mean(&magnitude);
    assert!(frequency.data.iter().all(|value| *value == expected));
    let expected = mean(&waveform);
    assert!(time.data.iter().all(|value| *value == expected));
}

#[test]
fn a_network_refuses_to_load_from_a_flat_embedding() {
    let mut manifest = Manifest::network(8, 4, 64);
    for (name, shape) in manifest.tensors.iter_mut() {
        if name == "freq_emb.embedding.weight" {
            *shape = vec![64 * 48];
        }
    }
    let count = manifest.largest();
    let weights = manifest.open(vec![0; 4 * count]);
    assert!(!HtDemucs::<Float>::can_load(&weights));
    // Alone it is not looked at: the encoders come first.
    let mut manifest = Manifest::new();
    manifest.add("freq_emb.embedding.weight".to_string(), vec![6]);
    let weights = manifest.open(ripple(6));
    assert!(HtDemucs::<Float>::can_load(&weights));
    match HtDemucs::<Float>::load(&weights) {
        Err(error) => assert_eq!(error.message, "missing weight encoder.0.conv.weight"),
        Ok(_) => panic!("there are no encoders"),
    }
}

#[test]
fn spectra_are_read_in_pairs_of_planes() {
    let mut frequency = Tensor::zeros(vec![16, PLANE], 0u8);
    for plane in 0..16 {
        frequency.data[plane * PLANE] = plane as u8;
    }
    for stem in 0..4 {
        for channel in 0..2 {
            let (real, imaginary) = spectrum(&frequency, stem, channel);
            assert_eq!(real.len(), PLANE);
            assert_eq!(imaginary.len(), PLANE);
            assert_eq!(real[0] as usize, stem * 4 + channel * 2);
            assert_eq!(imaginary[0] as usize, stem * 4 + channel * 2 + 1);
        }
    }
}

#[test]
fn a_track_is_cut_and_sewn_back() {
    let total = SEGMENT + 10;
    let left: Vec<f32> = (0..total).map(|i| (i % 7) as f32).collect();
    let right: Vec<f32> = vec![1.0; total + 5];
    let mut separation = Separation::<Float>::start(left.len(), right.len());
    assert_eq!(separation.total, total);
    assert_eq!(separation.offsets, vec![0, 10]);
    assert_eq!(separation.scale, 64.0);
    let mut cuts = 0;
    while let Some((l, r)) = separation.next_segment(&left, &right) {
        assert_eq!((l.len(), r.len()), (SEGMENT, SEGMENT));
        assert_eq!(l[..], left[cuts * 10..cuts * 10 + SEGMENT]);
        // The time branch gives the row's number, the spectra a quarter each.
        let mut time = Vec::with_capacity(8 * SEGMENT);
        for row in 0..8 {
            time.extend(std::iter::repeat(row as f32).take(SEGMENT));
        }
        let time = Tensor::new(vec![1, 8, SEGMENT], time);
        let inverses = vec![vec![0.25 / 64.0; SEGMENT]; 8];
        separation.absorb(&time, &inverses);
        cuts += 1;
    }
    assert_eq!(cuts, 2);
    let stems = separation.finish();
    assert_eq!(stems.len(), 4);
    for (stem, channels) in stems.iter().enumerate() {
        for (channel, values) in channels.iter().enumerate() {
            assert_eq!(values.len(), total);
            let expected = (stem * 2 + channel) as f32 + 0.25;
            assert!(values.iter().all(|value| *value == expected));
        }
    }
}

#[test]
fn a_short_track_is_one_padded_segment() {
    let separation = Separation::<Float>::start(3, 2);
    assert_eq!(separation.total, 2);
    let (l, r) = separation.next_segment(&[1.0, 2.0, 3.0], &[4.0, 5.0]).unwrap();
    assert_eq!(l[..4], [1.0, 2.0, 0.0, 0.0]);
    assert_eq!(r[..4], [4.0, 5.0, 0.0, 0.0]);
    assert_eq!(l.len(), SEGMENT);
    let stems = separation.finish();
    assert!(stems.iter().all(|stem| stem[0].is_empty() && stem[1].is_empty()));
}

#[test]
fn the_shipped_network_takes_a_segment_of_the_contract() {
    let manifest = Manifest::network(512, 2_048, 512);
    let count = manifest.largest();
    let weights = manifest.open(vec![0; 4 * count]);
    assert!(HtDemucs::<Float>::can_load(&weights));
    let model = HtDemucs::<Float>::load(&weights).unwrap();
    assert!(model.takes(&[1, 4, 2_048, 336], &[1, 2, SEGMENT]));
    assert!(!model.takes(&[1, 4, 2_044, 336], &[1, 2, SEGMENT]));
    assert!(!model.takes(&[1, 5, 2_048, 336], &[1, 2, SEGMENT]));
    assert!(!model.takes(&[2, 4, 2_048, 336], &[1, 2, SEGMENT]));
}

#[test]
fn samples_go_through_the_transformer_alone() {
    let mut manifest = Manifest::new();
    manifest.transformer("t", 16, 4);
    let count = manifest.largest();
    let weights = manifest.open(ripple(count));
    let transformer = CrossTransformer::<Float>::load(&weights, "t", 8, 10_000.0, 1.0).unwrap();
    let (planes, lines) = (values(192), values(160));
    let x = Tensor::new(vec![2, 16, 2, 3], planes.clone());
    let xt = Tensor::new(vec![2, 16, 5], lines.clone());
    assert!(transformer.takes(&x.shape, &xt.shape));
    let (out, out_t) = transformer.forward(&x, &xt);
    for sample in 0..2 {
        let (plane, line) = (sample * 96..(sample + 1) * 96, sample * 80..(sample + 1) * 80);
        let x = Tensor::new(vec![1, 16, 2, 3], planes[plane.clone()].to_vec());
        let xt = Tensor::new(vec![1, 16, 5], lines[line.clone()].to_vec());
        let (alone, alone_t) = transformer.forward(&x, &xt);
        assert_eq!(alone.data, out.data[plane]);
        assert_eq!(alone_t.data, out_t.data[line]);
    }
}

#[test]
fn only_the_common_length_counts() {
    let left: Vec<f32> = (0..20).map(|i| i as f32).collect();
    let run = |right: &[f32]| {
        let mut separation = Separation::<Float>::start(left.len(), right.len());
        assert_eq!(separation.total, right.len().min(left.len()));
        let (l, r) = separation.next_segment(&left, right).unwrap();
        let mut time = Vec::with_capacity(8 * SEGMENT);
        for row in 0..8 {
            time.extend(if row % 2 == 0 { l.clone() } else { r.clone() });
        }
        let time = Tensor::new(vec![1, 8, SEGMENT], time);
        separation.absorb(&time, &vec![vec![0.0; SEGMENT]; 8]);
        assert!(separation.next_segment(&left, right).is_none());
        separation.finish()
    };
    let right: Vec<f32> = (0..12).map(|i| -(i as f32)).collect();
    let stems = run(&right);
    assert_eq!(stems.len(), 4);
    for stem in &stems {
        assert_eq!(stem[0], left[..12]);
        assert_eq!(stem[1], right);
    }
}

#[test]
fn only_needed_tensors_have_to_be_within_reach() {
    let far = |name: &str| TensorMeta {
        name: name.to_string(),
        shape: vec![1],
        dtype: "f32".to_string(),
        offset: usize::MAX,
        count: 1,
    };
    let manifest = Manifest::network(8, 4, 64);
    let count = manifest.largest();
    let weights = manifest.open_with(vec![0; 4 * count], vec![far("other")]);
    assert!(!weights.can_read("other"));
    assert!(HtDemucs::<Float>::can_load(&weights));
    assert!(HtDemucs::<Float>::load(&weights).is_ok());
    let manifest = Manifest::network(8, 4, 64);
    let late = "crosstransformer.norm_in_t.bias";
    let weights = manifest.open_with(vec![0; 4 * count], vec![far(late)]);
    assert!(!HtDemucs::<Float>::can_load(&weights));
    // Nothing is looked up after the first that is not there.
    let mut manifest = Manifest::network(8, 4, 64);
    manifest.tensors.retain(|(name, _)| name != "channel_upsampler.bias");
    let weights = manifest.open_with(vec![0; 4 * count], vec![far(late)]);
    assert!(HtDemucs::<Float>::can_load(&weights));
    match HtDemucs::<Float>::load(&weights) {
        Err(error) => assert_eq!(error.message, "missing channel_upsampler.bias"),
        Ok(_) => panic!("an upsampler's bias is not there"),
    }
}

#[test]
fn padding_to_a_multiple_of_four_changes_nothing() {
    let mut manifest = Manifest::new();
    manifest.encoder("e", 2, 8, false);
    let count = manifest.largest();
    let weights = manifest.open(ripple(count));
    let layer = EncLayer::<Float>::load(&weights, "e", false, 8, 8, 2).unwrap();
    for time in [4, 5, 6, 7, 8] {
        let x = Tensor::new(vec![1, 2, time], values(2 * time));
        let padded = pad_time(&x, (4 - time % 4) % 4, 0.0);
        assert_eq!(padded.shape[2] % 4, 0);
        assert_eq!(layer.forward(&padded), layer.forward(&x));
    }
}

#[test]
fn attention_takes_values_apart_from_keys() {
    let affine = |weight: Vec<f32>, bias: Vec<f32>| Affine::<Float> { weight, bias };
    let unit = [1.0, 0.0, 0.0, 1.0];
    let attention = AttentionWeights::<Float> {
        in_proj: affine([unit, unit, unit].concat(), vec![0.0; 6]),
        out_proj: affine(unit.to_vec(), vec![0.0; 2]),
    };
    assert_eq!(attention.shape_of(&[1, 1, 2], &[1, 2, 2], 1), Some(vec![1, 1, 2]));
    assert_eq!(attention.shape_of(&[1, 1, 2], &[1, 2, 2], 3), None);
    let q = Tensor::new(vec![1, 1, 2], vec![0.5, -1.0]);
    let k = Tensor::new(vec![1, 2, 2], vec![0.25, 0.5, 0.25, 0.5]);
    let v = Tensor::new(vec![1, 2, 2], vec![1.0, 2.0, 3.0, 8.0]);
    // Equal keys weigh alike.
    assert_eq!(attention.attend(&q, &k, &v, 1).data, vec![2.0, 5.0]);
    let k = Tensor::new(vec![1, 2, 2], vec![0.25, 0.5, -1.0, 0.125]);
    let swapped_k = Tensor::new(vec![1, 2, 2], vec![-1.0, 0.125, 0.25, 0.5]);
    let swapped_v = Tensor::new(vec![1, 2, 2], vec![3.0, 8.0, 1.0, 2.0]);
    let one = attention.attend(&q, &k, &v, 1);
    let other = attention.attend(&q, &swapped_k, &swapped_v, 1);
    for (a, b) in one.data.iter().zip(&other.data) {
        assert!((a - b).abs() < 1e-5, "{a} vs {b}");
    }
}
