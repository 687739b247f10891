//! Layouts, heads, embeddings, moments and noise.

use stemsplits::arithmetic::Arithmetic;
use stemsplits::attention::{attend_heads, from_heads, to_heads};
use stemsplits::embedding::{add_scaled_in_place, sin_embedding_1d, sin_embedding_2d};
use stemsplits::layout::{
    arrange_freq, arrange_time, can_crop_time, crop_frequency, crop_time, pad_time, permute_0213,
    unarrange_freq, unarrange_time,
};
use stemsplits::moments::{denormalise, normalise};
use stemsplits::noise::noise;
use stemsplits::tensor::Tensor;

struct Float;

impl Arithmetic for Float {
    type Real = f32;
    type Wide = f64;

    fn zero() -> f32 {
        0.0
    }
    fn one() -> f32 {
        1.0
    }
    fn lowest() -> f32 {
        f32::MIN
    }
    fn frac_1_sqrt_2() -> f32 {
        std::f32::consts::FRAC_1_SQRT_2
    }
    fn literal(numerator: u32, denominator: u32) -> f32 {
        (numerator as f64 / denominator as f64) as f32
    }
    fn from_bits(bits: u32) -> f32 {
        f32::from_bits(bits)
    }
    fn from_count(count: usize) -> f32 {
        count as f32
    }
    fn plus(a: f32, b: f32) -> f32 {
        a + b
    }
    fn minus(a: f32, b: f32) -> f32 {
        a - b
    }
    fn times(a: f32, b: f32) -> f32 {
        a * b
    }
    fn over(a: f32, b: f32) -> f32 {
        a / b
    }
    fn larger(a: f32, b: f32) -> f32 {
        a.max(b)
    }
    fn power(base: f32, exponent: f32) -> f32 {
        base.powf(exponent)
    }
    fn negated(a: f32) -> f32 {
        -a
    }
    fn exponential(a: f32) -> f32 {
        a.exp()
    }
    fn logarithm(a: f32) -> f32 {
        a.ln()
    }
    fn square_root(a: f32) -> f32 {
        a.sqrt()
    }
    fn sine(a: f32) -> f32 {
        a.sin()
    }
    fn cosine(a: f32) -> f32 {
        a.cos()
    }
    fn error_function(a: f32) -> f32 {
        libm::erff(a)
    }
    fn exceeds(a: f32, b: f32) -> bool {
        a > b
    }
    fn wide_zero() -> f64 {
        0.0
    }
    fn wide_count(count: usize) -> f64 {
        count as f64
    }
    fn widen(a: f32) -> f64 {
        a as f64
    }
    fn narrow(a: f64) -> f32 {
        a as f32
    }
    fn wide_plus(a: f64, b: f64) -> f64 {
        a + b
    }
    fn wide_minus(a: f64, b: f64) -> f64 {
        a - b
    }
    fn wide_times(a: f64, b: f64) -> f64 {
        a * b
    }
    fn wide_over(a: f64, b: f64) -> f64 {
        a / b
    }
    fn wide_square(a: f64) -> f64 {
        a.powi(2)
    }
    fn wide_square_root(a: f64) -> f64 {
        a.sqrt()
    }
    fn wide_exceeds(a: f64, b: f64) -> bool {
        a > b
    }
}

fn counted(shape: Vec<usize>) -> Tensor<i32> {
    let count: usize = shape.iter().product();
    Tensor::new(shape, (0..count as i32).collect())
}

#[test]
fn tensors_are_row_major() {
    let mut x = counted(vec![2, 3, 4]);
    assert_eq!((x.numel(), x.rank(), x.dim(1)), (24, 3, 3));
    assert_eq!(x.flat(&[1, 2, 3]), 23);
    assert_eq!(x.at(&[1, 0, 2]), 14);
    x.set(&[1, 0, 2], -1);
    assert_eq!(x.data[14], -1);
    let zeros = Tensor::zeros(vec![2, 2], 0);
    assert_eq!(zeros.data, vec![0; 4]);
    assert_eq!(Tensor::zeros(vec![], 7).data, vec![7]);
}

#[test]
fn permuting_twice_changes_nothing() {
    let x = counted(vec![2, 3, 4, 5]);
    let once = permute_0213(&x);
    assert_eq!(once.shape, vec![2, 4, 3, 5]);
    assert_eq!(once.at(&[1, 2, 0, 3]), x.at(&[1, 0, 2, 3]));
    assert_eq!(permute_0213(&once), x);
}

#[test]
fn tokens_come_back_to_planes_and_lines() {
    let x = counted(vec![2, 3, 4, 5]);
    let tokens = arrange_freq(&x);
    assert_eq!(tokens.shape, vec![2, 20, 3]);
    // Token t * Fr + fr.
    assert_eq!(tokens.at(&[1, 3 * 4 + 2, 1]), x.at(&[1, 1, 2, 3]));
    assert_eq!(unarrange_freq(&tokens, 2, 3, 4, 5), x);
    let line = counted(vec![2, 3, 4]);
    let tokens = arrange_time(&line);
    assert_eq!(tokens.shape, vec![2, 4, 3]);
    assert_eq!(tokens.at(&[1, 2, 0]), line.at(&[1, 0, 2]));
    assert_eq!(unarrange_time(&tokens, 2, 3, 4), line);
}

#[test]
fn padding_is_cropped_away() {
    let x = counted(vec![1, 2, 3]);
    let padded = pad_time(&x, 2, -7);
    assert_eq!(padded.shape, vec![1, 2, 5]);
    assert_eq!(padded.data, vec![0, 1, 2, -7, -7, 3, 4, 5, -7, -7]);
    assert_eq!(crop_time(&padded, 0, 3), x);
    assert_eq!(crop_time(&padded, 1, 2).data, vec![1, 2, 4, 5]);
    assert!(can_crop_time(&[1, 2, 5], 2, 3));
    assert!(!can_crop_time(&[1, 2, 5], 2, 4));
    assert!(can_crop_time(&[0, 2, 5], 2, 4));
    let plane = counted(vec![1, 1, 4, 2]);
    let cropped = crop_frequency(&plane, 1);
    assert_eq!(cropped.shape, vec![1, 1, 2, 2]);
    assert_eq!(cropped.data, vec![2, 3, 4, 5]);
}

#[test]
fn heads_split_and_merge() {
    // [1, 2, 4] into two heads of two.
    let x: Vec<i32> = (0..8).collect();
    let split = to_heads(&x, 1, 2, 4, 2);
    assert_eq!(split, vec![0, 1, 4, 5, 2, 3, 6, 7]);
    assert_eq!(from_heads(&split, 1, 2, 2, 2), x);
}

#[test]
fn attention_mixes_values_by_softmax() {
    // One head of one feature, one query against two keys.
    let out = attend_heads::<Float>(&[1.0], &[0.0, 0.0], &[2.0, 6.0], 1, 1, 2, 1);
    assert_eq!(out, vec![4.0]);
    let ln3 = 3.0f32.ln();
    let out = attend_heads::<Float>(&[1.0], &[0.0, ln3], &[0.0, 4.0], 1, 1, 2, 1);
    assert!((out[0] - 3.0).abs() < 1e-5);
    // Two heads stay apart.
    let out = attend_heads::<Float>(&[1.0, 1.0], &[5.0, 9.0], &[2.0, 6.0], 2, 1, 1, 1);
    assert_eq!(out, vec![2.0, 6.0]);
}

#[test]
fn the_line_embedding_is_cosines_then_sines() {
    let out = sin_embedding_1d::<Float>(2, 5, 10_000.0);
    assert_eq!(out.shape, vec![2, 1, 5]);
    assert_eq!(&out.data[..5], &[1.0, 1.0, 0.0, 0.0, 0.0]);
    assert_eq!(out.data[5], 1.0f32.cos());
    assert_eq!(out.data[6], (1.0f32 / 10_000.0).cos());
    assert_eq!(out.data[7], 1.0f32.sin());
    assert_eq!(out.data[8], (1.0f32 / 10_000.0).sin());
    assert_eq!(out.data[9], 0.0);
}

#[test]
fn the_plane_embedding_is_time_then_frequency() {
    let out = sin_embedding_2d::<Float>(6, 2, 2, 10_000.0);
    assert_eq!(out.shape, vec![1, 4, 6]);
    // Half is three, so one pair of each half is used.
    // Token one: time zero, frequency one.
    assert_eq!(&out.data[6..12], &[0.0, 1.0, 0.0, 1.0f32.sin(), 1.0f32.cos(), 0.0]);
    // Token two: time one, frequency zero.
    assert_eq!(&out.data[12..18], &[1.0f32.sin(), 1.0f32.cos(), 0.0, 0.0, 1.0, 0.0]);
}

#[test]
fn an_embedding_is_added_to_every_sample() {
    let mut x = Tensor::new(vec![2, 1, 2], vec![1.0, 2.0, 3.0, 4.0]);
    add_scaled_in_place::<Float>(&mut x, &Tensor::new(vec![1, 1, 2], vec![10.0, 20.0]), 0.5);
    assert_eq!(x.shape, vec![2, 1, 2]);
    assert_eq!(x.data, vec![6.0, 12.0, 8.0, 14.0]);
    let nothing = Tensor::new(vec![0], Vec::new());
    add_scaled_in_place::<Float>(&mut x, &nothing, 0.5);
    assert_eq!(x.data, vec![6.0, 12.0, 8.0, 14.0]);
}

#[test]
fn every_sample_has_its_own_moments() {
    let x = Tensor::new(vec![2, 3], vec![1.0, 2.0, 3.0, 10.0, 20.0, 30.0]);
    let (out, moments) = normalise::<Float>(&x);
    assert_eq!(moments.len(), 2);
    assert_eq!((moments[0].mean, moments[0].deviation), (2.0, 1.0));
    assert_eq!((moments[1].mean, moments[1].deviation), (20.0, 10.0));
    assert_eq!(out.data[1], 0.0);
    assert_eq!(out.data[2], 1.0 / (1e-5 + 1.0));
    assert_eq!(out.data[3], -10.0 / (1e-5 + 10.0));
    let back = denormalise::<Float>(&Tensor::new(vec![2, 1], vec![1.0, 1.0]), &moments);
    assert_eq!(back.data, vec![3.0, 30.0]);
}

#[test]
fn noise_is_the_congruential_sequence() {
    let draws = noise(3, 0x1234_5678);
    let mut state = 0x1234_5678u64;
    for draw in draws {
        state = state
            .wrapping_mul(6_364_136_223_846_793_005)
            .wrapping_add(1_442_695_040_888_963_407);
        assert_eq!(draw, state >> 11);
    }
    assert_eq!(noise(1, 0), vec![1_442_695_040_888_963_407 >> 11]);
}

#[test]
fn a_pair_of_cosines_and_a_pair_of_sines() {
    let out = sin_embedding_1d::<Float>(2, 4, 10_000.0);
    assert_eq!(out.shape, vec![2, 1, 4]);
    let expected = [1.0, 1.0, 0.0, 0.0, 0.540_302_3, 1.0, 0.841_471, 0.000_1];
    for (actual, expected) in out.data.iter().zip(expected) {
        assert!((actual - expected).abs() < 1e-6, "{actual} vs {expected}");
    }
}

#[test]
fn a_tensor_without_entries_may_have_any_extents() {
    let vast = 1usize << 40;
    let x: Tensor<f32> = Tensor::new(vec![0, vast, vast], Vec::new());
    assert_eq!(x.shape, vec![0, vast, vast]);
    assert_eq!(x.numel(), 0);
}

#[test]
fn a_head_is_a_run_of_features() {
    // [2, 3, 6] into three heads of two.
    let x: Vec<usize> = (0..36).collect();
    let split = to_heads(&x, 2, 3, 6, 3);
    for batch in 0..2 {
        for head in 0..3 {
            for time in 0..3 {
                for feature in 0..2 {
                    assert_eq!(
                        split[((batch * 3 + head) * 3 + time) * 2 + feature],
                        x[(batch * 3 + time) * 6 + head * 2 + feature]
                    );
                }
            }
        }
    }
    assert_eq!(from_heads(&split, 2, 3, 3, 2), x);
}

#[test]
fn attention_ignores_the_order_of_keys() {
    let query = [1.0, -0.5];
    let out = attend_heads::<Float>(
        &query,
        &[0.1, 0.2, 0.3, 0.4, 0.5, 0.6],
        &[1.0, 2.0, 3.0, 4.0, 5.0, 6.0],
        1,
        1,
        3,
        2,
    );
    let moved = attend_heads::<Float>(
        &query,
        &[0.5, 0.6, 0.1, 0.2, 0.3, 0.4],
        &[5.0, 6.0, 1.0, 2.0, 3.0, 4.0],
        1,
        1,
        3,
        2,
    );
    for (a, b) in out.iter().zip(&moved) {
        assert!((a - b).abs() < 1e-5, "{a} vs {b}");
    }
}

#[test]
fn attention_keeps_the_order_of_queries() {
    let keys = [0.1, 0.2, 0.3, 0.4];
    let values = [1.0, 2.0, 3.0, 4.0];
    let out = attend_heads::<Float>(&[1.0, -0.5, 0.25, 2.0], &keys, &values, 1, 2, 2, 2);
    let swapped = attend_heads::<Float>(&[0.25, 2.0, 1.0, -0.5], &keys, &values, 1, 2, 2, 2);
    assert_eq!(out[..2], swapped[2..]);
    assert_eq!(out[2..], swapped[..2]);
    assert_ne!(out[..2], out[2..]);
}

#[test]
fn an_embedding_reaches_the_start_of_every_sample() {
    let addend = Tensor::new(vec![1, 1, 2], vec![10.0, 20.0]);
    let mut one = Tensor::new(vec![1, 1, 3], vec![1.0, 2.0, 3.0]);
    add_scaled_in_place::<Float>(&mut one, &addend, 1.0);
    assert_eq!(one.data, vec![11.0, 22.0, 3.0]);
    let mut two = Tensor::new(vec![2, 1, 3], vec![1.0, 2.0, 3.0, 4.0, 5.0, 6.0]);
    add_scaled_in_place::<Float>(&mut two, &addend, 1.0);
    assert_eq!(two.data, vec![11.0, 22.0, 3.0, 14.0, 25.0, 6.0]);
    let mut short = Tensor::new(vec![2, 1, 1], vec![1.0, 2.0]);
    add_scaled_in_place::<Float>(&mut short, &addend, 1.0);
    assert_eq!(short.data, vec![11.0, 12.0]);
    let mut line = Tensor::new(vec![3], vec![1.0, 2.0, 3.0]);
    add_scaled_in_place::<Float>(&mut line, &addend, 1.0);
    assert_eq!(line.data, vec![11.0, 22.0, 3.0]);
}
