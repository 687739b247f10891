//! The primitive operations on 32-bit floats.

use stemsplits::arithmetic::Arithmetic;
use stemsplits::conv::{convolution1_of, convolution_of, Window};
use stemsplits::conv_transpose::{transposition1_of, transposition_of, Spread};
use stemsplits::matmul::{flip, matmul};
use stemsplits::ops::{
    can_group_norm, can_layer_norm, can_sequence_norm, conv1d, conv2d, conv_transpose1d,
    conv_transpose2d, gelu, glu, group_norm, group_norm_sequence, layer_norm, layer_scale,
    layer_scale_last, linear, linear_of, sigmoid, sum,
};
use stemsplits::tensor::Tensor;

struct Float;

impl Arithmetic for Float {
    type Real = f32;
    type Wide = f64;

    fn zero() -> f32 {
        0.0
    }
    fn one() -> f32 {
        1.0
    }
    fn lowest() -> f32 {
        f32::MIN
    }
    fn frac_1_sqrt_2() -> f32 {
        std::f32::consts::FRAC_1_SQRT_2
    }
    fn literal(numerator: u32, denominator: u32) -> f32 {
        (numerator as f64 / denominator as f64) as f32
    }
    fn from_bits(bits: u32) -> f32 {
        f32::from_bits(bits)
    }
    fn from_count(count: usize) -> f32 {
        count as f32
    }
    fn plus(a: f32, b: f32) -> f32 {
        a + b
    }
    fn minus(a: f32, b: f32) -> f32 {
        a - b
    }
    fn times(a: f32, b: f32) -> f32 {
        a * b
    }
    fn over(a: f32, b: f32) -> f32 {
        a / b
    }
    fn larger(a: f32, b: f32) -> f32 {
        a.max(b)
    }
    fn power(base: f32, exponent: f32) -> f32 {
        base.powf(exponent)
    }
    fn negated(a: f32) -> f32 {
        -a
    }
    fn exponential(a: f32) -> f32 {
        a.exp()
    }
    fn logarithm(a: f32) -> f32 {
        a.ln()
    }
    fn square_root(a: f32) -> f32 {
        a.sqrt()
    }
    fn sine(a: f32) -> f32 {
        a.sin()
    }
    fn cosine(a: f32) -> f32 {
        a.cos()
    }
    fn error_function(a: f32) -> f32 {
        libm::erff(a)
    }
    fn exceeds(a: f32, b: f32) -> bool {
        a > b
    }
    fn wide_zero() -> f64 {
        0.0
    }
    fn wide_count(count: usize) -> f64 {
        count as f64
    }
    fn widen(a: f32) -> f64 {
        a as f64
    }
    fn narrow(a: f64) -> f32 {
        a as f32
    }
    fn wide_plus(a: f64, b: f64) -> f64 {
        a + b
    }
    fn wide_minus(a: f64, b: f64) -> f64 {
        a - b
    }
    fn wide_times(a: f64, b: f64) -> f64 {
        a * b
    }
    fn wide_over(a: f64, b: f64) -> f64 {
        a / b
    }
    fn wide_square(a: f64) -> f64 {
        a.powi(2)
    }
    fn wide_square_root(a: f64) -> f64 {
        a.sqrt()
    }
    fn wide_exceeds(a: f64, b: f64) -> bool {
        a > b
    }
}

fn close(actual: f32, expected: f32) {
    assert!((actual - expected).abs() < 1e-5, "{actual} vs {expected}");
}

#[test]
fn group_norm_matches_a_hand_computation() {
    // One group, two channels, two positions: normalise all four values.
    let x = Tensor::new(vec![1, 2, 2], vec![1.0, 2.0, 3.0, 4.0]);
    let out = group_norm::<Float>(&x, 1, &[1.0, 1.0], &[0.0, 0.0], 0.0);
    let mean = 2.5;
    let std = (1.25f32).sqrt();
    assert!((out.data[0] - (1.0 - mean) / std).abs() < 1e-6);
    assert!((out.data[3] - (4.0 - mean) / std).abs() < 1e-6);
}

#[test]
fn conv2d_matches_a_hand_computation() {
    let x = Tensor::new(vec![1, 1, 3, 3], (1..=9).map(|v| v as f32).collect());
    let weight = vec![1.0, 1.0, 1.0, 1.0]; // [1, 1, 2, 2]
    let out = conv2d::<Float>(&x, &weight, &[0.0], 1, (2, 2), (1, 1), (0, 0));
    assert_eq!(out.shape, vec![1, 1, 2, 2]);
    assert_eq!(out.data, vec![12.0, 16.0, 24.0, 28.0]);
}

#[test]
fn conv_transpose2d_matches_a_hand_computation() {
    let x = Tensor::new(vec![1, 1, 2, 2], vec![1.0, 2.0, 3.0, 4.0]);
    let weight = vec![1.0, 0.0, 0.0, 1.0]; // [1, 1, 2, 2]
    let out = conv_transpose2d::<Float>(&x, &weight, &[0.0], 1, (2, 2), (1, 1));
    assert_eq!(out.shape, vec![1, 1, 3, 3]);
    assert_eq!(out.data, vec![1.0, 2.0, 0.0, 3.0, 5.0, 2.0, 0.0, 3.0, 4.0]);
}

#[test]
fn glu_splits_the_channel_axis() {
    let x = Tensor::new(vec![1, 4, 1], vec![1.0, 2.0, 0.0, 0.0]);
    let out = glu::<Float>(&x);
    // sigmoid(0) = 0.5
    assert_eq!(out.shape, vec![1, 2, 1]);
    assert!((out.data[0] - 0.5).abs() < 1e-6);
    assert!((out.data[1] - 1.0).abs() < 1e-6);
}

#[test]
fn decimals_are_read_as_written() {
    assert_eq!(Float::literal(1, 100_000), 1e-5f32);
    assert_eq!(Float::literal(1, 2), 0.5f32);
    assert_eq!(Float::literal(1, 5), 0.2f32);
    assert_eq!(Float::literal(10, 1), 10.0f32);
    assert_eq!(Float::literal(10_000, 1), 10_000.0f32);
}

#[test]
fn gelu_and_sigmoid_have_known_values() {
    let x = Tensor::new(vec![3], vec![0.0, 1.0, -1.0]);
    let out = gelu::<Float>(&x);
    assert_eq!(out.shape, vec![3]);
    assert_eq!(out.data[0], 0.0);
    close(out.data[1], 0.841_344_8);
    close(out.data[2], -0.158_655_25);
    assert_eq!(sigmoid::<Float>(0.0), 0.5);
    close(sigmoid::<Float>(2.0), 0.880_797);
}

#[test]
fn glu_drops_the_odd_channel() {
    let x = Tensor::new(vec![1, 3, 2], vec![4.0, 8.0, 0.0, 0.0, 9.0, 9.0]);
    let out = glu::<Float>(&x);
    assert_eq!(out.shape, vec![1, 1, 2]);
    assert_eq!(out.data, vec![2.0, 4.0]);
}

#[test]
fn group_norm_keeps_groups_apart() {
    let x = Tensor::new(vec![1, 2, 2], vec![1.0, 3.0, 10.0, 30.0]);
    let out = group_norm::<Float>(&x, 2, &[1.0, 2.0], &[0.0, 5.0], 0.0);
    assert_eq!(out.data, vec![-1.0, 1.0, 3.0, 7.0]);
}

#[test]
fn sequence_norm_spans_times_and_channels() {
    let x = Tensor::new(vec![2, 2, 2], vec![1.0, 2.0, 3.0, 4.0, 5.0, 5.0, 7.0, 7.0]);
    let out = group_norm_sequence::<Float>(&x, &[1.0, 2.0], &[0.0, 1.0], 0.0);
    let std = (1.25f32).sqrt();
    close(out.data[0], -1.5 / std);
    close(out.data[1], -0.5 / std * 2.0 + 1.0);
    close(out.data[3], 1.5 / std * 2.0 + 1.0);
    assert_eq!(&out.data[4..], &[-1.0, -1.0, 1.0, 3.0]);
}

#[test]
fn layer_norm_spans_the_last_axis() {
    let x = Tensor::new(vec![2, 2], vec![1.0, 3.0, 2.0, 10.0]);
    let out = layer_norm::<Float>(&x, &[1.0, 10.0], &[0.5, 0.0], 0.0);
    assert_eq!(out.shape, vec![2, 2]);
    assert_eq!(out.data, vec![-0.5, 10.0, -0.5, 10.0]);
}

#[test]
fn linear_is_a_product_with_the_flipped_weight_and_a_bias() {
    let x = Tensor::new(vec![1, 2, 3], vec![1.0, 2.0, 3.0, 4.0, 5.0, 6.0]);
    let weight = [1.0, 0.0, 2.0, -1.0, 1.0, 0.0];
    let out = linear::<Float>(&x, &weight, &[10.0, 20.0]);
    assert_eq!(out.shape, vec![1, 2, 2]);
    assert_eq!(out.data, vec![17.0, 21.0, 26.0, 21.0]);
    let flipped = flip(&weight, 2, 3);
    let mut product = [0.0; 4];
    matmul::<Float>(&x.data, &flipped, &mut product, 2, 3, 2);
    assert_eq!(product, [7.0, 1.0, 16.0, 1.0]);
}

#[test]
fn scales_multiply_their_axis() {
    let x = Tensor::new(vec![1, 2, 2], vec![1.0, 2.0, 3.0, 4.0]);
    assert_eq!(layer_scale::<Float>(&x, &[10.0, 100.0]).data, vec![10.0, 20.0, 300.0, 400.0]);
    assert_eq!(layer_scale_last::<Float>(&x, &[10.0, 100.0]).data, vec![10.0, 200.0, 30.0, 400.0]);
}

#[test]
fn a_sum_takes_what_it_needs() {
    let a = Tensor::new(vec![2], vec![1.0, 2.0]);
    let b = Tensor::new(vec![3], vec![10.0, 20.0, 30.0]);
    let out = sum::<Float>(&a, &b);
    assert_eq!(out.shape, vec![2]);
    assert_eq!(out.data, vec![11.0, 22.0]);
}

#[test]
fn conv1d_pads_strides_and_dilates() {
    let x = Tensor::new(vec![1, 1, 5], vec![1.0, 2.0, 3.0, 4.0, 5.0]);
    let weight = [1.0, 10.0, 100.0];
    let dilated = conv1d::<Float>(&x, &weight, &[0.5], 1, 3, 1, 2, 2);
    assert_eq!(dilated.shape, vec![1, 1, 5]);
    assert_eq!(dilated.data, vec![310.5, 420.5, 531.5, 42.5, 53.5]);
    let strided = conv1d::<Float>(&x, &weight, &[0.0], 1, 3, 2, 1, 1);
    assert_eq!(strided.shape, vec![1, 1, 3]);
    assert_eq!(strided.data, vec![210.0, 432.0, 54.0]);
}

#[test]
fn convolutions_are_matrix_products() {
    let x = Tensor::new(vec![1, 1, 4], vec![1.0, 2.0, 3.0, 4.0]);
    let weight = [1.0, 10.0, 2.0, 20.0];
    let out = conv1d::<Float>(&x, &weight, &[0.0, 0.0], 2, 2, 1, 0, 1);
    let patches = [1.0, 2.0, 2.0, 3.0, 3.0, 4.0];
    let mut product = [0.0; 6];
    matmul::<Float>(&patches, &flip(&weight, 2, 2), &mut product, 3, 2, 2);
    assert_eq!(out.data, flip(&product, 3, 2));
    // One step per tap, so what a position gives is laid end to end.
    let spread = conv_transpose1d::<Float>(&x, &[5.0, 7.0], &[0.0], 1, 2, 2);
    let mut given = [0.0; 8];
    matmul::<Float>(&x.data, &[5.0, 7.0], &mut given, 4, 1, 2);
    assert_eq!(spread.data, given);
}

#[test]
fn conv1d_mixes_channels() {
    let x = Tensor::new(vec![1, 2, 2], vec![1.0, 2.0, 3.0, 4.0]);
    let out = conv1d::<Float>(&x, &[1.0, 1.0, 2.0, -1.0], &[0.0, 1.0], 2, 1, 1, 0, 1);
    assert_eq!(out.shape, vec![1, 2, 2]);
    assert_eq!(out.data, vec![4.0, 6.0, 0.0, 1.0]);
}

#[test]
fn conv2d_reads_zeros_past_the_margin() {
    let x = Tensor::new(vec![1, 1, 1, 1], vec![3.0]);
    let weight: Vec<f32> = (1..=9).map(|v| v as f32).collect();
    let out = conv2d::<Float>(&x, &weight, &[1.0], 1, (3, 3), (1, 1), (1, 1));
    assert_eq!(out.data, vec![16.0]);
}

#[test]
fn conv_transpose1d_spreads_and_overlaps() {
    let x = Tensor::new(vec![1, 2, 2], vec![1.0, 2.0, 10.0, 20.0]);
    // [2, 1, 3]
    let weight = [1.0, 2.0, 3.0, 0.0, 1.0, 0.0];
    let out = conv_transpose1d::<Float>(&x, &weight, &[0.5], 1, 3, 2);
    assert_eq!(out.shape, vec![1, 1, 5]);
    assert_eq!(out.data, vec![1.5, 12.5, 5.5, 24.5, 6.5]);
}

#[test]
fn conv_transpose_leaves_holes_where_nothing_reaches() {
    let x = Tensor::new(vec![1, 1, 2], vec![1.0, 2.0]);
    let out = conv_transpose1d::<Float>(&x, &[7.0], &[1.0], 1, 1, 3);
    assert_eq!(out.data, vec![8.0, 1.0, 1.0, 15.0]);
    let stacked = conv_transpose1d::<Float>(&x, &[7.0, 1.0], &[0.0], 1, 2, 0);
    assert_eq!(stacked.data, vec![21.0, 3.0]);
}

#[test]
fn shapes_are_known_before_anything_is_computed() {
    let window = Window { kernel: (8, 1), stride: (4, 1), pad: (2, 0), dilation: (1, 1) };
    let shape = [1, 4, 2_048, 336];
    assert_eq!(convolution_of(&shape, 48 * 32, 48, 48, window), Some(vec![1, 48, 512, 336]));
    assert_eq!(convolution_of(&shape, 48 * 32 - 1, 48, 48, window), None);
    assert_eq!(convolution_of(&shape, 48 * 32, 47, 48, window), None);
    assert_eq!(convolution_of(&[1, 4, 3, 336], 48 * 32, 48, 48, window), None);
    assert_eq!(convolution_of(&[4, 3, 336], 48 * 32, 48, 48, window), None);
    let line = Window { kernel: (1, 8), stride: (1, 4), pad: (0, 2), dilation: (1, 1) };
    assert_eq!(convolution1_of(&[1, 2, 343_980], 768, 48, 48, line), Some(vec![1, 48, 85_995]));
    assert_eq!(
        convolution1_of(&[1, 2, usize::MAX], 768, 48, 48, line),
        None,
        "the padded length has no address"
    );
    let spread = Spread { kernel: (8, 1), stride: (4, 1) };
    assert_eq!(
        transposition_of(&[1, 48, 512, 336], 48 * 16 * 8, 16, 16, spread),
        Some(vec![1, 16, 2_052, 336])
    );
    assert_eq!(transposition_of(&[1, 48, 512, 336], 48 * 16 * 8 + 1, 16, 16, spread), None);
    assert_eq!(transposition_of(&[1, 48, 0, 336], 48 * 16 * 8, 16, 16, spread), None);
    let spread1 = Spread { kernel: (1, 8), stride: (1, 4) };
    assert_eq!(transposition1_of(&[1, 2, 3], 48, 3, 3, spread1), Some(vec![1, 3, 16]));
    assert_eq!(linear_of(&[1, 7, 3], 12, 4), Some(vec![1, 7, 4]));
    assert_eq!(linear_of(&[1, 7, 3], 13, 4), None);
    assert_eq!(linear_of(&[1, 7, 0], 0, 4), None);
    assert!(can_group_norm(&[1, 4, 9], 2, 4, 4));
    assert!(!can_group_norm(&[1, 4, 9], 3, 4, 4));
    assert!(!can_group_norm(&[1, 4, 9], 1, 3, 4));
    assert!(can_group_norm(&[1, 4, 0], 1, 0, 0));
    assert!(can_layer_norm(&[5, 4], 4, 4));
    assert!(!can_layer_norm(&[5, 4], 3, 4));
    assert!(can_sequence_norm(&[1, 5, 4], 4, 4));
    assert!(!can_sequence_norm(&[5, 4], 4, 4));
}

#[test]
fn a_sequence_is_normalised_like_its_channels_swapped() {
    // [2, 3, 2] times by channels, and [2, 2, 3] channels by times.
    let data = [1.0, -2.0, 3.5, 4.0, 0.25, 6.0, 7.0, 7.5, -1.0, 2.0, 0.0, 9.0];
    let x = Tensor::new(vec![2, 3, 2], data.to_vec());
    let mut swapped = Tensor::zeros(vec![2, 2, 3], 0.0);
    for batch in 0..2 {
        for time in 0..3 {
            for channel in 0..2 {
                swapped.set(&[batch, channel, time], x.at(&[batch, time, channel]));
            }
        }
    }
    let (weight, bias) = ([2.0, -0.5], [0.25, 1.0]);
    let out = group_norm_sequence::<Float>(&x, &weight, &bias, 1e-5);
    let other = group_norm::<Float>(&swapped, 1, &weight, &bias, 1e-5);
    for batch in 0..2 {
        for time in 0..3 {
            for channel in 0..2 {
                close(out.at(&[batch, time, channel]), other.at(&[batch, channel, time]));
            }
        }
    }
}

#[test]
fn one_axis_is_two_of_height_one() {
    let data: Vec<f32> = (0..14).map(|v| ((v * 5) % 7) as f32 - 3.0).collect();
    let weight: Vec<f32> = (0..18).map(|v| ((v * 3) % 5) as f32 - 2.0).collect();
    let bias = [0.5, -1.0, 2.0];
    let line = Tensor::new(vec![1, 2, 7], data.clone());
    let plane = Tensor::new(vec![1, 2, 1, 7], data);
    let one = conv1d::<Float>(&line, &weight, &bias, 3, 3, 2, 1, 1);
    let two = conv2d::<Float>(&plane, &weight, &bias, 3, (1, 3), (1, 2), (0, 1));
    assert_eq!(one.shape, vec![1, 3, 4]);
    assert_eq!(two.shape, vec![1, 3, 1, 4]);
    assert_eq!(one.data, two.data);
}

#[test]
fn a_transposed_convolution_is_the_adjoint() {
    // [2, 2, 5, 4] by [3, 2, 3, 2] in steps of two by one.
    let x: Vec<f32> = (0..80).map(|v| ((v * 7) % 11) as f32 - 5.0).collect();
    let weight: Vec<f32> = (0..36).map(|v| ((v * 5) % 7) as f32 - 3.0).collect();
    let x = Tensor::new(vec![2, 2, 5, 4], x);
    let out = conv2d::<Float>(&x, &weight, &[0.0; 3], 3, (3, 2), (2, 1), (0, 0));
    assert_eq!(out.shape, vec![2, 3, 2, 3]);
    let y: Vec<f32> = (0..36).map(|v| ((v * 4) % 13) as f32 - 6.0).collect();
    let y = Tensor::new(out.shape.clone(), y);
    let back = conv_transpose2d::<Float>(&y, &weight, &[0.0; 2], 2, (3, 2), (2, 1));
    assert_eq!(back.shape, x.shape);
    let dot = |a: &Tensor<f32>, b: &Tensor<f32>| -> f32 {
        a.data.iter().zip(&b.data).map(|(a, b)| a * b).sum()
    };
    assert_eq!(dot(&out, &y), dot(&x, &back));
    assert_ne!(dot(&out, &y), 0.0);
}
