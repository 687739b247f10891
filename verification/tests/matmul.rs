//! The matrix product on 32-bit floats.

use stemsplits::arithmetic::Arithmetic;
use stemsplits::matmul::{matmul, thread_count};

struct Float;

impl Arithmetic for Float {
    type Real = f32;
    type Wide = f64;

    fn zero() -> f32 {
        0.0
    }
    fn one() -> f32 {
        1.0
    }
    fn lowest() -> f32 {
        f32::MIN
    }
    fn frac_1_sqrt_2() -> f32 {
        std::f32::consts::FRAC_1_SQRT_2
    }
    fn literal(numerator: u32, denominator: u32) -> f32 {
        (numerator as f64 / denominator as f64) as f32
    }
    fn from_bits(bits: u32) -> f32 {
        f32::from_bits(bits)
    }
    fn from_count(count: usize) -> f32 {
        count as f32
    }
    fn plus(a: f32, b: f32) -> f32 {
        a + b
    }
    fn minus(a: f32, b: f32) -> f32 {
        a - b
    }
    fn times(a: f32, b: f32) -> f32 {
        a * b
    }
    fn over(a: f32, b: f32) -> f32 {
        a / b
    }
    fn larger(a: f32, b: f32) -> f32 {
        a.max(b)
    }
    fn power(base: f32, exponent: f32) -> f32 {
        base.powf(exponent)
    }
    fn negated(a: f32) -> f32 {
        -a
    }
    fn exponential(a: f32) -> f32 {
        a.exp()
    }
    fn logarithm(a: f32) -> f32 {
        a.ln()
    }
    fn square_root(a: f32) -> f32 {
        a.sqrt()
    }
    fn sine(a: f32) -> f32 {
        a.sin()
    }
    fn cosine(a: f32) -> f32 {
        a.cos()
    }
    fn error_function(a: f32) -> f32 {
        libm::erff(a)
    }
    fn exceeds(a: f32, b: f32) -> bool {
        a > b
    }
    fn wide_zero() -> f64 {
        0.0
    }
    fn wide_count(count: usize) -> f64 {
        count as f64
    }
    fn widen(a: f32) -> f64 {
        a as f64
    }
    fn narrow(a: f64) -> f32 {
        a as f32
    }
    fn wide_plus(a: f64, b: f64) -> f64 {
        a + b
    }
    fn wide_minus(a: f64, b: f64) -> f64 {
        a - b
    }
    fn wide_times(a: f64, b: f64) -> f64 {
        a * b
    }
    fn wide_over(a: f64, b: f64) -> f64 {
        a / b
    }
    fn wide_square(a: f64) -> f64 {
        a.powi(2)
    }
    fn wide_square_root(a: f64) -> f64 {
        a.sqrt()
    }
    fn wide_exceeds(a: f64, b: f64) -> bool {
        a > b
    }
}

#[test]
fn matmul_matches_a_hand_computation() {
    // [2,3] @ [3,2]
    let a = [1.0, 2.0, 3.0, 4.0, 5.0, 6.0];
    let b = [7.0, 8.0, 9.0, 10.0, 11.0, 12.0];
    let mut out = [0.0; 4];
    matmul::<Float>(&a, &b, &mut out, 2, 3, 2);
    assert_eq!(out, [58.0, 64.0, 139.0, 154.0]);
}

#[test]
fn matmul_agrees_with_a_direct_loop_past_the_simd_width() {
    let (m, k, n) = (37, 130, 19);
    let a: Vec<f32> = (0..m * k)
        .map(|i| ((i * 2654435761usize) % 1000) as f32 / 1000.0)
        .collect();
    let b: Vec<f32> = (0..k * n)
        .map(|i| ((i * 40503usize) % 997) as f32 / 997.0)
        .collect();
    let mut got = vec![0.0f32; m * n];
    matmul::<Float>(&a, &b, &mut got, m, k, n);
    for row in 0..m {
        for column in 0..n {
            let mut expected = 0.0f32;
            for inner in 0..k {
                expected += a[row * k + inner] * b[inner * n + column];
            }
            assert!(
                (got[row * n + column] - expected).abs() < 1e-3,
                "at {row},{column}: {} vs {expected}",
                got[row * n + column]
            );
        }
    }
}

#[test]
fn one_thread_without_a_usable_setting() {
    assert_eq!(thread_count(None), 1);
    assert_eq!(thread_count(Some("many")), 1);
    assert_eq!(thread_count(Some("0")), 1);
    assert_eq!(thread_count(Some("-4")), 1);
    assert_eq!(thread_count(Some("6")), 6);
}
