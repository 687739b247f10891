//! The real arithmetic that the network is computed in.
//!
//! Every numeric routine of the crate is written once, over any pair of real
//! formats: `Real` for samples, weights and activations, `Wide` for the sums
//! that are accumulated at a higher precision. An implementation of
//! [`Arithmetic`] supplies the operations; the crate fixes which operations
//! are applied to which operands and in which order.

use vstd::prelude::*;

verus! {

/// A pair of real formats and the operations on them.
///
/// Each operation has a specification function of the same name with the
/// suffix `_spec`: its value, as a mathematical function of the operands.
/// The operations themselves promise nothing. Where a result depends on them,
/// the caller shows [`lawful`] of the implementation it uses.
pub trait Arithmetic {
    /// The format of samples, weights and activations.
    type Real: Copy;

    /// The format of long sums.
    type Wide: Copy;

    /// The value of [`Self::zero`].
    open spec fn zero_spec() -> Self::Real {
        choose|r: Self::Real| call_ensures(Self::zero, (), r)
    }

    /// Zero.
    fn zero() -> Self::Real;

    /// The value of [`Self::one`].
    open spec fn one_spec() -> Self::Real {
        choose|r: Self::Real| call_ensures(Self::one, (), r)
    }

    /// One.
    fn one() -> Self::Real;

    /// The value of [`Self::lowest`].
    open spec fn lowest_spec() -> Self::Real {
        choose|r: Self::Real| call_ensures(Self::lowest, (), r)
    }

    /// The most negative finite value.
    fn lowest() -> Self::Real;

    /// The value of [`Self::frac_1_sqrt_2`].
    open spec fn frac_1_sqrt_2_spec() -> Self::Real {
        choose|r: Self::Real| call_ensures(Self::frac_1_sqrt_2, (), r)
    }

    /// One over the square root of two.
    fn frac_1_sqrt_2() -> Self::Real;

    /// The value of [`Self::literal`].
    open spec fn literal_spec(numerator: u32, denominator: u32) -> Self::Real {
        choose|r: Self::Real| call_ensures(Self::literal, (numerator, denominator), r)
    }

    /// The value written as the decimal `numerator / denominator`.
    fn literal(numerator: u32, denominator: u32) -> Self::Real;

    /// The value of [`Self::from_bits`].
    open spec fn from_bits_spec(bits: u32) -> Self::Real {
        choose|r: Self::Real| call_ensures(Self::from_bits, (bits,), r)
    }

    /// The value with this bit pattern.
    fn from_bits(bits: u32) -> Self::Real;

    /// The value of [`Self::from_count`].
    open spec fn from_count_spec(count: usize) -> Self::Real {
        choose|r: Self::Real| call_ensures(Self::from_count, (count,), r)
    }

    /// A count as a real.
    fn from_count(count: usize) -> Self::Real;

    /// The value of [`Self::plus`].
    open spec fn plus_spec(a: Self::Real, b: Self::Real) -> Self::Real {
        choose|r: Self::Real| call_ensures(Self::plus, (a, b), r)
    }

    /// `a + b`.
    fn plus(a: Self::Real, b: Self::Real) -> Self::Real;

    /// The value of [`Self::minus`].
    open spec fn minus_spec(a: Self::Real, b: Self::Real) -> Self::Real {
        choose|r: Self::Real| call_ensures(Self::minus, (a, b), r)
    }

    /// `a - b`.
    fn minus(a: Self::Real, b: Self::Real) -> Self::Real;

    /// The value of [`Self::times`].
    open spec fn times_spec(a: Self::Real, b: Self::Real) -> Self::Real {
        choose|r: Self::Real| call_ensures(Self::times, (a, b), r)
    }

    /// `a * b`.
    fn times(a: Self::Real, b: Self::Real) -> Self::Real;

    /// The value of [`Self::over`].
    open spec fn over_spec(a: Self::Real, b: Self::Real) -> Self::Real {
        choose|r: Self::Real| call_ensures(Self::over, (a, b), r)
    }

    /// `a / b`.
    fn over(a: Self::Real, b: Self::Real) -> Self::Real;

    /// The value of [`Self::larger`].
    open spec fn larger_spec(a: Self::Real, b: Self::Real) -> Self::Real {
        choose|r: Self::Real| call_ensures(Self::larger, (a, b), r)
    }

    /// The larger of the two.
    fn larger(a: Self::Real, b: Self::Real) -> Self::Real;

    /// The value of [`Self::power`].
    open spec fn power_spec(base: Self::Real, exponent: Self::Real) -> Self::Real {
        choose|r: Self::Real| call_ensures(Self::power, (base, exponent), r)
    }

    /// `base` to the power `exponent`.
    fn power(base: Self::Real, exponent: Self::Real) -> Self::Real;

    /// The value of [`Self::negated`].
    open spec fn negated_spec(a: Self::Real) -> Self::Real {
        choose|r: Self::Real| call_ensures(Self::negated, (a,), r)
    }

    /// `-a`.
    fn negated(a: Self::Real) -> Self::Real;

    /// The value of [`Self::exponential`].
    open spec fn exponential_spec(a: Self::Real) -> Self::Real {
        choose|r: Self::Real| call_ensures(Self::exponential, (a,), r)
    }

    /// `e` to the power `a`.
    fn exponential(a: Self::Real) -> Self::Real;

    /// The value of [`Self::logarithm`].
    open spec fn logarithm_spec(a: Self::Real) -> Self::Real {
        choose|r: Self::Real| call_ensures(Self::logarithm, (a,), r)
    }

    /// The natural logarithm.
    fn logarithm(a: Self::Real) -> Self::Real;

    /// The value of [`Self::square_root`].
    open spec fn square_root_spec(a: Self::Real) -> Self::Real {
        choose|r: Self::Real| call_ensures(Self::square_root, (a,), r)
    }

    /// The square root.
    fn square_root(a: Self::Real) -> Self::Real;

    /// The value of [`Self::sine`].
    open spec fn sine_spec(a: Self::Real) -> Self::Real {
        choose|r: Self::Real| call_ensures(Self::sine, (a,), r)
    }

    /// The sine.
    fn sine(a: Self::Real) -> Self::Real;

    /// The value of [`Self::cosine`].
    open spec fn cosine_spec(a: Self::Real) -> Self::Real {
        choose|r: Self::Real| call_ensures(Self::cosine, (a,), r)
    }

    /// The cosine.
    fn cosine(a: Self::Real) -> Self::Real;

    /// The value of [`Self::error_function`].
    open spec fn error_function_spec(a: Self::Real) -> Self::Real {
        choose|r: Self::Real| call_ensures(Self::error_function, (a,), r)
    }

    /// The Gauss error function.
    fn error_function(a: Self::Real) -> Self::Real;

    /// The value of [`Self::exceeds`].
    open spec fn exceeds_spec(a: Self::Real, b: Self::Real) -> bool {
        choose|r: bool| call_ensures(Self::exceeds, (a, b), r)
    }

    /// Whether `a > b`.
    fn exceeds(a: Self::Real, b: Self::Real) -> bool;

    /// The value of [`Self::wide_zero`].
    open spec fn wide_zero_spec() -> Self::Wide {
        choose|r: Self::Wide| call_ensures(Self::wide_zero, (), r)
    }

    /// Zero, wide.
    fn wide_zero() -> Self::Wide;

    /// The value of [`Self::wide_count`].
    open spec fn wide_count_spec(count: usize) -> Self::Wide {
        choose|r: Self::Wide| call_ensures(Self::wide_count, (count,), r)
    }

    /// A count as a wide real.
    fn wide_count(count: usize) -> Self::Wide;

    /// The value of [`Self::widen`].
    open spec fn widen_spec(a: Self::Real) -> Self::Wide {
        choose|r: Self::Wide| call_ensures(Self::widen, (a,), r)
    }

    /// A real, unchanged, in the wide format.
    fn widen(a: Self::Real) -> Self::Wide;

    /// The value of [`Self::narrow`].
    open spec fn narrow_spec(a: Self::Wide) -> Self::Real {
        choose|r: Self::Real| call_ensures(Self::narrow, (a,), r)
    }

    /// A wide real rounded to a real.
    fn narrow(a: Self::Wide) -> Self::Real;

    /// The value of [`Self::wide_plus`].
    open spec fn wide_plus_spec(a: Self::Wide, b: Self::Wide) -> Self::Wide {
        choose|r: Self::Wide| call_ensures(Self::wide_plus, (a, b), r)
    }

    /// `a + b`, wide.
    fn wide_plus(a: Self::Wide, b: Self::Wide) -> Self::Wide;

    /// The value of [`Self::wide_minus`].
    open spec fn wide_minus_spec(a: Self::Wide, b: Self::Wide) -> Self::Wide {
        choose|r: Self::Wide| call_ensures(Self::wide_minus, (a, b), r)
    }

    /// `a - b`, wide.
    fn wide_minus(a: Self::Wide, b: Self::Wide) -> Self::Wide;

    /// The value of [`Self::wide_times`].
    open spec fn wide_times_spec(a: Self::Wide, b: Self::Wide) -> Self::Wide {
        choose|r: Self::Wide| call_ensures(Self::wide_times, (a, b), r)
    }

    /// `a * b`, wide.
    fn wide_times(a: Self::Wide, b: Self::Wide) -> Self::Wide;

    /// The value of [`Self::wide_over`].
    open spec fn wide_over_spec(a: Self::Wide, b: Self::Wide) -> Self::Wide {
        choose|r: Self::Wide| call_ensures(Self::wide_over, (a, b), r)
    }

    /// `a / b`, wide.
    fn wide_over(a: Self::Wide, b: Self::Wide) -> Self::Wide;

    /// The value of [`Self::wide_square`].
    open spec fn wide_square_spec(a: Self::Wide) -> Self::Wide {
        choose|r: Self::Wide| call_ensures(Self::wide_square, (a,), r)
    }

    /// `a * a`, wide.
    fn wide_square(a: Self::Wide) -> Self::Wide;

    /// The value of [`Self::wide_square_root`].
    open spec fn wide_square_root_spec(a: Self::Wide) -> Self::Wide {
        choose|r: Self::Wide| call_ensures(Self::wide_square_root, (a,), r)
    }

    /// The square root, wide.
    fn wide_square_root(a: Self::Wide) -> Self::Wide;

    /// The value of [`Self::wide_exceeds`].
    open spec fn wide_exceeds_spec(a: Self::Wide, b: Self::Wide) -> bool {
        choose|r: bool| call_ensures(Self::wide_exceeds, (a, b), r)
    }

    /// Whether `a > b`, wide.
    fn wide_exceeds(a: Self::Wide, b: Self::Wide) -> bool;

}

/// Whether every operation of `A` returns the value of its specification
/// function.
pub open spec fn lawful<A: Arithmetic>() -> bool {
    &&& lawful_real::<A>()
    &&& lawful_wide::<A>()
}

/// The part of [`lawful`] on operations between reals.
pub open spec fn lawful_real<A: Arithmetic>() -> bool {
    &&& forall|r: A::Real| #[trigger]
        call_ensures(A::zero, (), r) ==> r == A::zero_spec()
    &&& forall|r: A::Real| #[trigger]
        call_ensures(A::one, (), r) ==> r == A::one_spec()
    &&& forall|r: A::Real| #[trigger]
        call_ensures(A::lowest, (), r) ==> r == A::lowest_spec()
    &&& forall|r: A::Real| #[trigger]
        call_ensures(A::frac_1_sqrt_2, (), r) ==> r == A::frac_1_sqrt_2_spec()
    &&& forall|numerator: u32, denominator: u32, r: A::Real| #[trigger]
        call_ensures(A::literal, (numerator, denominator), r) ==> r == A::literal_spec(
        numerator,
        denominator,
    )
    &&& forall|bits: u32, r: A::Real| #[trigger]
        call_ensures(A::from_bits, (bits,), r) ==> r == A::from_bits_spec(bits)
    &&& forall|count: usize, r: A::Real| #[trigger]
        call_ensures(A::from_count, (count,), r) ==> r == A::from_count_spec(count)
    &&& forall|a: A::Real, b: A::Real, r: A::Real| #[trigger]
        call_ensures(A::plus, (a, b), r) ==> r == A::plus_spec(a, b)
    &&& forall|a: A::Real, b: A::Real, r: A::Real| #[trigger]
        call_ensures(A::minus, (a, b), r) ==> r == A::minus_spec(a, b)
    &&& forall|a: A::Real, b: A::Real, r: A::Real| #[trigger]
        call_ensures(A::times, (a, b), r) ==> r == A::times_spec(a, b)
    &&& forall|a: A::Real, b: A::Real, r: A::Real| #[trigger]
        call_ensures(A::over, (a, b), r) ==> r == A::over_spec(a, b)
    &&& forall|a: A::Real, b: A::Real, r: A::Real| #[trigger]
        call_ensures(A::larger, (a, b), r) ==> r == A::larger_spec(a, b)
    &&& forall|base: A::Real, exponent: A::Real, r: A::Real| #[trigger]
        call_ensures(A::power, (base, exponent), r) ==> r == A::power_spec(base, exponent)
    &&& forall|a: A::Real, r: A::Real| #[trigger]
        call_ensures(A::negated, (a,), r) ==> r == A::negated_spec(a)
    &&& forall|a: A::Real, r: A::Real| #[trigger]
        call_ensures(A::exponential, (a,), r) ==> r == A::exponential_spec(a)
    &&& forall|a: A::Real, r: A::Real| #[trigger]
        call_ensures(A::logarithm, (a,), r) ==> r == A::logarithm_spec(a)
    &&& forall|a: A::Real, r: A::Real| #[trigger]
        call_ensures(A::square_root, (a,), r) ==> r == A::square_root_spec(a)
    &&& forall|a: A::Real, r: A::Real| #[trigger]
        call_ensures(A::sine, (a,), r) ==> r == A::sine_spec(a)
    &&& forall|a: A::Real, r: A::Real| #[trigger]
        call_ensures(A::cosine, (a,), r) ==> r == A::cosine_spec(a)
    &&& forall|a: A::Real, r: A::Real| #[trigger]
        call_ensures(A::error_function, (a,), r) ==> r == A::error_function_spec(a)
    &&& forall|a: A::Real, b: A::Real, r: bool| #[trigger]
        call_ensures(A::exceeds, (a, b), r) ==> r == A::exceeds_spec(a, b)
}

/// The part of [`lawful`] on operations that read or give a wide real.
pub open spec fn lawful_wide<A: Arithmetic>() -> bool {
    &&& forall|r: A::Wide| #[trigger]
        call_ensures(A::wide_zero, (), r) ==> r == A::wide_zero_spec()
    &&& forall|count: usize, r: A::Wide| #[trigger]
        call_ensures(A::wide_count, (count,), r) ==> r == A::wide_count_spec(count)
    &&& forall|a: A::Real, r: A::Wide| #[trigger]
        call_ensures(A::widen, (a,), r) ==> r == A::widen_spec(a)
    &&& forall|a: A::Wide, r: A::Real| #[trigger]
        call_ensures(A::narrow, (a,), r) ==> r == A::narrow_spec(a)
    &&& forall|a: A::Wide, b: A::Wide, r: A::Wide| #[trigger]
        call_ensures(A::wide_plus, (a, b), r) ==> r == A::wide_plus_spec(a, b)
    &&& forall|a: A::Wide, b: A::Wide, r: A::Wide| #[trigger]
        call_ensures(A::wide_minus, (a, b), r) ==> r == A::wide_minus_spec(a, b)
    &&& forall|a: A::Wide, b: A::Wide, r: A::Wide| #[trigger]
        call_ensures(A::wide_times, (a, b), r) ==> r == A::wide_times_spec(a, b)
    &&& forall|a: A::Wide, b: A::Wide, r: A::Wide| #[trigger]
        call_ensures(A::wide_over, (a, b), r) ==> r == A::wide_over_spec(a, b)
    &&& forall|a: A::Wide, r: A::Wide| #[trigger]
        call_ensures(A::wide_square, (a,), r) ==> r == A::wide_square_spec(a)
    &&& forall|a: A::Wide, r: A::Wide| #[trigger]
        call_ensures(A::wide_square_root, (a,), r) ==> r == A::wide_square_root_spec(a)
    &&& forall|a: A::Wide, b: A::Wide, r: bool| #[trigger]
        call_ensures(A::wide_exceeds, (a, b), r) ==> r == A::wide_exceeds_spec(a, b)
}

} // verus!
