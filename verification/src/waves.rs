//! The waves that embed positions.

use vstd::prelude::*;

use crate::arithmetic::Arithmetic;
use crate::embedding::{embedding_1d, embedding_2d};
use crate::fields::{
    field, lemma_cancel, lemma_count, lemma_field_is_ring, lemma_multiply_back, lemma_positive,
};
use crate::index::lemma_join2;
use crate::rings::lemma_regroup;

verus! {

/// A plane's positions are embedded by waves: the first half of the channels
/// holds the time, the second the frequency. Pair `i` of a half holds the sine
/// and the cosine of the position times the exponential of a rate, and the rate
/// times the channels of a half is `-2 * i` times the logarithm of the longest
/// period.
pub proof fn law_planes_are_embedded_by_waves<A: Arithmetic>(
    dim: usize,
    frequency: usize,
    time: usize,
    max_period: A::Real,
    t: int,
    f: int,
    i: int,
    rate: A::Real,
)
    requires
        field::<A>(),
        0 <= t < time,
        0 <= f < frequency,
        0 <= i < dim as int / 2 / 2,
        A::times_spec(rate, A::from_count_spec(dim / 2)) == A::times_spec(
            A::negated_spec(A::from_count_spec((2 * i) as usize)),
            A::logarithm_spec(max_period),
        ),
    ensures
        ({
            let half = dim as int / 2;
            let data = embedding_2d::<A>(dim, frequency, time, max_period).data;
            let row = (t * frequency + f) * dim;
            let speed = A::exponential_spec(rate);
            let (at_time, at_frequency) = (
                A::times_spec(A::from_count_spec(t as usize), speed),
                A::times_spec(A::from_count_spec(f as usize), speed),
            );
            &&& data.len() == time * frequency * dim
            &&& data[row + 2 * i] == A::sine_spec(at_time)
            &&& data[row + 2 * i + 1] == A::cosine_spec(at_time)
            &&& data[row + half + 2 * i] == A::sine_spec(at_frequency)
            &&& data[row + half + 2 * i + 1] == A::cosine_spec(at_frequency)
        }),
{
    lemma_field_is_ring::<A>();
    let half = dim as int / 2;
    let n = A::from_count_spec(half as usize);
    lemma_count::<A>(half as usize);
    lemma_positive::<A>(n);
    let step = A::over_spec(A::logarithm_spec(max_period), n);
    let down = A::negated_spec(A::from_count_spec((2 * i) as usize));
    lemma_multiply_back::<A>(A::logarithm_spec(max_period), n);
    lemma_regroup::<A>(down, step, n);
    lemma_cancel::<A>(A::times_spec(down, step), rate, n);
    lemma_join2(time as int, frequency as int, t, f);
    let tokens = time * frequency;
    let token = t * frequency + f;
    lemma_join2(tokens, dim as int, token, 2 * i);
    lemma_join2(tokens, dim as int, token, 2 * i + 1);
    lemma_join2(tokens, dim as int, token, half + 2 * i);
    lemma_join2(tokens, dim as int, token, half + 2 * i + 1);
    assert((2 * i) / 2 == i && (2 * i) % 2 == 0 && (2 * i + 1) / 2 == i && (2 * i + 1) % 2 == 1);
}

/// A line's positions are embedded by waves: channel `i` of the first half of
/// the channels holds the cosine of an angle, and channel `i` of the second its
/// sine. The angle times the longest period to the power of `exponent` is the
/// position, and `exponent` grows from zero to one along the half.
pub proof fn law_lines_are_embedded_by_waves<A: Arithmetic>(
    time: usize,
    dim: usize,
    max_period: A::Real,
    t: int,
    i: int,
    exponent: A::Real,
    angle: A::Real,
)
    requires
        field::<A>(),
        0 <= t < time,
        0 <= i < dim as int / 2,
        2 <= dim as int / 2,
        A::times_spec(exponent, A::from_count_spec((dim as int / 2 - 1) as usize))
            == A::from_count_spec(i as usize),
        A::power_spec(max_period, exponent) != A::zero_spec(),
        A::times_spec(angle, A::power_spec(max_period, exponent)) == A::from_count_spec(
            t as usize,
        ),
    ensures
        ({
            let half = dim as int / 2;
            let data = embedding_1d::<A>(time, dim, max_period).data;
            &&& data.len() == time * dim
            &&& data[t * dim + i] == A::cosine_spec(angle)
            &&& data[t * dim + half + i] == A::sine_spec(angle)
        }),
{
    let half = dim as int / 2;
    let n = A::from_count_spec((half - 1) as usize);
    lemma_count::<A>((half - 1) as usize);
    lemma_positive::<A>(n);
    let share = A::over_spec(A::from_count_spec(i as usize), n);
    lemma_multiply_back::<A>(A::from_count_spec(i as usize), n);
    lemma_cancel::<A>(share, exponent, n);
    let period = A::power_spec(max_period, exponent);
    lemma_multiply_back::<A>(A::from_count_spec(t as usize), period);
    lemma_cancel::<A>(
        A::over_spec(A::from_count_spec(t as usize), period),
        angle,
        period,
    );
    lemma_join2(time as int, dim as int, t, i);
    lemma_join2(time as int, dim as int, t, half + i);
}

} // verus!
