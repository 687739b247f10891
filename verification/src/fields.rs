//! Arithmetic without rounding: the operations of an ordered field that has
//! roots and exponentials.

use vstd::prelude::*;

use crate::arithmetic::Arithmetic;
use crate::rings::{lemma_commute, lemma_regroup, lemma_zero, ring, total};

verus! {

/// Whether the operations on reals are those of an ordered field with roots
/// and exponentials.
#[verifier::opaque]
pub open spec fn field<A: Arithmetic>() -> bool {
    &&& ring::<A>()
    &&& forall|a: A::Real| #[trigger] A::times_spec(A::one_spec(), a) == a
    &&& forall|a: A::Real, b: A::Real|
        A::plus_spec(#[trigger] A::minus_spec(a, b), b) == a
    &&& forall|a: A::Real| A::plus_spec(#[trigger] A::negated_spec(a), a) == A::zero_spec()
    &&& forall|a: A::Real, b: A::Real|
        b != A::zero_spec() ==> A::times_spec(#[trigger] A::over_spec(a, b), b) == a
    &&& !A::exceeds_spec(A::zero_spec(), A::zero_spec())
    &&& A::exceeds_spec(A::one_spec(), A::zero_spec())
    &&& forall|a: A::Real, b: A::Real|
        A::exceeds_spec(a, A::zero_spec()) && A::exceeds_spec(b, A::zero_spec())
            ==> A::exceeds_spec(#[trigger] A::plus_spec(a, b), A::zero_spec())
    &&& forall|a: A::Real, b: A::Real|
        A::exceeds_spec(a, A::zero_spec()) && A::exceeds_spec(b, A::zero_spec())
            ==> A::exceeds_spec(#[trigger] A::over_spec(a, b), A::zero_spec())
    &&& forall|a: A::Real, b: A::Real|
        A::exceeds_spec(a, A::zero_spec()) && A::exceeds_spec(b, A::zero_spec())
            ==> A::exceeds_spec(#[trigger] A::times_spec(a, b), A::zero_spec())
    &&& A::from_count_spec(0) == A::zero_spec()
    &&& forall|n: usize|
        0 < n ==> #[trigger] A::from_count_spec(n) == A::plus_spec(
            A::from_count_spec((n - 1) as usize),
            A::one_spec(),
        )
    &&& forall|n: u32, d: u32|
        0 < d ==> A::times_spec(
            #[trigger] A::literal_spec(n, d),
            A::from_count_spec(d as usize),
        ) == A::from_count_spec(n as usize)
    &&& forall|a: A::Real|
        A::exceeds_spec(a, A::zero_spec()) ==> A::exceeds_spec(
            #[trigger] A::square_root_spec(a),
            A::zero_spec(),
        ) && A::times_spec(A::square_root_spec(a), A::square_root_spec(a)) == a
    &&& A::times_spec(
        A::frac_1_sqrt_2_spec(),
        A::square_root_spec(A::from_count_spec(2)),
    ) == A::one_spec()
    &&& forall|a: A::Real|
        A::exceeds_spec(#[trigger] A::exponential_spec(a), A::zero_spec())
    &&& forall|a: A::Real, b: A::Real| #[trigger]
        A::exponential_spec(A::plus_spec(a, b)) == A::times_spec(
            A::exponential_spec(a),
            A::exponential_spec(b),
        )
}

/// Whether nothing is lost between the two formats: a wide real is a real, and
/// the operations on wide reals are those on reals.
#[verifier::opaque]
pub open spec fn exact<A: Arithmetic>() -> bool {
    &&& field::<A>()
    &&& forall|w: A::Wide| A::widen_spec(#[trigger] A::narrow_spec(w)) == w
    &&& forall|a: A::Real| A::narrow_spec(#[trigger] A::widen_spec(a)) == a
    &&& A::wide_zero_spec() == A::widen_spec(A::zero_spec())
    &&& forall|n: usize| #[trigger] A::wide_count_spec(n) == A::widen_spec(A::from_count_spec(n))
    &&& forall|a: A::Real, b: A::Real| #[trigger]
        A::wide_plus_spec(A::widen_spec(a), A::widen_spec(b)) == A::widen_spec(
            A::plus_spec(a, b),
        )
    &&& forall|a: A::Real, b: A::Real| #[trigger]
        A::wide_minus_spec(A::widen_spec(a), A::widen_spec(b)) == A::widen_spec(
            A::minus_spec(a, b),
        )
    &&& forall|a: A::Real, b: A::Real| #[trigger]
        A::wide_times_spec(A::widen_spec(a), A::widen_spec(b)) == A::widen_spec(
            A::times_spec(a, b),
        )
    &&& forall|a: A::Real, b: A::Real| #[trigger]
        A::wide_over_spec(A::widen_spec(a), A::widen_spec(b)) == A::widen_spec(
            A::over_spec(a, b),
        )
    &&& forall|a: A::Real| #[trigger]
        A::wide_square_spec(A::widen_spec(a)) == A::widen_spec(A::times_spec(a, a))
    &&& forall|a: A::Real| #[trigger]
        A::wide_square_root_spec(A::widen_spec(a)) == A::widen_spec(A::square_root_spec(a))
    &&& forall|a: A::Real, b: A::Real| #[trigger]
        A::wide_exceeds_spec(A::widen_spec(a), A::widen_spec(b)) == A::exceeds_spec(a, b)
}

pub proof fn lemma_exact_is_field<A: Arithmetic>()
    requires
        exact::<A>(),
    ensures
        field::<A>(),
{
    reveal(exact);
}

pub proof fn lemma_field_is_ring<A: Arithmetic>()
    requires
        field::<A>(),
    ensures
        ring::<A>(),
{
    reveal(field);
}

/// One is neutral on either side.
pub proof fn lemma_unit<A: Arithmetic>(a: A::Real)
    requires
        field::<A>(),
    ensures
        A::times_spec(A::one_spec(), a) == a,
        A::times_spec(a, A::one_spec()) == a,
{
    reveal(field);
    lemma_commute::<A>(a, A::one_spec());
}

/// Zero is neutral on either side.
pub proof fn lemma_neutral<A: Arithmetic>(a: A::Real)
    requires
        ring::<A>(),
    ensures
        A::plus_spec(a, A::zero_spec()) == a,
        A::plus_spec(A::zero_spec(), a) == a,
{
    lemma_zero::<A>(a);
    lemma_commute::<A>(a, A::zero_spec());
}

/// What was taken off can be put back.
pub proof fn lemma_put_back<A: Arithmetic>(a: A::Real, b: A::Real)
    requires
        field::<A>(),
    ensures
        A::plus_spec(A::minus_spec(a, b), b) == a,
{
    reveal(field);
}

/// What was divided can be multiplied back.
pub proof fn lemma_multiply_back<A: Arithmetic>(a: A::Real, b: A::Real)
    requires
        field::<A>(),
        b != A::zero_spec(),
    ensures
        A::times_spec(A::over_spec(a, b), b) == a,
{
    reveal(field);
}

/// A positive value is not zero.
pub proof fn lemma_positive<A: Arithmetic>(a: A::Real)
    requires
        field::<A>(),
        A::exceeds_spec(a, A::zero_spec()),
    ensures
        a != A::zero_spec(),
{
    reveal(field);
}

/// Equal products with a factor other than zero have equal other factors.
pub proof fn lemma_cancel<A: Arithmetic>(a: A::Real, b: A::Real, c: A::Real)
    requires
        field::<A>(),
        c != A::zero_spec(),
        A::times_spec(a, c) == A::times_spec(b, c),
    ensures
        a == b,
{
    lemma_field_is_ring::<A>();
    let inverse = A::over_spec(A::one_spec(), c);
    lemma_multiply_back::<A>(A::one_spec(), c);
    lemma_commute::<A>(inverse, c);
    lemma_regroup::<A>(a, c, inverse);
    lemma_regroup::<A>(b, c, inverse);
    lemma_unit::<A>(a);
    lemma_unit::<A>(b);
}

/// Equal sums with the same addend have equal other addends.
pub proof fn lemma_cancel_addend<A: Arithmetic>(a: A::Real, b: A::Real, c: A::Real)
    requires
        field::<A>(),
        A::plus_spec(a, c) == A::plus_spec(b, c),
    ensures
        a == b,
{
    lemma_field_is_ring::<A>();
    let opposite = A::negated_spec(c);
    assert(A::plus_spec(opposite, c) == A::zero_spec()) by {
        reveal(field);
    }
    lemma_commute::<A>(opposite, c);
    lemma_regroup::<A>(a, c, opposite);
    lemma_regroup::<A>(b, c, opposite);
    lemma_zero::<A>(a);
    lemma_zero::<A>(b);
}

/// A count other than zero is positive.
pub proof fn lemma_count<A: Arithmetic>(n: usize)
    requires
        field::<A>(),
        n > 0,
    ensures
        A::exceeds_spec(A::from_count_spec(n), A::zero_spec()),
    decreases n,
{
    reveal(field);
    let before = A::from_count_spec((n - 1) as usize);
    assert(A::from_count_spec(n) == A::plus_spec(before, A::one_spec()));
    if n == 1 {
        lemma_neutral::<A>(A::one_spec());
    } else {
        lemma_count::<A>((n - 1) as usize);
    }
}

/// The root of a positive value is positive, and its square is the value.
pub proof fn lemma_root<A: Arithmetic>(a: A::Real)
    requires
        field::<A>(),
        A::exceeds_spec(a, A::zero_spec()),
    ensures
        A::exceeds_spec(A::square_root_spec(a), A::zero_spec()),
        A::square_root_spec(a) != A::zero_spec(),
        A::times_spec(A::square_root_spec(a), A::square_root_spec(a)) == a,
{
    reveal(field);
}

/// A sum of positive terms is positive.
pub proof fn lemma_total_positive<A: Arithmetic>(n: int, f: spec_fn(int) -> A::Real)
    requires
        field::<A>(),
        n > 0,
        forall|i: int| 0 <= i < n ==> A::exceeds_spec(#[trigger] f(i), A::zero_spec()),
    ensures
        A::exceeds_spec(total::<A>(n, f), A::zero_spec()),
    decreases n,
{
    lemma_field_is_ring::<A>();
    assert(A::exceeds_spec(f(n - 1), A::zero_spec()));
    assert(total::<A>(n, f) == A::plus_spec(total::<A>(n - 1, f), f(n - 1)));
    if n == 1 {
        assert(total::<A>(0, f) == A::zero_spec());
        lemma_neutral::<A>(f(0));
    } else {
        lemma_total_positive::<A>(n - 1, f);
        reveal(field);
    }
}

/// The exponential of a difference, with what was taken off put back.
pub proof fn lemma_exponential<A: Arithmetic>(a: A::Real, b: A::Real)
    requires
        field::<A>(),
    ensures
        A::times_spec(
            A::exponential_spec(A::minus_spec(a, b)),
            A::exponential_spec(b),
        ) == A::exponential_spec(a),
        A::exceeds_spec(A::exponential_spec(a), A::zero_spec()),
{
    reveal(field);
    assert(A::plus_spec(A::minus_spec(a, b), b) == a);
    assert(A::exponential_spec(A::plus_spec(A::minus_spec(a, b), b)) == A::times_spec(
        A::exponential_spec(A::minus_spec(a, b)),
        A::exponential_spec(b),
    ));
}

} // verus!
