//! What the activations satisfy where nothing is rounded.

use vstd::prelude::*;

use crate::arithmetic::Arithmetic;
use crate::fields::{
    field, lemma_cancel, lemma_count, lemma_field_is_ring, lemma_multiply_back, lemma_neutral,
    lemma_positive, lemma_root, lemma_unit,
};
use crate::index::{at3, lemma_join3};
use crate::ops::{gelu_of, gelu_spec, glu_spec, sigmoid_of};
use crate::rings::{lemma_commute, lemma_distribute, lemma_regroup};
use crate::tensor::{volume, Grid};

verus! {

/// The GELU weighs a value by the normal distribution: twice the GELU of `v` is
/// `v` plus `v` times the error function of `v` over the root of two.
pub proof fn law_gelu_weighs_by_the_normal_distribution<A: Arithmetic>(v: A::Real, u: A::Real)
    requires
        field::<A>(),
        A::times_spec(u, A::square_root_spec(A::from_count_spec(2))) == v,
    ensures
        A::plus_spec(gelu_of::<A>(v), gelu_of::<A>(v)) == A::plus_spec(
            v,
            A::times_spec(v, A::error_function_spec(u)),
        ),
{
    lemma_field_is_ring::<A>();
    let one = A::one_spec();
    let half = A::literal_spec(1, 2);
    let root = A::square_root_spec(A::from_count_spec(2));
    let frac = A::frac_1_sqrt_2_spec();
    lemma_count::<A>(2);
    lemma_root::<A>(A::from_count_spec(2));
    assert({
        &&& A::times_spec(frac, root) == one
        &&& A::times_spec(half, A::from_count_spec(2)) == A::from_count_spec(1)
        &&& A::from_count_spec(2) == A::plus_spec(A::from_count_spec(1), one)
        &&& A::from_count_spec(1) == A::plus_spec(A::from_count_spec(0), one)
        &&& A::from_count_spec(0) == A::zero_spec()
    }) by {
        reveal(field);
    }
    lemma_neutral::<A>(one);
    // The error function is taken of `u`.
    lemma_regroup::<A>(v, frac, root);
    lemma_unit::<A>(v);
    lemma_cancel::<A>(A::times_spec(v, frac), u, root);
    // Two halves are one.
    lemma_commute::<A>(half, A::plus_spec(one, one));
    lemma_distribute::<A>(one, one, half);
    lemma_unit::<A>(half);
    assert(A::plus_spec(half, half) == one);
    let e = A::error_function_spec(u);
    let rest = A::plus_spec(one, e);
    let part = A::times_spec(half, v);
    lemma_distribute::<A>(part, part, rest);
    lemma_distribute::<A>(half, half, v);
    lemma_unit::<A>(v);
    assert(A::plus_spec(gelu_of::<A>(v), gelu_of::<A>(v)) == A::times_spec(v, rest));
    lemma_commute::<A>(v, rest);
    lemma_distribute::<A>(one, e, v);
    lemma_commute::<A>(e, v);
}

/// The GELU is taken of every entry alone.
pub proof fn law_gelu_is_taken_of_every_entry<A: Arithmetic>(x: Grid<A::Real>, p: int)
    requires
        0 <= p < x.data.len(),
    ensures
        gelu_spec::<A>(x).shape == x.shape,
        gelu_spec::<A>(x).data.len() == x.data.len(),
        gelu_spec::<A>(x).data[p] == gelu_of::<A>(x.data[p]),
{
}

/// The logistic function of `v` times one plus the exponential of `-v` is one.
pub proof fn law_the_logistic_function<A: Arithmetic>(v: A::Real)
    requires
        field::<A>(),
    ensures
        A::times_spec(
            sigmoid_of::<A>(v),
            A::plus_spec(A::one_spec(), A::exponential_spec(A::negated_spec(v))),
        ) == A::one_spec(),
        A::exceeds_spec(sigmoid_of::<A>(v), A::zero_spec()),
{
    let below = A::plus_spec(A::one_spec(), A::exponential_spec(A::negated_spec(v)));
    assert(A::exceeds_spec(below, A::zero_spec())) by {
        reveal(field);
    }
    lemma_positive::<A>(below);
    lemma_multiply_back::<A>(A::one_spec(), below);
    reveal(field);
}

/// A gated linear unit lets the first half of the channels through as far as
/// the second half opens: an entry times one plus the exponential of what
/// stands half the channels further, negated, is the entry of the first half.
pub proof fn law_the_second_half_gates_the_first<A: Arithmetic>(
    x: Grid<A::Real>,
    b: int,
    c: int,
    s: int,
)
    requires
        field::<A>(),
        x.shape.len() >= 2,
        0 <= b < x.shape[0],
        0 <= c < x.shape[1] as int / 2,
        0 <= s < volume(x.shape.skip(2)),
    ensures
        ({
            let n = volume(x.shape.skip(2)) as int;
            let c0 = x.shape[1] as int;
            &&& glu_spec::<A>(x).shape == x.shape.update(1, x.shape[1] / 2)
            &&& A::times_spec(
                at3(glu_spec::<A>(x).data, c0 / 2, n, b, c, s),
                A::plus_spec(
                    A::one_spec(),
                    A::exponential_spec(
                        A::negated_spec(at3(x.data, c0, n, b, c + c0 / 2, s)),
                    ),
                ),
            ) == at3(x.data, c0, n, b, c, s)
        }),
{
    lemma_field_is_ring::<A>();
    let n = volume(x.shape.skip(2)) as int;
    let c0 = x.shape[1] as int;
    lemma_join3(x.shape[0] as int, c0 / 2, n, b, c, s);
    let value = at3(x.data, c0, n, b, c, s);
    let opener = at3(x.data, c0, n, b, c + c0 / 2, s);
    law_the_logistic_function::<A>(opener);
    lemma_regroup::<A>(
        value,
        sigmoid_of::<A>(opener),
        A::plus_spec(A::one_spec(), A::exponential_spec(A::negated_spec(opener))),
    );
    lemma_unit::<A>(value);
}

} // verus!
