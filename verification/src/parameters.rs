//! Parameters, loaded from a bundle by name.
//!
//! A module says which tensors it needs, in the order in which it asks for
//! them. Loading gives the module if all of them are there, and otherwise
//! complains of the first that is not.

use vstd::prelude::*;

use crate::arithmetic::{lawful, Arithmetic};
use crate::text::joined;
use crate::weights::{Store, Weights};

verus! {

/// A tensor that a module asks for, what is said if it is not there, and how
/// many of its extents are looked at.
pub struct Need {
    pub name: Seq<char>,
    pub complaint: Seq<char>,
    pub axes: nat,
}

/// The need of a weight.
pub open spec fn weight_need(name: Seq<char>) -> Need {
    Need { name, complaint: "missing weight "@ + name, axes: 0 }
}

/// The need of a tensor that is complained of by its name alone.
pub open spec fn plain_need(name: Seq<char>) -> Need {
    Need { name, complaint: "missing "@ + name, axes: 0 }
}

/// Whether every need is met.
pub open spec fn met(store: Store, needs: Seq<Need>) -> bool {
    forall|i: int| 0 <= i < needs.len() ==> store.find((#[trigger] needs[i]).name) is Some
}

/// Whether a need can be looked up: its tensor lies within the addresses, and
/// has the extents that are looked at.
pub open spec fn reads(store: Store, need: Need) -> bool {
    &&& store.reads(need.name)
    &&& store.find(need.name) matches Some(block) ==> block.shape.len() >= need.axes
}

/// Whether every need that is looked up can be: all up to the first that is
/// not met.
pub open spec fn readable(store: Store, needs: Seq<Need>) -> bool {
    forall|i: int|
        0 <= i < needs.len() && met(store, needs.take(i)) ==> reads(store, #[trigger] needs[i])
}

/// Whether need `i` is the first that is not met.
pub open spec fn first_unmet(store: Store, needs: Seq<Need>, i: int) -> bool {
    &&& 0 <= i < needs.len()
    &&& store.find(needs[i].name) is None
    &&& met(store, needs.take(i))
}

/// Whether this is the complaint of the first need that is not met.
pub open spec fn unmet(store: Store, needs: Seq<Need>, complaint: Seq<char>) -> bool {
    exists|i: int| #[trigger] first_unmet(store, needs, i) && complaint == needs[i].complaint
}

/// Why a module could not be loaded.
#[derive(Debug)]
pub struct LoadError {
    pub message: String,
}

/// Needs that are met stay met beside others that are, the first that is not
/// stays the first, and what can be looked up can be looked up in turn.
pub proof fn lemma_needs(store: Store, a: Seq<Need>, b: Seq<Need>)
    ensures
        met(store, a) && met(store, b) ==> met(store, a + b),
        forall|complaint: Seq<char>|
            #![trigger unmet(store, a, complaint)]
            unmet(store, a, complaint) ==> unmet(store, a + b, complaint),
        forall|complaint: Seq<char>|
            #![trigger unmet(store, b, complaint)]
            met(store, a) && unmet(store, b, complaint) ==> unmet(store, a + b, complaint),
        readable(store, a + b) ==> readable(store, a),
        readable(store, a + b) && met(store, a) ==> readable(store, b),
{
    let both = a + b;
    if readable(store, both) {
        assert forall|i: int| 0 <= i < a.len() && met(store, a.take(i)) implies reads(
            store,
            #[trigger] a[i],
        ) by {
            assert(both.take(i) =~= a.take(i));
            assert(both[i] == a[i]);
        }
    }
    if readable(store, both) && met(store, a) {
        assert forall|i: int| 0 <= i < b.len() && met(store, b.take(i)) implies reads(
            store,
            #[trigger] b[i],
        ) by {
            let at = a.len() + i;
            assert forall|j: int| 0 <= j < at implies store.find(
                (#[trigger] both.take(at)[j]).name,
            ) is Some by {
                if j >= a.len() {
                    assert(b.take(i)[j - a.len()] == both[j]);
                } else {
                    assert(a[j] == both[j]);
                }
            }
            assert(both[at] == b[i]);
        }
    }
    assert forall|complaint: Seq<char>| unmet(store, a, complaint) implies unmet(
        store,
        both,
        complaint,
    ) by {
        let i = choose|i: int| #[trigger]
            first_unmet(store, a, i) && complaint == a[i].complaint;
        assert(both.take(i) =~= a.take(i));
        assert(first_unmet(store, both, i));
    }
    assert forall|complaint: Seq<char>|
        met(store, a) && #[trigger] unmet(store, b, complaint) implies unmet(
        store,
        both,
        complaint,
    ) by {
        let i = choose|i: int| #[trigger]
            first_unmet(store, b, i) && complaint == b[i].complaint;
        let at = a.len() + i;
        assert forall|j: int| 0 <= j < at implies store.find(
            (#[trigger] both.take(at)[j]).name,
        ) is Some by {
            if j >= a.len() {
                assert(b.take(i)[j - a.len()] == both[j]);
            } else {
                assert(a[j] == both[j]);
            }
        }
        assert(both[at] == b[i]);
        assert(first_unmet(store, both, at));
    }
    if met(store, a) && met(store, b) {
        assert forall|j: int| 0 <= j < both.len() implies store.find(
            (#[trigger] both[j]).name,
        ) is Some by {
            if j >= a.len() {
                assert(b[j - a.len()] == both[j]);
            } else {
                assert(a[j] == both[j]);
            }
        }
    }
}

/// Loading is decided: no need is both met and unmet.
pub proof fn law_loading_is_decided(store: Store, needs: Seq<Need>)
    ensures
        met(store, needs) <==> !exists|complaint: Seq<char>|
            #[trigger] unmet(store, needs, complaint),
    decreases needs.len(),
{
    if needs.len() > 0 {
        let shorter = needs.drop_last();
        law_loading_is_decided(store, shorter);
        lemma_needs(store, shorter, seq![needs.last()]);
        assert(shorter + seq![needs.last()] =~= needs);
        if met(store, shorter) && store.find(needs.last().name) is None {
            assert(needs.take(needs.len() - 1) =~= shorter);
            assert(first_unmet(store, needs, needs.len() - 1));
            assert(unmet(store, needs, needs.last().complaint));
        }
        if met(store, needs) {
            assert forall|j: int| 0 <= j < shorter.len() implies store.find(
                (#[trigger] shorter[j]).name,
            ) is Some by {
                assert(shorter[j] == needs[j]);
            }
        }
    }
    if met(store, needs) {
        assert forall|i: int| !first_unmet(store, needs, i) by {
            if 0 <= i < needs.len() {
                assert(store.find(needs[i].name) is Some);
            }
        }
    }
}

/// The values of a tensor of the bundle, none where it is not there.
pub open spec fn parameter<A: Arithmetic>(store: Store, name: Seq<char>) -> Seq<A::Real> {
    match store.find(name) {
        Some(block) => Seq::new(block.bits.len(), |i: int| A::from_bits_spec(block.bits[i])),
        None => Seq::empty(),
    }
}

fn values<A: Arithmetic>(weights: &Weights, name: &str) -> (found: Option<Vec<A::Real>>)
    requires
        lawful::<A>(),
        weights.wf(),
        weights@.reads(name@),
    ensures
        match weights@.find(name@) {
            Some(block) => found matches Some(values) && values@ == parameter::<A>(
                weights@,
                name@,
            ),
            None => found is None,
        },
{
    let tensor = match weights.tensor(name) {
        Some(tensor) => tensor,
        None => return None,
    };
    let bits = tensor.data();
    let count = bits.len();
    let mut values: Vec<A::Real> = Vec::new();
    while values.len() < count
        invariant
            lawful::<A>(),
            count == bits@.len(),
            values@.len() <= count,
            forall|i: int|
                0 <= i < values@.len() ==> #[trigger] values@[i] == A::from_bits_spec(bits@[i]),
        decreases count - values@.len(),
    {
        values.push(A::from_bits(bits[values.len()]));
    }
    proof {
        assert(values@ =~= parameter::<A>(weights@, name@));
    }
    Some(values)
}

/// The values of a weight.
pub fn load<A: Arithmetic>(weights: &Weights, name: &str) -> (out: Result<
    Vec<A::Real>,
    LoadError,
>)
    requires
        lawful::<A>(),
        weights.wf(),
        readable(weights@, seq![weight_need(name@)]),
    ensures
        match out {
            Ok(values) => met(weights@, seq![weight_need(name@)]) && values@ == parameter::<A>(
                weights@,
                name@,
            ),
            Err(error) => unmet(weights@, seq![weight_need(name@)], error.message@),
        },
{
    proof {
        assert(reads(weights@, seq![weight_need(name@)][0]));
        assert(weights@.find(name@) is None ==> first_unmet(
            weights@,
            seq![weight_need(name@)],
            0,
        ));
    }
    match values::<A>(weights, name) {
        Some(values) => Ok(values),
        None => Err(LoadError { message: joined("missing weight ", name) }),
    }
}

/// The values of a tensor that is complained of by its name alone.
pub fn load_plain<A: Arithmetic>(weights: &Weights, name: &str) -> (out: Result<
    Vec<A::Real>,
    LoadError,
>)
    requires
        lawful::<A>(),
        weights.wf(),
        readable(weights@, seq![plain_need(name@)]),
    ensures
        match out {
            Ok(values) => met(weights@, seq![plain_need(name@)]) && values@ == parameter::<A>(
                weights@,
                name@,
            ),
            Err(error) => unmet(weights@, seq![plain_need(name@)], error.message@),
        },
{
    proof {
        assert(reads(weights@, seq![plain_need(name@)][0]));
        assert(weights@.find(name@) is None ==> first_unmet(
            weights@,
            seq![plain_need(name@)],
            0,
        ));
    }
    match values::<A>(weights, name) {
        Some(values) => Ok(values),
        None => Err(LoadError { message: joined("missing ", name) }),
    }
}

/// A weight and a bias.
pub struct Affine<A: Arithmetic> {
    pub weight: Vec<A::Real>,
    pub bias: Vec<A::Real>,
}

impl<A: Arithmetic> Affine<A> {
    /// What the module of this prefix asks for.
    pub open spec fn needs(prefix: Seq<char>) -> Seq<Need> {
        seq![weight_need(prefix + ".weight"@)] + seq![weight_need(prefix + ".bias"@)]
    }

    /// Whether these are the module's parameters.
    pub open spec fn is_from(self, store: Store, prefix: Seq<char>) -> bool {
        &&& self.weight@ == parameter::<A>(store, prefix + ".weight"@)
        &&& self.bias@ == parameter::<A>(store, prefix + ".bias"@)
    }

    /// Loads the weight, then the bias.
    pub fn load(weights: &Weights, prefix: &str) -> (out: Result<Self, LoadError>)
        requires
            lawful::<A>(),
            weights.wf(),
            readable(weights@, Self::needs(prefix@)),
        ensures
            match out {
                Ok(module) => met(weights@, Self::needs(prefix@)) && module.is_from(
                    weights@,
                    prefix@,
                ),
                Err(error) => unmet(weights@, Self::needs(prefix@), error.message@),
            },
    {
        let weight_name = joined(prefix, ".weight");
        let bias_name = joined(prefix, ".bias");
        proof {
            lemma_needs(
                weights@,
                seq![weight_need(weight_name@)],
                seq![weight_need(bias_name@)],
            );
        }
        let weight = match load::<A>(weights, weight_name.as_str()) {
            Ok(values) => values,
            Err(error) => return Err(error),
        };
        let bias = match load::<A>(weights, bias_name.as_str()) {
            Ok(values) => values,
            Err(error) => return Err(error),
        };
        Ok(Affine { weight, bias })
    }
}

} // verus!
