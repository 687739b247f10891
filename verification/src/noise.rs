//! Deterministic noise, for runs that compare like for like.

use vstd::prelude::*;

verus! {

/// The multiplier of the generator.
pub const MULTIPLIER: u64 = 6_364_136_223_846_793_005;

/// The increment of the generator.
pub const INCREMENT: u64 = 1_442_695_040_888_963_407;

/// The state of the linear congruential generator after `steps` steps.
pub open spec fn state(seed: u64, steps: nat) -> int
    decreases steps,
{
    if steps == 0 {
        seed as int
    } else {
        (state(seed, (steps - 1) as nat) * MULTIPLIER + INCREMENT) % 0x1_0000_0000_0000_0000
    }
}

/// The upper 53 bits of the first `count` states after the seed.
pub fn noise(count: usize, seed: u64) -> (draws: Vec<u64>)
    ensures
        draws@.len() == count,
        forall|i: int|
            0 <= i < count ==> #[trigger] draws@[i] == state(seed, (i + 1) as nat) / 2_048,
        forall|i: int| 0 <= i < count ==> #[trigger] draws@[i] < 0x20_0000_0000_0000,
{
    let mut draws: Vec<u64> = Vec::with_capacity(count);
    let mut current: u64 = seed;
    while draws.len() < count
        invariant
            draws@.len() <= count,
            current == state(seed, draws@.len()),
            forall|i: int|
                0 <= i < draws@.len() ==> #[trigger] draws@[i] == state(seed, (i + 1) as nat)
                    / 2_048,
            forall|i: int| 0 <= i < draws@.len() ==> #[trigger] draws@[i] < 0x20_0000_0000_0000,
        decreases count - draws@.len(),
    {
        let ghost before = current;
        current = current.wrapping_mul(MULTIPLIER).wrapping_add(INCREMENT);
        proof {
            let product = before * MULTIPLIER;
            let modulus = 0x1_0000_0000_0000_0000int;
            lemma_wrapped(product, INCREMENT as int, modulus);
        }
        draws.push(current / 2_048);
    }
    draws
}

/// Reducing a product first does not change what a sum reduces to.
proof fn lemma_wrapped(product: int, added: int, modulus: int)
    requires
        modulus > 0,
    ensures
        (product % modulus + added) % modulus == (product + added) % modulus,
{
    vstd::arithmetic::div_mod::lemma_add_mod_noop(product, added, modulus);
    vstd::arithmetic::div_mod::lemma_add_mod_noop(product % modulus, added, modulus);
    vstd::arithmetic::div_mod::lemma_mod_twice(product, modulus);
}

} // verus!
