//! Trial division by every odd number up to the square root.
use vstd::prelude::*;

use crate::primes::{
    is_prime_spec, lemma_odd_no_divisor_below, lemma_prime_past_root, odd_divisor_pass,
};
use crate::registry::PrimalityTest;

verus! {

/// Primality by trial division: deterministic and exact.
#[derive(Clone, Copy, Debug, Default)]
pub struct SieveAlgorithm;

impl PrimalityTest for SieveAlgorithm {
    open spec fn spec_name(&self) -> Seq<char> {
        sieve_name()
    }

    open spec fn verdict(&self, n: nat) -> bool {
        is_prime_spec(n)
    }

    fn name(&self) -> (r: &'static str) {
        "Sieve of Eratosthenes"
    }

    fn is_prime(&self, n: u64) -> (r: bool) {
        is_prime_sieve(n)
    }
}

/// The name of trial division.
pub open spec fn sieve_name() -> Seq<char> {
    "Sieve of Eratosthenes"@
}

/// Tests whether `n` is prime by dividing it by two and by every odd number
/// whose square does not exceed `n`.
pub fn is_prime_sieve(n: u64) -> (r: bool)
    ensures
        r == is_prime_spec(n as nat),
{
    if n <= 1 {
        return false;
    }
    if n == 2 {
        return true;
    }
    if n % 2 == 0 {
        assert((n as nat) % 2 == 0);
        return false;
    }
    proof {
        lemma_odd_no_divisor_below(n as nat, 3);
    }
    let (found, stop) = odd_divisor_pass(n, 3, u64::MAX);
    if found {
        return false;
    }
    proof {
        lemma_prime_past_root(n as nat, stop as nat);
    }
    true
}

} // verus!
