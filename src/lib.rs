//! Primality testing behind one shared interface: trial division, a
//! deterministic witness test, and a spectrally steered divisor search,
//! collected in a registry that can be searched by name.
use vstd::prelude::*;

pub mod primes;
pub mod sieve;
pub mod miller_rabin;
pub mod zeta;
pub mod registry;
pub mod fermat;

pub use miller_rabin::{is_prime_miller_rabin, MillerRabinAlgorithm};
pub use registry::{Algorithm, PrimalityRegistry, PrimalityTest};
pub use sieve::{is_prime_sieve, SieveAlgorithm};
pub use zeta::{is_prime_zeta, is_prime_zeta_with, zero_count, SpectralBand, ZetaAlgorithm};

use crate::primes::is_prime_spec;

verus! {

/// The number of primes in `2..=n`.
pub open spec fn prime_count(n: nat) -> nat
    decreases n,
{
    if n < 2 {
        0
    } else {
        prime_count((n - 1) as nat) + if is_prime_spec(n) {
            1nat
        } else {
            0nat
        }
    }
}

/// How far apart the samples of `prime_count_data(max_n)` lie: every number
/// up to 1000, every tenth up to 10000, every hundredth beyond.
pub open spec fn sample_step(max_n: nat) -> nat {
    if max_n > 10000 {
        100
    } else if max_n > 1000 {
        10
    } else {
        1
    }
}

/// The samples of `prime_count_data(max_n)` for the numbers `2..=upto`: a pair
/// `m, prime_count(m)` for each `m` that is a multiple of the step or is
/// `max_n` itself.
pub open spec fn count_samples(max_n: nat, upto: nat) -> Seq<u64>
    decreases upto,
{
    if upto < 2 {
        Seq::empty()
    } else {
        let before = count_samples(max_n, (upto - 1) as nat);
        if upto % sample_step(max_n) == 0 || upto == max_n {
            before.push(upto as u64).push(prime_count(upto) as u64)
        } else {
            before
        }
    }
}

/// There are at most `n` primes up to `n`.
proof fn lemma_prime_count_bound(n: nat)
    ensures
        prime_count(n) <= n,
    decreases n,
{
    if n >= 2 {
        lemma_prime_count_bound((n - 1) as nat);
    }
}

/// Whether `n` is prime, by the spectral test.
pub fn is_prime(n: u64) -> (r: bool)
    ensures
        r == is_prime_spec(n as nat),
{
    is_prime_zeta(n)
}

/// The running count of primes up to `max_n`, sampled: flat pairs
/// `m, count of primes up to m`, for the `m` in `2..=max_n` that are multiples
/// of the step of `sample_step(max_n)`, and for `max_n` itself.
pub fn prime_count_data(max_n: u64) -> (r: Vec<u64>)
    ensures
        r@ == count_samples(max_n as nat, max_n as nat),
{
    let mut data: Vec<u64> = Vec::new();
    let mut count: u64 = 0;
    if max_n < 2 {
        return data;
    }
    let mut n: u64 = 2;
    loop
        invariant_except_break
            2 <= n <= max_n,
            count as nat == prime_count((n - 1) as nat),
            data@ == count_samples(max_n as nat, (n - 1) as nat),
        ensures
            data@ == count_samples(max_n as nat, max_n as nat),
        decreases max_n - n,
    {
        proof {
            lemma_prime_count_bound((n - 1) as nat);
        }
        if is_prime_zeta(n) {
            count = count + 1;
        }
        let step: u64 = if max_n > 10000 {
            100
        } else if max_n > 1000 {
            10
        } else {
            1
        };
        if n % step == 0 || n == max_n {
            data.push(n);
            data.push(count);
        }
        if n == max_n {
            break;
        }
        n = n + 1;
    }
    data
}

} // verus!
