//! The spectrally steered test: a screen by the primes below one hundred,
//! then a divisor search whose order a spectral score chooses. The score is a
//! floating-point quantity computed by the caller; whatever band it falls in,
//! the search runs to the square root, so the verdict is exact.
use vstd::prelude::*;

use crate::primes::{
    is_prime_spec, lemma_odd_no_divisor_below, lemma_prime_past_root, odd_divisor_pass,
};
use crate::registry::PrimalityTest;

verus! {

/// The primes below one hundred, in ascending order.
pub open spec fn small_primes() -> Seq<nat> {
    seq![
        2, 3, 5, 7, 11, 13, 17, 19, 23, 29, 31, 37, 41, 43, 47, 53, 59, 61, 67, 71, 73, 79, 83, 89,
        97,
    ]
}

/// `f` divides `d` and `d` divides `n`, so `f` divides `n`.
proof fn lemma_divides_trans(n: nat, d: nat, f: nat)
    requires
        f > 0,
        d > 0,
        n % d == 0,
        d % f == 0,
    ensures
        n % f == 0,
{
    let a = n / d;
    let b = d / f;
    assert(n == d * a) by (nonlinear_arith)
        requires n % d == 0, d > 0, a == n / d;
    assert(d == f * b) by (nonlinear_arith)
        requires d % f == 0, f > 0, b == d / f;
    assert(n == f * (b * a)) by (nonlinear_arith)
        requires n == d * a, d == f * b;
    assert((f * (b * a)) % f == 0) by (nonlinear_arith)
        requires f > 0;
}

/// `small_primes` is strictly increasing.
proof fn lemma_small_primes_sorted(a: int, b: int)
    requires
        0 <= a < b < 25,
    ensures
        small_primes()[a] < small_primes()[b],
    decreases b - a,
{
    if b > a + 1 {
        lemma_small_primes_sorted(a, b - 1);
        lemma_small_primes_sorted(b - 1, b);
    }
}

/// Every number in `2..101` has a factor in `small_primes` no larger than itself.
proof fn lemma_small_factor(d: nat) -> (j: int)
    requires
        2 <= d < 101,
    ensures
        0 <= j < 25,
        small_primes()[j] <= d,
        d % small_primes()[j] == 0,
{
    let s = small_primes();
    if d % 2 == 0 {
        0
    } else if d % 3 == 0 {
        1
    } else if d % 5 == 0 {
        2
    } else if d % 7 == 0 {
        3
    } else {
        assert(d == 11 || d == 13 || d == 17 || d == 19 || d == 23 || d == 29 || d == 31 || d == 37
            || d == 41 || d == 43 || d == 47 || d == 53 || d == 59 || d == 61 || d == 67 || d == 71
            || d == 73 || d == 79 || d == 83 || d == 89 || d == 97);
        let j = choose|j: int| 4 <= j < 25 && s[j] == d;
        assert(d % d == 0) by (nonlinear_arith)
            requires d > 0;
        j
    }
}

/// Where the spectral score of a candidate falls against the two thresholds
/// (above 5.5, below 3.0, or between them).
#[derive(Clone, Copy, Debug, PartialEq, Eq, Structural)]
pub enum SpectralBand {
    /// A strong prime signature: the first pass stops at 1000.
    Strong,
    /// A weak prime signature: the first pass stops at 5000.
    Weak,
    /// Neither: a single pass up to the square root.
    Uncertain,
}

/// How many zeta zeros the score uses for `n`.
pub open spec fn zero_count_spec(n: nat) -> nat {
    if n < 1000 {
        20
    } else if n < 10000 {
        30
    } else {
        40
    }
}

/// Primality by the spectral test; the score only orders the work.
#[derive(Clone, Copy, Debug, Default)]
pub struct ZetaAlgorithm;

impl PrimalityTest for ZetaAlgorithm {
    open spec fn spec_name(&self) -> Seq<char> {
        zeta_name()
    }

    open spec fn verdict(&self, n: nat) -> bool {
        is_prime_spec(n)
    }

    fn name(&self) -> (r: &'static str) {
        "Riemann Zeta"
    }

    fn is_prime(&self, n: u64) -> (r: bool) {
        is_prime_zeta(n)
    }
}

/// The name of the spectral test.
pub open spec fn zeta_name() -> Seq<char> {
    "Riemann Zeta"@
}

/// How many zeta zeros the score uses for `n`: 20 below 1000, 30 below
/// 10000, 40 from there on.
pub fn zero_count(n: u64) -> (r: usize)
    ensures
        r as nat == zero_count_spec(n as nat),
{
    if n < 1000 {
        20
    } else if n < 10000 {
        30
    } else {
        40
    }
}

/// Trial division for the candidates below one hundred.
fn is_prime_trial_small(n: u64) -> (r: bool)
    ensures
        r == is_prime_spec(n as nat),
{
    if n <= 1 {
        return false;
    }
    if n == 2 {
        return true;
    }
    if n % 2 == 0 {
        return false;
    }
    proof {
        lemma_odd_no_divisor_below(n as nat, 3);
    }
    let (found, stop) = odd_divisor_pass(n, 3, u64::MAX);
    if found {
        return false;
    }
    proof {
        lemma_prime_past_root(n as nat, stop as nat);
    }
    true
}

/// The screen by the primes below one hundred, then the divisor search from
/// 101 in the order that `band` gives.
fn spectroscopic_search(n: u64, band: SpectralBand) -> (r: bool)
    requires
        n >= 2,
    ensures
        r == is_prime_spec(n as nat),
{
    let small: [u64; 25] = [
        2, 3, 5, 7, 11, 13, 17, 19, 23, 29, 31, 37, 41, 43, 47, 53, 59, 61, 67, 71, 73, 79, 83, 89,
        97,
    ];
    assert(small@ =~= seq![
        2u64, 3, 5, 7, 11, 13, 17, 19, 23, 29, 31, 37, 41, 43, 47, 53, 59, 61, 67, 71, 73, 79, 83,
        89, 97,
    ]);
    let mut i: usize = 0;
    while i < 25
        invariant
            n >= 2,
            forall|k: int| 0 <= k < 25 ==> small@[k] as nat == #[trigger] small_primes()[k],
            forall|k: int| 0 <= k < i ==> (n as nat) % #[trigger] small_primes()[k] != 0,
        decreases 25 - i,
    {
        let p = small[i];
        assert(p as nat == small_primes()[i as int]);
        if n == p {
            assert forall|d: nat| 2 <= d < n implies #[trigger] ((n as nat) % d) != 0 by {
                if (n as nat) % d == 0 {
                    let j = lemma_small_factor(d);
                    if j >= i {
                        if j > i {
                            lemma_small_primes_sorted(i as int, j);
                        }
                    }
                    lemma_divides_trans(n as nat, d, small_primes()[j]);
                }
            }
            return true;
        }
        if n % p == 0 {
            if n < p {
                assert(n % p == n);
            }
            assert(2 <= p < n && (n as nat) % (p as nat) == 0);
            return false;
        }
        i = i + 1;
    }
    proof {
        assert forall|d: nat| 2 <= d < 101 implies #[trigger] ((n as nat) % d) != 0 by {
            if (n as nat) % d == 0 {
                let j = lemma_small_factor(d);
                lemma_divides_trans(n as nat, d, small_primes()[j]);
            }
        }
        assert((n as nat) % small_primes()[0] != 0);
        assert(n % 2 == 1 && n >= 3);
    }
    // The uncertain band's skip-ahead step applies only at candidates past
    // 1000 that are multiples of 100. The candidates are all odd, so it never
    // applies, and the search here has no such step.
    let (found, stop) = match band {
        SpectralBand::Strong => {
            let (found, stop) = odd_divisor_pass(n, 101, 1000);
            if found {
                (true, stop)
            } else {
                odd_divisor_pass(n, stop, u64::MAX)
            }
        },
        SpectralBand::Weak => {
            let (found, stop) = odd_divisor_pass(n, 101, 5000);
            if found {
                (true, stop)
            } else {
                odd_divisor_pass(n, stop, u64::MAX)
            }
        },
        SpectralBand::Uncertain => odd_divisor_pass(n, 101, u64::MAX),
    };
    if found {
        return false;
    }
    proof {
        lemma_prime_past_root(n as nat, stop as nat);
    }
    true
}

/// The spectral test on `n`, with `band_of(n, z)` giving the band of the
/// score of `n` over `z` zeta zeros. The band orders the divisor search and
/// cannot change the verdict, which is whether `n` is prime.
pub fn is_prime_zeta_with<F: Fn(u64, usize) -> SpectralBand>(n: u64, band_of: F) -> (r: bool)
    requires
        forall|m: u64, z: usize| band_of.requires((m, z)),
    ensures
        r == is_prime_spec(n as nat),
{
    if n <= 1 {
        return false;
    }
    if n == 2 {
        return true;
    }
    if n % 2 == 0 {
        return false;
    }
    if n == 3 {
        return true;
    }
    if n < 100 {
        return is_prime_trial_small(n);
    }
    let zeros = zero_count(n);
    let band = band_of(n, zeros);
    spectroscopic_search(n, band)
}

/// The spectral test on `n` without a score. The score is computed in
/// floating point, which this crate does not do; without one the search
/// runs in the uncertain band, as a single pass up to the square root.
pub fn is_prime_zeta(n: u64) -> (r: bool)
    ensures
        r == is_prime_spec(n as nat),
{
    is_prime_zeta_with(n, |m: u64, z: usize| SpectralBand::Uncertain)
}

} // verus!
