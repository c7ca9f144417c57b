//! The deterministic witness test (Miller-Rabin with a fixed base set).
use vstd::arithmetic::div_mod::{lemma_mul_mod_noop_general, lemma_small_mod};
use vstd::arithmetic::power::{
    lemma_pow0, lemma_pow1, lemma_pow_adds, lemma_pow_mod_noop, lemma_pow_multiplies,
    lemma_square_is_pow2, pow,
};
use vstd::arithmetic::power2::{lemma_pow2_unfold, pow2};
use vstd::prelude::*;

use crate::fermat::{lemma_fermat_unit, lemma_square_root_of_one};
use crate::primes::is_prime_spec;
use crate::registry::PrimalityTest;

verus! {

/// Primality by the strong probable-prime test against a fixed set of bases.
#[derive(Clone, Copy, Debug, Default)]
pub struct MillerRabinAlgorithm;

impl PrimalityTest for MillerRabinAlgorithm {
    open spec fn spec_name(&self) -> Seq<char> {
        miller_rabin_name()
    }

    open spec fn verdict(&self, n: nat) -> bool {
        miller_rabin_spec(n)
    }

    fn name(&self) -> (r: &'static str) {
        "Miller-Rabin"
    }

    fn is_prime(&self, n: u64) -> (r: bool) {
        is_prime_miller_rabin(n, 20)
    }
}

/// The name of the witness test.
pub open spec fn miller_rabin_name() -> Seq<char> {
    "Miller-Rabin"@
}

/// What is left of `m` once every factor two is divided out (`m` itself for zero).
pub open spec fn odd_part(m: nat) -> nat
    decreases m,
{
    if m > 0 && m % 2 == 0 {
        odd_part(m / 2)
    } else {
        m
    }
}

/// How many factors two `m` holds (zero for zero).
pub open spec fn two_exponent(m: nat) -> nat
    decreases m,
{
    if m > 0 && m % 2 == 0 {
        1 + two_exponent(m / 2)
    } else {
        0
    }
}

/// The bases tried, in order: the first twelve primes, which settle every
/// 64-bit number.
pub open spec fn witness_bases() -> Seq<nat> {
    seq![2, 3, 5, 7, 11, 13, 17, 19, 23, 29, 31, 37]
}

/// `n` is a strong probable prime to base `a`: with `n - 1 = d * 2^s` and `d`
/// odd, either `a^d` is one modulo `n`, or `a^(d * 2^j)` is `n - 1` modulo `n`
/// for some `j < s`.
pub open spec fn passes_witness(n: nat, a: nat) -> bool {
    let d = odd_part((n - 1) as nat);
    let s = two_exponent((n - 1) as nat);
    pow(a as int, d) % (n as int) == 1 || exists|j: nat|
        j < s && #[trigger] (pow(a as int, d * pow2(j)) % (n as int)) == n - 1
}

/// The verdict of the witness test: two and three are prime, other even
/// numbers and numbers below two are not, and an odd `n` is declared prime when
/// it is a strong probable prime to every base below it.
pub open spec fn miller_rabin_spec(n: nat) -> bool {
    n >= 2 && (n == 2 || n == 3 || (n % 2 == 1 && forall|i: int|
        0 <= i < 12 && #[trigger] witness_bases()[i] < n ==> passes_witness(n, witness_bases()[i])))
}

/// `(a * b) mod m`, with the product formed in 128 bits.
fn mul_mod(a: u64, b: u64, m: u64) -> (r: u64)
    requires
        m > 0,
    ensures
        r < m,
        r as int == (a as int * b as int) % (m as int),
{
    let a_wide = a as u128;
    let b_wide = b as u128;
    assert(a_wide * b_wide <= u128::MAX) by (nonlinear_arith)
        requires a_wide <= u64::MAX, b_wide <= u64::MAX;
    let result = (a_wide * b_wide) % (m as u128);
    result as u64
}

/// One halving step of binary exponentiation.
proof fn lemma_pow_halving(b: int, e: nat)
    ensures
        pow(b, e) == pow(b * b, e / 2) * (if e % 2 == 1 { b } else { 1 }),
{
    let h = e / 2;
    lemma_square_is_pow2(b);
    lemma_pow_multiplies(b, 2, h);
    if e % 2 == 1 {
        lemma_pow_adds(b, 2 * h, 1);
        lemma_pow1(b);
    }
}

/// `base^exp mod m` by binary exponentiation.
fn pow_mod(base: u64, exp: u64, m: u64) -> (r: u64)
    requires
        m > 1,
    ensures
        r < m,
        r as int == pow(base as int, exp as nat) % (m as int),
{
    let mut result: u64 = 1;
    let mut b: u64 = base % m;
    let mut e: u64 = exp;
    proof {
        lemma_pow_mod_noop(base as int, exp as nat, m as int);
        assert(pow(b as int, e as nat) % (m as int) == pow(base as int, exp as nat) % (m as int));
        lemma_mul_mod_noop_general(1, pow(b as int, e as nat), m as int);
    }
    while e > 0
        invariant
            m > 1,
            result < m,
            b < m,
            (result as int * pow(b as int, e as nat)) % (m as int) == pow(base as int, exp as nat)
                % (m as int),
        decreases e,
    {
        let ghost old_result = result as int;
        let ghost old_b = b as int;
        let ghost old_e = e as nat;
        if e % 2 == 1 {
            result = mul_mod(result, b, m);
        }
        assert(e >> 1 == e / 2) by (bit_vector);
        e = e >> 1;
        b = mul_mod(b, b, m);
        proof {
            let mi = m as int;
            let f: int = if old_e % 2 == 1 { old_b } else { 1 };
            let bb = old_b * old_b;
            let p = pow(bb, e as nat);
            lemma_pow_halving(old_b, old_e);
            if old_e % 2 == 0 {
                lemma_small_mod(old_result as nat, m as nat);
            }
            assert(result as int == (old_result * f) % mi);
            lemma_pow_mod_noop(bb, e as nat, mi);
            lemma_mul_mod_noop_general(old_result * f, pow(b as int, e as nat), mi);
            lemma_mul_mod_noop_general(old_result * f, p, mi);
            assert(old_result * f * p == old_result * (p * f)) by (nonlinear_arith);
        }
    }
    proof {
        lemma_pow0(b as int);
        lemma_small_mod(result as nat, m as nat);
    }
    result
}

/// `pow(a, d * 2^(k+1))` is the square of `pow(a, d * 2^k)`.
proof fn lemma_square_doubles(a: int, d: nat, k: nat)
    ensures
        pow(a, d * pow2(k + 1)) == pow(a, d * pow2(k)) * pow(a, d * pow2(k)),
{
    lemma_pow2_unfold(k + 1);
    let t = d * pow2(k);
    assert(d * pow2(k + 1) == t + t) by (nonlinear_arith)
        requires pow2(k + 1) == 2 * pow2(k), t == d * pow2(k);
    lemma_pow_adds(a, t, t);
}

/// Whether `n` passes the test with base `a`, where `n - 1 = d * 2^s`.
fn check_composite(a: u64, d: u64, s: u64, n: u64) -> (r: bool)
    requires
        n > 3,
        d as nat == odd_part((n - 1) as nat),
        s as nat == two_exponent((n - 1) as nat),
        s >= 1,
    ensures
        r == passes_witness(n as nat, a as nat),
{
    let mut x = pow_mod(a, d, n);
    if x == 1 {
        return true;
    }
    assert(pow2(0) == 1) by {
        reveal(pow);
    }
    assert(d as nat * pow2(0) == d as nat);
    if x == n - 1 {
        assert(pow(a as int, d as nat * pow2(0)) % (n as int) == n - 1);
        return true;
    }
    let mut k: u64 = 0;
    while k < s - 1
        invariant
            n > 3,
            d as nat == odd_part((n - 1) as nat),
            s as nat == two_exponent((n - 1) as nat),
            s >= 1,
            k < s,
            x < n,
            x as int == pow(a as int, d as nat * pow2(k as nat)) % (n as int),
            pow(a as int, d as nat) % (n as int) != 1,
            forall|j: nat| j <= k ==> #[trigger] (pow(a as int, d as nat * pow2(j)) % (n as int))
                != n - 1,
        decreases s - k,
    {
        let ghost t = pow(a as int, d as nat * pow2(k as nat));
        x = mul_mod(x, x, n);
        proof {
            lemma_square_doubles(a as int, d as nat, k as nat);
            lemma_mul_mod_noop_general(t, t, n as int);
        }
        k = k + 1;
        if x == n - 1 {
            assert(pow(a as int, d as nat * pow2(k as nat)) % (n as int) == n - 1);
            return true;
        }
    }
    false
}

/// The witness test on `n`, with the bases of `witness_bases`. The round count
/// `_k` is ignored: the fixed bases make the test deterministic on 64 bits.
pub fn is_prime_miller_rabin(n: u64, _k: u32) -> (r: bool)
    ensures
        r == miller_rabin_spec(n as nat),
        is_prime_spec(n as nat) ==> r,
{
    proof {
        if is_prime_spec(n as nat) {
            lemma_primes_pass(n as nat);
        }
    }
    let ghost passes_all = miller_rabin_spec(n as nat);
    if n <= 1 {
        return false;
    }
    if n == 2 || n == 3 {
        return true;
    }
    if n % 2 == 0 {
        return false;
    }
    let mut d: u64 = n - 1;
    let mut s: u64 = 0;
    assert(two_exponent((n - 1) as nat) == 1 + two_exponent(((n - 1) / 2) as nat));
    while d % 2 == 0
        invariant
            d > 0,
            s + d <= n - 1,
            odd_part(d as nat) == odd_part((n - 1) as nat),
            two_exponent(d as nat) + s == two_exponent((n - 1) as nat),
        decreases d,
    {
        d = d / 2;
        s = s + 1;
    }
    let witnesses: [u64; 12] = [2, 3, 5, 7, 11, 13, 17, 19, 23, 29, 31, 37];
    assert(witnesses@ =~= seq![2u64, 3, 5, 7, 11, 13, 17, 19, 23, 29, 31, 37]);
    let mut i: usize = 0;
    while i < 12
        invariant
            n > 3,
            n % 2 == 1,
            d as nat == odd_part((n - 1) as nat),
            s as nat == two_exponent((n - 1) as nat),
            s >= 1,
            witnesses@ == seq![2u64, 3, 5, 7, 11, 13, 17, 19, 23, 29, 31, 37],
            passes_all == miller_rabin_spec(n as nat),
            is_prime_spec(n as nat) ==> passes_all,
            forall|j: int|
                0 <= j < i && #[trigger] witness_bases()[j] < n ==> passes_witness(
                    n as nat,
                    witness_bases()[j],
                ),
        decreases 12 - i,
    {
        let a = witnesses[i];
        assert(a as nat == witness_bases()[i as int]);
        if a < n {
            if !check_composite(a, d, s, n) {
                assert(!passes_all);
                return false;
            }
        }
        i = i + 1;
    }
    true
}

/// `m` is its odd part times two to the number of factors two it holds.
proof fn lemma_odd_part_decomposition(m: nat)
    requires
        m > 0,
    ensures
        m == odd_part(m) * pow2(two_exponent(m)),
    decreases m,
{
    if m % 2 == 0 {
        let h = m / 2;
        lemma_odd_part_decomposition(h);
        lemma_pow2_unfold(two_exponent(m));
        let o = odd_part(h);
        let t = pow2(two_exponent(h));
        assert(odd_part(m) == o);
        assert(two_exponent(m) == two_exponent(h) + 1);
        assert(pow2(two_exponent(m)) == 2 * t);
        assert(m == 2 * h);
        assert(h == o * t);
        assert(2 * (o * t) == o * (2 * t)) by (nonlinear_arith);
        assert(m == odd_part(m) * pow2(two_exponent(m)));
    } else {
        assert(pow2(0) == 1) by {
            reveal(pow);
        }
        assert(odd_part(m) == m);
        assert(two_exponent(m) == 0);
        assert(m == odd_part(m) * pow2(two_exponent(m)));
    }
}

/// With `n - 1 = d * 2^s`, a base whose power `a^(d * 2^j)` is one modulo a
/// prime `n`, for some `j <= s`, passes the test.
proof fn lemma_passes_from_one(n: nat, a: nat, j: nat)
    requires
        is_prime_spec(n),
        j <= two_exponent((n - 1) as nat),
        pow(a as int, odd_part((n - 1) as nat) * pow2(j)) % (n as int) == 1,
    ensures
        passes_witness(n, a),
    decreases j,
{
    let d = odd_part((n - 1) as nat);
    if j == 0 {
        assert(pow2(0) == 1) by {
            reveal(pow);
        }
        assert(d * pow2(0) == d);
    } else {
        let k = (j - 1) as nat;
        let y = pow(a as int, d * pow2(k));
        lemma_square_doubles(a as int, d, k);
        lemma_mul_mod_noop_general(y, y, n as int);
        let r = y % (n as int);
        assert((r * r) % (n as int) == 1);
        assert(r >= 0 && r < n);
        lemma_square_root_of_one(n, r as nat);
        if r == 1 {
            lemma_passes_from_one(n, a, k);
        } else {
            assert(pow(a as int, d * pow2(k)) % (n as int) == n - 1);
        }
    }
}

/// Every base `a` with `0 < a < n` passes the test on a prime `n`.
pub proof fn lemma_prime_passes_witness(n: nat, a: nat)
    requires
        is_prime_spec(n),
        0 < a < n,
    ensures
        passes_witness(n, a),
{
    let m = (n - 1) as nat;
    lemma_odd_part_decomposition(m);
    lemma_fermat_unit(n, a);
    lemma_passes_from_one(n, a, two_exponent(m));
}

/// The witness test declares every prime prime.
pub proof fn lemma_primes_pass(n: nat)
    requires
        is_prime_spec(n),
    ensures
        miller_rabin_spec(n),
{
    if n != 2 && n != 3 {
        assert(n % 2 != 0);
        assert forall|i: int| 0 <= i < 12 && #[trigger] witness_bases()[i] < n implies passes_witness(
            n,
            witness_bases()[i],
        ) by {
            lemma_prime_passes_witness(n, witness_bases()[i]);
        }
    }
}

} // verus!
