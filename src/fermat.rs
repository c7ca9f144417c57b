//! Why the witness test never rejects a prime: Euclid's lemma, the square
//! roots of one modulo a prime, and Fermat's little theorem.
use vstd::arithmetic::div_mod::{
    lemma_add_mod_noop, lemma_fundamental_div_mod, lemma_mod_multiples_basic,
    lemma_mod_multiples_vanish, lemma_small_mod,
};
use vstd::arithmetic::power::{lemma0_pow, pow};
use vstd::prelude::*;

use crate::primes::is_prime_spec;

verus! {

/// A prime that divides `x * y`, with `0 < x < p`, divides `y`.
proof fn lemma_euclid_below(p: nat, x: nat, y: nat)
    requires
        is_prime_spec(p),
        0 < x < p,
        (x * y) % p == 0,
    ensures
        y % p == 0,
    decreases x,
{
    if x == 1 {
        assert(x * y == y) by (nonlinear_arith)
            requires x == 1;
    } else {
        let r = p % x;
        let q = p / x;
        lemma_fundamental_div_mod(p as int, x as int);
        if r == 0 {
            assert(p % x != 0);
        } else {
            let k = (x * y) / p;
            lemma_fundamental_div_mod((x * y) as int, p as int);
            assert(r * y == p * (y - q * k)) by (nonlinear_arith)
                requires p == x * q + r, x * y == p * k;
            assert(y - q * k >= 0) by (nonlinear_arith)
                requires r * y == p * (y - q * k), r * y >= 0, p > 0;
            lemma_mod_multiples_basic(y - q * k, p as int);
            assert((r * y) % p == 0) by (nonlinear_arith)
                requires r * y == p * (y - q * k), ((y - q * k) * p) % (p as int) == 0;
            lemma_euclid_below(p, r, y);
        }
    }
}

/// Euclid's lemma: a prime that divides a product divides one of its factors.
pub proof fn lemma_euclid(p: nat, x: nat, y: nat)
    requires
        is_prime_spec(p),
        (x * y) % p == 0,
    ensures
        x % p == 0 || y % p == 0,
{
    let xr = x % p;
    if xr != 0 {
        lemma_fundamental_div_mod(x as int, p as int);
        let q = x / p;
        let k = (x * y) / p;
        lemma_fundamental_div_mod((x * y) as int, p as int);
        assert(xr * y == p * (k - q * y)) by (nonlinear_arith)
            requires x == p * q + xr, x * y == p * k;
        assert(k - q * y >= 0) by (nonlinear_arith)
            requires xr * y == p * (k - q * y), xr * y >= 0, p > 0;
        lemma_mod_multiples_basic(k - q * y, p as int);
        assert((xr * y) % p == 0) by (nonlinear_arith)
            requires xr * y == p * (k - q * y), ((k - q * y) * p) % (p as int) == 0;
        lemma_euclid_below(p, xr, y);
    }
}

/// Modulo a prime, the only square roots of one are one and minus one.
pub proof fn lemma_square_root_of_one(p: nat, x: nat)
    requires
        is_prime_spec(p),
        x < p,
        (x * x) % p == 1,
    ensures
        x == 1 || x == p - 1,
{
    if x == 0 {
        assert(0nat % p == 0);
    } else {
        let k = (x * x) / p;
        lemma_fundamental_div_mod((x * x) as int, p as int);
        assert(((x - 1) as nat) * (x + 1) == p * k) by (nonlinear_arith)
            requires x * x == p * k + 1, x >= 1;
        lemma_mod_multiples_basic(k as int, p as int);
        assert((((x - 1) as nat) * (x + 1)) % p == 0) by (nonlinear_arith)
            requires ((x - 1) as nat) * (x + 1) == p * k, ((k as int) * p) % (p as int) == 0;
        lemma_euclid(p, (x - 1) as nat, x + 1);
        lemma_small_mod((x - 1) as nat, p);
        if ((x - 1) as nat) % p == 0 {
            assert(x - 1 == 0);
        } else {
            assert((x + 1) % p == 0);
            if x + 1 < p {
                lemma_small_mod(x + 1, p);
            }
        }
    }
}

/// The binomial coefficient `n choose k`, by Pascal's rule.
pub open spec fn binom(n: nat, k: nat) -> nat
    decreases n,
{
    if k == 0 {
        1
    } else if n == 0 {
        0
    } else {
        binom((n - 1) as nat, (k - 1) as nat) + binom((n - 1) as nat, k)
    }
}

/// `sum of binom(n, k) * x^k` over `k` in `0..=m`.
pub open spec fn binom_sum(x: nat, n: nat, m: nat) -> int
    decreases m,
{
    if m == 0 {
        1
    } else {
        binom_sum(x, n, (m - 1) as nat) + binom(n, m) * pow(x as int, m)
    }
}

proof fn lemma_binom_above(n: nat, k: nat)
    requires
        k > n,
    ensures
        binom(n, k) == 0,
    decreases n,
{
    if n > 0 {
        lemma_binom_above((n - 1) as nat, (k - 1) as nat);
        lemma_binom_above((n - 1) as nat, k);
    }
}

proof fn lemma_binom_diagonal(n: nat)
    ensures
        binom(n, n) == 1,
    decreases n,
{
    if n > 0 {
        lemma_binom_diagonal((n - 1) as nat);
        lemma_binom_above((n - 1) as nat, n);
    }
}

proof fn lemma_binom_one(n: nat)
    ensures
        binom(n, 1) == n,
    decreases n,
{
    if n > 0 {
        lemma_binom_one((n - 1) as nat);
        assert(binom((n - 1) as nat, 0) == 1);
    }
}

/// `k * binom(n, k) == n * binom(n - 1, k - 1)`.
proof fn lemma_binom_absorb(n: nat, k: nat)
    requires
        n >= 1,
        k >= 1,
    ensures
        k * binom(n, k) == n * binom((n - 1) as nat, (k - 1) as nat),
    decreases n,
{
    if k == 1 {
        lemma_binom_one(n);
        assert(binom((n - 1) as nat, 0) == 1);
    } else if n == 1 {
        lemma_binom_above(0, (k - 1) as nat);
        lemma_binom_above(0, k);
    } else {
        let a = binom((n - 1) as nat, (k - 1) as nat);
        let b = binom((n - 1) as nat, k);
        let c = binom((n - 2) as nat, (k - 2) as nat);
        let e = binom((n - 2) as nat, (k - 1) as nat);
        lemma_binom_absorb((n - 1) as nat, k);
        lemma_binom_absorb((n - 1) as nat, (k - 1) as nat);
        assert(binom(n, k) == a + b);
        assert(a == c + e);
        assert(k * b == (n - 1) * e);
        assert((k - 1) * a == (n - 1) * c);
        assert(k * (a + b) == n * a) by (nonlinear_arith)
            requires a == c + e, k * b == (n - 1) * e, (k - 1) * a == (n - 1) * c;
    }
}

proof fn lemma_binom_sum_step(x: nat, n: nat, m: nat)
    requires
        m >= 1,
    ensures
        binom_sum(x, n + 1, m) == binom_sum(x, n, m) + x * binom_sum(x, n, (m - 1) as nat),
    decreases m,
{
    reveal(pow);
    if m == 1 {
        lemma_binom_one(n + 1);
        lemma_binom_one(n);
        assert(pow(x as int, 0) == 1);
        assert(pow(x as int, 1) == x);
        assert(binom_sum(x, n, 0) == 1);
        assert(binom_sum(x, n + 1, 0) == 1);
        assert(binom(n + 1, 1) == n + 1);
        assert(binom_sum(x, n + 1, 1) == 1 + binom(n + 1, 1) * pow(x as int, 1));
        assert(binom_sum(x, n + 1, 1) == 1 + (n + 1) * x);
        assert(binom_sum(x, n, 1) == 1 + n * x);
        assert(1 + (n + 1) * x == (1 + n * x) + x * 1) by (nonlinear_arith);
    } else {
        lemma_binom_sum_step(x, n, (m - 1) as nat);
        let xm = pow(x as int, (m - 1) as nat);
        assert(pow(x as int, m) == x * xm);
        let c1 = binom(n, (m - 1) as nat);
        let c2 = binom(n, m);
        assert(binom(n + 1, m) == c1 + c2);
        let s2 = binom_sum(x, n, (m - 2) as nat);
        assert(binom_sum(x, n, (m - 1) as nat) == s2 + c1 * xm);
        assert(x * s2 + (c1 + c2) * (x * xm) == c2 * (x * xm) + x * (s2 + c1 * xm))
            by (nonlinear_arith);
    }
}

/// The binomial theorem at `y = 1`: `(x + 1)^n` is `binom_sum(x, n, n)`.
proof fn lemma_binomial_theorem(x: nat, n: nat)
    ensures
        pow(x + 1int, n) == binom_sum(x, n, n),
    decreases n,
{
    reveal(pow);
    if n > 0 {
        let m = (n - 1) as nat;
        lemma_binomial_theorem(x, m);
        lemma_binom_sum_step(x, m, n);
        lemma_binom_above(m, n);
        assert(binom_sum(x, m, n) == binom_sum(x, m, m));
        assert(pow(x + 1int, n) == (x + 1) * pow(x + 1int, m));
        assert((x + 1) * binom_sum(x, m, m) == binom_sum(x, m, m) + x * binom_sum(x, m, m))
            by (nonlinear_arith);
    }
}

/// A prime divides `binom(p, k)` for `0 < k < p`.
proof fn lemma_prime_divides_binom(p: nat, k: nat)
    requires
        is_prime_spec(p),
        0 < k < p,
    ensures
        binom(p, k) % p == 0,
{
    lemma_binom_absorb(p, k);
    let c = binom((p - 1) as nat, (k - 1) as nat);
    lemma_mod_multiples_basic(c as int, p as int);
    assert((k * binom(p, k)) % p == 0) by (nonlinear_arith)
        requires k * binom(p, k) == p * c, ((c as int) * p) % (p as int) == 0;
    lemma_euclid(p, k, binom(p, k));
    lemma_small_mod(k, p);
}

proof fn lemma_binom_sum_mod_prime(p: nat, x: nat, m: nat)
    requires
        is_prime_spec(p),
        m < p,
    ensures
        binom_sum(x, p, m) % (p as int) == 1,
    decreases m,
{
    if m == 0 {
        lemma_small_mod(1, p);
    } else {
        lemma_binom_sum_mod_prime(p, x, (m - 1) as nat);
        lemma_prime_divides_binom(p, m);
        let c = binom(p, m) / p;
        lemma_fundamental_div_mod(binom(p, m) as int, p as int);
        let t = c * pow(x as int, m);
        assert(binom(p, m) * pow(x as int, m) == p * t) by (nonlinear_arith)
            requires binom(p, m) == p * c, t == c * pow(x as int, m);
        lemma_mod_multiples_vanish(t, binom_sum(x, p, (m - 1) as nat), p as int);
    }
}

/// Fermat's little theorem in the form `a^p == a (mod p)`.
pub proof fn lemma_fermat(p: nat, a: nat)
    requires
        is_prime_spec(p),
    ensures
        pow(a as int, p) % (p as int) == (a as int) % (p as int),
    decreases a,
{
    if a == 0 {
        lemma0_pow(p);
    } else {
        let b = (a - 1) as nat;
        lemma_fermat(p, b);
        lemma_binomial_theorem(b, p);
        lemma_binom_sum_mod_prime(p, b, (p - 1) as nat);
        lemma_binom_diagonal(p);
        assert(binom_sum(b, p, p) == binom_sum(b, p, (p - 1) as nat) + pow(b as int, p));
        lemma_add_mod_noop(binom_sum(b, p, (p - 1) as nat), pow(b as int, p), p as int);
        lemma_add_mod_noop(1, b as int, p as int);
        lemma_small_mod(1, p);
    }
}

/// Fermat's little theorem: `a^(p-1) == 1 (mod p)` for `0 < a < p`.
pub proof fn lemma_fermat_unit(p: nat, a: nat)
    requires
        is_prime_spec(p),
        0 < a < p,
    ensures
        pow(a as int, (p - 1) as nat) % (p as int) == 1,
{
    reveal(pow);
    lemma_fermat(p, a);
    lemma_small_mod(a, p);
    let y = pow(a as int, (p - 1) as nat);
    assert(pow(a as int, p) == a * y);
    assert(y >= 1) by {
        vstd::arithmetic::power::lemma_pow_positive(a as int, (p - 1) as nat);
    }
    let k = (a * y) / (p as int);
    lemma_fundamental_div_mod(a * y, p as int);
    assert(a * (y - 1) == p * k) by (nonlinear_arith)
        requires a * y == p * k + a;
    assert(k >= 0) by (nonlinear_arith)
        requires a * (y - 1) == p * k, a > 0, y >= 1, p > 0;
    let z = (y - 1) as nat;
    lemma_mod_multiples_basic(k, p as int);
    assert((a * z) % p == 0) by (nonlinear_arith)
        requires a * (y - 1) == p * k, (k * p) % (p as int) == 0, y >= 1, z == y - 1;
    lemma_euclid(p, a, z);
    lemma_small_mod(a, p);
    assert(z % p == 0);
    let q = z / p;
    lemma_fundamental_div_mod(z as int, p as int);
    assert(y == p * q + 1);
    lemma_mod_multiples_vanish(q as int, 1, p as int);
    lemma_small_mod(1, p);
}

} // verus!
