//! What it means for a number to be prime, and the divisor search that the
//! trial-division algorithms share.
use vstd::prelude::*;

verus! {

/// `n` is prime: at least two, and no number in `2..n` divides it.
pub open spec fn is_prime_spec(n: nat) -> bool {
    n >= 2 && forall|d: nat| 2 <= d < n ==> #[trigger] (n % d) != 0
}

/// No number in `2..bound` divides `n`.
pub open spec fn no_divisor_below(n: nat, bound: nat) -> bool {
    forall|d: nat| 2 <= d < bound ==> #[trigger] (n % d) != 0
}

/// An odd number has no even divisor.
pub proof fn lemma_odd_has_no_even_divisor(n: nat, d: nat)
    requires
        n % 2 == 1,
        d >= 2,
        d % 2 == 0,
    ensures
        n % d != 0,
{
    if n % d == 0 {
        let q = n / d;
        let h = d / 2;
        assert(n == d * q) by (nonlinear_arith)
            requires n % d == 0, d >= 2, q == n / d;
        assert(d == 2 * h);
        assert(n == 2 * (h * q)) by (nonlinear_arith)
            requires n == d * q, d == 2 * h;
        assert((2 * (h * q)) % 2 == 0);
    }
}

/// An odd number with no odd divisor in `3..bound` has no divisor in `2..bound`.
pub proof fn lemma_odd_no_divisor_below(n: nat, bound: nat)
    requires
        n % 2 == 1,
        forall|d: nat| 3 <= d < bound && d % 2 == 1 ==> #[trigger] (n % d) != 0,
    ensures
        no_divisor_below(n, bound),
{
    assert forall|d: nat| 2 <= d < bound implies #[trigger] (n % d) != 0 by {
        if d % 2 == 0 {
            lemma_odd_has_no_even_divisor(n, d);
        }
    }
}

/// A number with a divisor strictly between one and itself has such a
/// divisor whose square is at most the number.
pub proof fn lemma_divisor_within_root(n: nat, d: nat) -> (e: nat)
    requires
        2 <= d < n,
        n % d == 0,
    ensures
        2 <= e,
        e * e <= n,
        n % e == 0,
{
    let q = n / d;
    assert(n == d * q) by (nonlinear_arith)
        requires n % d == 0, d >= 2, q == n / d;
    assert(q >= 2) by (nonlinear_arith)
        requires n == d * q, d < n, d >= 2;
    if d <= q {
        assert(d * d <= n) by (nonlinear_arith)
            requires n == d * q, d <= q;
        d
    } else {
        assert(q * q <= n) by (nonlinear_arith)
            requires n == d * q, q < d;
        assert(n % q == 0) by (nonlinear_arith)
            requires n == d * q, q >= 2;
        q
    }
}

/// Once the candidates pass the square root, a number with no smaller
/// divisor is prime.
pub proof fn lemma_prime_past_root(n: nat, bound: nat)
    requires
        n >= 2,
        no_divisor_below(n, bound),
        bound * bound > n,
    ensures
        is_prime_spec(n),
{
    assert forall|d: nat| 2 <= d < n implies #[trigger] (n % d) != 0 by {
        if n % d == 0 {
            let e = lemma_divisor_within_root(n, d);
            if e >= bound {
                assert(e * e >= bound * bound) by (nonlinear_arith)
                    requires e >= bound;
            }
            assert(n % e != 0);
        }
    }
}

/// Tries the odd candidates from `d` on, while they stay within `cap` and
/// their square within `n`. Returns whether one divides `n`, and where the
/// search stopped.
pub(crate) fn odd_divisor_pass(n: u64, d: u64, cap: u64) -> (r: (bool, u64))
    requires
        n >= 3,
        n % 2 == 1,
        d >= 3,
        d % 2 == 1,
        no_divisor_below(n as nat, d as nat),
    ensures
        r.0 ==> !is_prime_spec(n as nat),
        !r.0 ==> {
            &&& r.1 >= 3
            &&& r.1 % 2 == 1
            &&& no_divisor_below(n as nat, r.1 as nat)
            &&& (r.1 > cap || r.1 as nat * r.1 as nat > n)
        },
{
    let mut i: u64 = d;
    while i <= cap && i <= n / i
        invariant
            n >= 3,
            n % 2 == 1,
            i >= 3,
            i % 2 == 1,
            no_divisor_below(n as nat, i as nat),
        decreases u64::MAX - i,
    {
        if n % i == 0 {
            assert(i < n) by (nonlinear_arith)
                requires i <= n / i, i >= 3, n >= 3;
            return (true, i);
        }
        assert(i + 2 < n) by (nonlinear_arith)
            requires i <= n / i, i >= 3, n >= 3, n % i != 0;
        assert forall|e: nat| 2 <= e < i + 2 implies #[trigger] ((n as nat) % e) != 0 by {
            if e == i + 1 {
                lemma_odd_has_no_even_divisor(n as nat, e);
            }
        }
        i = i + 2;
    }
    if i > n / i {
        assert(i as nat * i as nat > n) by (nonlinear_arith)
            requires i > n / i, i >= 3;
    }
    (false, i)
}

} // verus!
