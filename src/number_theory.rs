//! Greatest common divisors and primes, for the soundness argument.

use vstd::arithmetic::div_mod::{lemma_fundamental_div_mod, lemma_mod_multiples_basic};
use vstd::prelude::*;

verus! {

/// `n` is prime.
pub open spec fn is_prime(n: nat) -> bool {
    n > 1 && forall|d: nat| 1 < d < n ==> #[trigger] (n % d) != 0
}

/// Euclid's greatest common divisor.
pub open spec fn gcd(m: nat, n: nat) -> nat
    decreases n,
{
    if n == 0 {
        m
    } else {
        gcd(n, m % n)
    }
}

proof fn lemma_divides_combination(d: nat, b: nat, r: nat, t: nat)
    requires
        d > 0,
        b % d == 0,
        r % d == 0,
    ensures
        (b * t + r) % d == 0,
{
    lemma_fundamental_div_mod(b as int, d as int);
    lemma_fundamental_div_mod(r as int, d as int);
    let u = b / d;
    let w = r / d;
    assert(b * t + r == d * (u * t + w)) by (nonlinear_arith)
        requires
            b == d * u,
            r == d * w,
    ;
    lemma_mod_multiples_basic((u * t + w) as int, d as int);
}

/// The gcd divides both numbers.
pub proof fn lemma_gcd_divides(m: nat, n: nat)
    requires
        m > 0 || n > 0,
    ensures
        gcd(m, n) > 0,
        m % gcd(m, n) == 0,
        n % gcd(m, n) == 0,
    decreases n,
{
    if n == 0 {
        lemma_mod_multiples_basic(0, m as int);
        assert(m % m == 0) by {
            lemma_mod_multiples_basic(1, m as int);
        }
    } else {
        lemma_gcd_divides(n, m % n);
        let g = gcd(m, n);
        lemma_fundamental_div_mod(m as int, n as int);
        lemma_divides_combination(g, n, m % n, m / n);
        assert(m == n * (m / n) + m % n);
    }
}

/// A set of numbers that holds `m` and `n` and is closed under remainders
/// holds their gcd.
pub proof fn lemma_gcd_closed(p: spec_fn(nat) -> bool, m: nat, n: nat)
    requires
        p(m),
        p(n),
        forall|a: nat, b: nat| p(a) && p(b) && b > 0 ==> #[trigger] p((a % b) as nat),
    ensures
        p(gcd(m, n)),
    decreases n,
{
    if n > 0 {
        assert(p((m % n) as nat));
        lemma_gcd_closed(p, n, (m % n) as nat);
    }
}

/// A prime is coprime to every positive number below it.
pub proof fn lemma_prime_coprime(q: nat, e: nat)
    requires
        is_prime(q),
        0 < e < q,
    ensures
        gcd(q, e) == 1,
{
    lemma_gcd_divides(q, e);
    let g = gcd(q, e);
    if g > e {
        assert(e % g == e) by {
            vstd::arithmetic::div_mod::lemma_small_mod(e, g);
        }
    }
    assert(g <= e);
    if g > 1 {
        assert(q % g != 0);
    }
}

} // verus!
