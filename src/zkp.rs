//! The arithmetic of the identification scheme: commitments, the prover's
//! response and the verifier's two-generator check.

use crate::bignat::{mod_pow, BigNat};
use crate::number_theory::{is_prime, lemma_gcd_closed, lemma_prime_coprime};
use vstd::arithmetic::div_mod::{
    lemma_fundamental_div_mod, lemma_fundamental_div_mod_converse_mod, lemma_mod_multiples_vanish,
    lemma_mod_equivalence, lemma_mod_multiples_basic, lemma_mul_mod_noop, lemma_mul_mod_noop_left,
    lemma_mul_mod_noop_right, lemma_small_mod, lemma_sub_mod_noop,
};
use vstd::arithmetic::power::{
    lemma1_pow, lemma_pow1, lemma_pow_adds, lemma_pow_mod_noop, lemma_pow_multiplies, pow,
};
use vstd::prelude::*;

verus! {

/// The group description as numbers: modulus `p`, subgroup order `q` and
/// the two generators.
pub struct GroupView {
    pub p: nat,
    pub q: nat,
    pub alpha: nat,
    pub beta: nat,
}

/// Both generators lie in the subgroup of order `q` modulo `p`.
pub open spec fn valid_group(g: GroupView) -> bool {
    &&& g.p > 1
    &&& g.q > 1
    &&& mod_pow(g.alpha, g.q, g.p) == 1
    &&& mod_pow(g.beta, g.q, g.p) == 1
}

/// The prover's response `(k - c * x) mod q`, in `[0, q)`.
pub open spec fn response(k: nat, c: nat, x: nat, q: nat) -> nat
    recommends
        q > 0,
{
    ((k - c * x) % (q as int)) as nat
}

/// The verifier's check: `r1 == alpha^s * y1^c` and `r2 == beta^s * y2^c`,
/// both modulo `p`.
pub open spec fn accepts(g: GroupView, r1: nat, r2: nat, y1: nat, y2: nat, c: nat, s: nat) -> bool {
    &&& r1 == (pow(g.alpha as int, s) * pow(y1 as int, c)) % (g.p as int)
    &&& r2 == (pow(g.beta as int, s) * pow(y2 as int, c)) % (g.p as int)
}

/// The protocol parameters: modulus `p`, subgroup order `q` and the two
/// generators `alpha` and `beta`.
pub struct ZKP {
    p: BigNat,
    q: BigNat,
    alpha: BigNat,
    beta: BigNat,
}

impl View for ZKP {
    type V = GroupView;

    closed spec fn view(&self) -> GroupView {
        GroupView { p: self.p@, q: self.q@, alpha: self.alpha@, beta: self.beta@ }
    }
}

impl ZKP {
    #[verifier::type_invariant]
    spec fn inv(&self) -> bool {
        self.p@ > 1 && self.q@ > 1
    }

    /// The parameters, when the modulus and the order are both above one.
    pub fn new(p: BigNat, q: BigNat, alpha: BigNat, beta: BigNat) -> (r: Option<ZKP>)
        ensures
            r is Some <==> (p@ > 1 && q@ > 1),
            r is Some ==> r->0@ == (GroupView { p: p@, q: q@, alpha: alpha@, beta: beta@ }),
    {
        let two = BigNat::from_u64(2);
        if p.at_least(&two) && q.at_least(&two) {
            Some(ZKP { p, q, alpha, beta })
        } else {
            None
        }
    }

    /// The modulus `p`.
    pub fn modulus(&self) -> (r: &BigNat)
        ensures
            r@ == self@.p,
            r@ > 1,
    {
        proof {
            use_type_invariant(self);
        }
        &self.p
    }

    /// The subgroup order `q`.
    pub fn order(&self) -> (r: &BigNat)
        ensures
            r@ == self@.q,
            r@ > 1,
    {
        proof {
            use_type_invariant(self);
        }
        &self.q
    }

    /// The first generator.
    pub fn alpha(&self) -> (r: &BigNat)
        ensures
            r@ == self@.alpha,
    {
        &self.alpha
    }

    /// The second generator.
    pub fn beta(&self) -> (r: &BigNat)
        ensures
            r@ == self@.beta,
    {
        &self.beta
    }

    /// `n ^ exponent mod modulus`; zero for modulus one.
    pub fn exponentiate(n: &BigNat, exponent: &BigNat, modulus: &BigNat) -> (r: BigNat)
        requires
            modulus@ > 0,
        ensures
            r@ == mod_pow(n@, exponent@, modulus@),
            r@ < modulus@,
    {
        let two = BigNat::from_u64(2);
        if modulus.at_least(&two) {
            n.mod_pow(exponent, modulus)
        } else {
            proof {
                assert(modulus@ == 1);
                assert(pow(n@ as int, exponent@) % 1 == 0);
            }
            BigNat::from_u64(0)
        }
    }

    /// The response `s = (k - c * x) mod q`, normalised into `[0, q)`
    /// whether or not `k >= c * x`.
    pub fn solve(&self, k: &BigNat, c: &BigNat, x: &BigNat) -> (s: BigNat)
        ensures
            s@ == response(k@, c@, x@, self@.q),
            s@ < self@.q,
    {
        proof {
            use_type_invariant(self);
        }
        let q = &self.q;
        let cx = c.times(x);
        if k.at_least(&cx) {
            k.minus(&cx).rem(q)
        } else {
            let d = cx.minus(k).rem(q);
            let zero = BigNat::from_u64(0);
            if d.same_value(&zero) {
                proof {
                    let m = cx@ - k@;
                    lemma_fundamental_div_mod(m, q@ as int);
                    assert(k@ - cx@ == (-(m / (q@ as int))) * (q@ as int) + 0) by (nonlinear_arith)
                        requires
                            m == cx@ - k@,
                            m == (q@ as int) * (m / (q@ as int)) + 0,
                    ;
                    lemma_fundamental_div_mod_converse_mod(k@ - cx@, q@ as int, -(m / (q@ as int)), 0);
                }
                d
            } else {
                let s = q.minus(&d);
                proof {
                    let m = cx@ - k@;
                    lemma_fundamental_div_mod(m, q@ as int);
                    assert(k@ - cx@ == (-(m / (q@ as int)) - 1) * (q@ as int) + (q@ - d@))
                        by (nonlinear_arith)
                        requires
                            m == cx@ - k@,
                            m == (q@ as int) * (m / (q@ as int)) + d@,
                    ;
                    lemma_fundamental_div_mod_converse_mod(
                        k@ - cx@,
                        q@ as int,
                        -(m / (q@ as int)) - 1,
                        q@ - d@,
                    );
                }
                s
            }
        }
    }

    /// Whether `(s, c)` answers the commitment `(r1, r2)` for the public
    /// values `(y1, y2)`: true iff both `r1 == alpha^s * y1^c mod p` and
    /// `r2 == beta^s * y2^c mod p`.
    pub fn verify_solution(
        &self,
        r1: &BigNat,
        r2: &BigNat,
        y1: &BigNat,
        y2: &BigNat,
        c: &BigNat,
        s: &BigNat,
    ) -> (b: bool)
        ensures
            b == accepts(self@, r1@, r2@, y1@, y2@, c@, s@),
    {
        let lhs1 = self.combine(&self.alpha, s, y1, c);
        let lhs2 = self.combine(&self.beta, s, y2, c);
        let condition1 = r1.same_value(&lhs1);
        let condition2 = r2.same_value(&lhs2);
        condition1 && condition2
    }

    /// `g^s * y^c mod p`.
    fn combine(&self, g: &BigNat, s: &BigNat, y: &BigNat, c: &BigNat) -> (r: BigNat)
        ensures
            r@ == (pow(g@ as int, s@) * pow(y@ as int, c@)) % (self@.p as int),
    {
        proof {
            use_type_invariant(self);
        }
        let a = g.mod_pow(s, &self.p);
        let b = y.mod_pow(c, &self.p);
        let r = a.times(&b).rem(&self.p);
        proof {
            lemma_mul_mod_noop(pow(g@ as int, s@), pow(y@ as int, c@), self.p@ as int);
        }
        r
    }

    /// A value drawn uniformly from `[0, bound)`.
    pub fn generate_random_number_less_than(bound: &BigNat) -> (r: BigNat)
        requires
            bound@ > 0,
        ensures
            r@ < bound@,
    {
        BigNat::random_below(bound)
    }
}

/// In a group where `a^q = 1 (mod p)`, `a^n mod p` depends on `n mod q` only.
pub proof fn lemma_exponent_mod_order(a: nat, n: nat, q: nat, p: nat)
    requires
        p > 1,
        q > 0,
        mod_pow(a, q, p) == 1,
    ensures
        pow(a as int, n) % (p as int) == pow(a as int, n % q) % (p as int),
{
    let t = n / q;
    let r = n % q;
    lemma_fundamental_div_mod(n as int, q as int);
    assert(n == q * t + r);
    lemma_pow_adds(a as int, q * t, r);
    lemma_pow_multiplies(a as int, q, t);
    lemma_pow_mod_noop(pow(a as int, q), t, p as int);
    assert(pow(a as int, q) % (p as int) == 1);
    lemma1_pow(t);
    assert(pow(1, t) == 1);
    lemma_small_mod(1, p);
    assert(pow(1, t) % (p as int) == 1);
    assert(pow(pow(a as int, q), t) % (p as int) == 1);
    lemma_mul_mod_noop_left(pow(pow(a as int, q), t), pow(a as int, r), p as int);
}

/// `(g^s * (g^x mod p)^c) mod p == g^(s + x * c) mod p`.
proof fn lemma_combine_public(g: nat, x: nat, s: nat, c: nat, p: nat)
    requires
        p > 1,
    ensures
        (pow(g as int, s) * pow(mod_pow(g, x, p) as int, c)) % (p as int)
            == pow(g as int, s + x * c) % (p as int),
{
    lemma_pow_mod_noop(pow(g as int, x), c, p as int);
    lemma_pow_multiplies(g as int, x, c);
    lemma_mul_mod_noop_right(pow(g as int, s), pow(mod_pow(g, x, p) as int, c), p as int);
    lemma_mul_mod_noop_right(pow(g as int, s), pow(g as int, x * c), p as int);
    lemma_pow_adds(g as int, s, x * c);
}

/// Completeness: for every secret `x`, nonce `k` and challenge `c`, the
/// honest response to the commitment `(alpha^k, beta^k)` passes the check
/// against the public values `(alpha^x, beta^x)`.
pub proof fn lemma_honest_prover_accepted(g: GroupView, x: nat, k: nat, c: nat)
    requires
        valid_group(g),
    ensures
        accepts(
            g,
            mod_pow(g.alpha, k, g.p),
            mod_pow(g.beta, k, g.p),
            mod_pow(g.alpha, x, g.p),
            mod_pow(g.beta, x, g.p),
            c,
            response(k, c, x, g.q),
        ),
{
    let s = response(k, c, x, g.q);
    assert((s + x * c) % g.q == k % g.q) by {
        lemma_fundamental_div_mod(k - c * x, g.q as int);
        let t = (k - c * x) / (g.q as int);
        assert(s + x * c == (g.q as int) * (-t) + k) by (nonlinear_arith)
            requires
                k - c * x == (g.q as int) * t + s,
        ;
        lemma_mod_multiples_vanish(-t, k as int, g.q as int);
    }
    lemma_combine_public(g.alpha, x, s, c, g.p);
    lemma_exponent_mod_order(g.alpha, s + x * c, g.q, g.p);
    lemma_exponent_mod_order(g.alpha, k, g.q, g.p);
    lemma_combine_public(g.beta, x, s, c, g.p);
    lemma_exponent_mod_order(g.beta, s + x * c, g.q, g.p);
    lemma_exponent_mod_order(g.beta, k, g.q, g.p);
}

/// The response always lies in `[0, q)`.
pub proof fn lemma_response_in_range(k: nat, c: nat, x: nat, q: nat)
    requires
        q > 0,
    ensures
        0 <= response(k, c, x, q) < q,
{
}

/// Reusing a nonce leaks the secret: two responses `s1`, `s2` made with the
/// same `k` for challenges `c1`, `c2` satisfy `s1 - s2 = (c2 - c1) * x
/// (mod q)`, so for any inverse `u` of `c2 - c1` modulo `q`,
/// `x = (s1 - s2) * u (mod q)`.
pub proof fn lemma_nonce_reuse_reveals_secret(k: nat, c1: nat, c2: nat, x: nat, q: nat, u: int)
    requires
        q > 1,
        ((c2 - c1) * u) % (q as int) == 1,
    ensures
        (response(k, c1, x, q) - response(k, c2, x, q)) % (q as int) == ((c2 - c1) * x) % (q as int),
        ((response(k, c1, x, q) - response(k, c2, x, q)) * u) % (q as int) == (x as int) % (q as int),
{
    let qi = q as int;
    let s1 = response(k, c1, x, q);
    let s2 = response(k, c2, x, q);
    lemma_sub_mod_noop(k - c1 * x, k - c2 * x, qi);
    assert((k - c1 * x) - (k - c2 * x) == (c2 - c1) * x) by (nonlinear_arith);
    let d = s1 - s2;
    lemma_mul_mod_noop_left(d, u, qi);
    lemma_mul_mod_noop_left((c2 - c1) * x, u, qi);
    assert((c2 - c1) * x * u == ((c2 - c1) * u) * x) by (nonlinear_arith);
    lemma_mul_mod_noop_left((c2 - c1) * u, x as int, qi);
}

/// If `a^e = 1 (mod p)` for some `e` in `(0, q)`, where `a` has prime
/// order dividing `q`, then `a = 1 (mod p)`.
proof fn lemma_order_is_prime(a: nat, e: nat, q: nat, p: nat)
    requires
        p > 1,
        is_prime(q),
        mod_pow(a, q, p) == 1,
        0 < e < q,
        pow(a as int, e) % (p as int) == 1,
    ensures
        (a as int) % (p as int) == 1,
{
    let unit = |n: nat| pow(a as int, n) % (p as int) == 1;
    assert forall|m: nat, n: nat| unit(m) && unit(n) && n > 0 implies #[trigger] unit((m % n) as nat) by {
        lemma_exponent_mod_order(a, m, n, p);
    }
    lemma_gcd_closed(unit, q, e);
    lemma_prime_coprime(q, e);
    lemma_pow1(a as int);
}

/// If `q` divides `m * d` and `n * d`, it divides `(m mod n) * d`.
proof fn lemma_multiples_remainder(m: nat, n: nat, d: int, q: int)
    requires
        q > 0,
        n > 0,
        (m * d) % q == 0,
        (n * d) % q == 0,
    ensures
        ((m % n) * d) % q == 0,
{
    lemma_fundamental_div_mod(m as int, n as int);
    let t = m / n;
    let r = m % n;
    assert(r * d == m * d - t * (n * d)) by (nonlinear_arith)
        requires
            m == n * t + r,
    ;
    let nd = n * d;
    lemma_mul_mod_noop_right(t as int, nd, q);
    assert(t * (nd % q) == 0);
    assert((t * nd) % q == 0);
    lemma_sub_mod_noop(m * d, t * (n * d), q);
}

/// Where `a` has prime order `q` modulo `p`, two powers of `a` agree
/// modulo `p` only when their exponents agree modulo `q`.
proof fn lemma_exponents_agree(a: nat, m: nat, n: nat, q: nat, p: nat)
    requires
        p > 1,
        is_prime(q),
        mod_pow(a, q, p) == 1,
        (a as int) % (p as int) != 1,
        pow(a as int, m) % (p as int) == pow(a as int, n) % (p as int),
    ensures
        m % q == n % q,
{
    let pi = p as int;
    let qi = q as int;
    let u = m % q;
    let w = n % q;
    lemma_exponent_mod_order(a, m, q, p);
    lemma_exponent_mod_order(a, n, q, p);
    if u != w {
        // alpha^(u - w) would be one
        let f = (q - w) as nat;
        lemma_mul_mod_noop_left(pow(a as int, u), pow(a as int, f), pi);
        lemma_mul_mod_noop_left(pow(a as int, w), pow(a as int, f), pi);
        lemma_pow_adds(a as int, u, f);
        lemma_pow_adds(a as int, w, f);
        assert(w + f == q);
        assert(pow(a as int, u + f) % pi == 1);
        lemma_exponent_mod_order(a, u + f, q, p);
        let e = ((u + f) % q) as nat;
        assert(0 < e < q) by {
            if u < w {
                lemma_small_mod((u + f) as nat, q);
            } else {
                lemma_mod_multiples_vanish(1, (u - w) as int, qi);
                lemma_small_mod((u - w) as nat, q);
            }
        }
        lemma_order_is_prime(a, e, q, p);
    }
}

/// A response that differs modulo `q` from the honest one fails the check,
/// where `alpha` has prime order `q` modulo `p`.
pub proof fn lemma_other_response_rejected(g: GroupView, x: nat, k: nat, c: nat, s: nat)
    requires
        valid_group(g),
        is_prime(g.q),
        (g.alpha as int) % (g.p as int) != 1,
        s % g.q != response(k, c, x, g.q),
    ensures
        !accepts(
            g,
            mod_pow(g.alpha, k, g.p),
            mod_pow(g.beta, k, g.p),
            mod_pow(g.alpha, x, g.p),
            mod_pow(g.beta, x, g.p),
            c,
            s,
        ),
{
    let qi = g.q as int;
    if accepts(
        g,
        mod_pow(g.alpha, k, g.p),
        mod_pow(g.beta, k, g.p),
        mod_pow(g.alpha, x, g.p),
        mod_pow(g.beta, x, g.p),
        c,
        s,
    ) {
        lemma_combine_public(g.alpha, x, s, c, g.p);
        lemma_exponents_agree(g.alpha, s + x * c, k, g.q, g.p);
        lemma_mod_equivalence((s + x * c) as int, k as int, qi);
        assert((s + x * c) - k == s - (k - c * x)) by (nonlinear_arith);
        lemma_mod_equivalence(s as int, k - c * x, qi);
        assert(s % g.q == response(k, c, x, g.q));
    }
}

/// Soundness against a wrong secret: where `alpha` has prime order `q`
/// modulo `p`, a response computed with a secret `x_fake` different from
/// `x` modulo `q` fails the check against the public values of `x`, for
/// every challenge `c` that is not zero modulo `q`.
pub proof fn lemma_wrong_secret_rejected(g: GroupView, x: nat, x_fake: nat, k: nat, c: nat)
    requires
        valid_group(g),
        is_prime(g.q),
        (g.alpha as int) % (g.p as int) != 1,
        c % g.q != 0,
        x % g.q != x_fake % g.q,
    ensures
        !accepts(
            g,
            mod_pow(g.alpha, k, g.p),
            mod_pow(g.beta, k, g.p),
            mod_pow(g.alpha, x, g.p),
            mod_pow(g.beta, x, g.p),
            c,
            response(k, c, x_fake, g.q),
        ),
{
    let q = g.q;
    let qi = q as int;
    let pi = g.p as int;
    let al = g.alpha;
    let s = response(k, c, x_fake, q);
    let a = (s + x * c) % q;
    let b = k % q;
    // The exponents differ modulo q.
    assert(a != b) by {
        if a == b {
            let d = x - x_fake;
            let sx = (s + x * c) as int;
            assert(sx % qi == (k + c * d) % qi) by {
                lemma_fundamental_div_mod(k - c * x_fake, qi);
                let t = (k - c * x_fake) / qi;
                assert(sx == qi * (-t) + (k + c * d)) by (nonlinear_arith)
                    requires
                        k - c * x_fake == qi * t + s,
                        d == x - x_fake,
                        sx == s + x * c,
                ;
                lemma_mod_multiples_vanish(-t, k + c * d, qi);
            }
            lemma_mod_equivalence(k + c * d, k as int, qi);
            assert((c * d) % qi == 0) by {
                assert((k + c * d) - k == c * d);
            }
            let kills = |n: nat| (n * d) % qi == 0;
            assert forall|m: nat, n: nat| kills(m) && kills(n) && n > 0 implies #[trigger] kills((m % n) as nat) by {
                lemma_multiples_remainder(m, n, d, qi);
            }
            assert(kills(q)) by {
                lemma_mod_multiples_basic(d, qi);
            }
            let c1 = c % q;
            assert(kills(c1)) by {
                lemma_mul_mod_noop_left(c as int, d, qi);
            }
            lemma_gcd_closed(kills, q, c1);
            lemma_prime_coprime(q, c1);
            assert(d % qi == 0);
            lemma_mod_equivalence(x as int, x_fake as int, qi);
        }
    }
    // If the first check passed, the exponents would agree modulo q.
    if accepts(
        g,
        mod_pow(g.alpha, k, g.p),
        mod_pow(g.beta, k, g.p),
        mod_pow(g.alpha, x, g.p),
        mod_pow(g.beta, x, g.p),
        c,
        s,
    ) {
        lemma_combine_public(al, x, s, c, g.p);
        lemma_exponents_agree(al, s + x * c, k, q, g.p);
    }
}

} // verus!
