//! Arbitrary-precision natural numbers held as canonical big-endian bytes.
//!
//! The arithmetic itself is done by `num_bigint::BigUint`; this type only
//! carries the value in a form whose meaning can be stated. Results come
//! back through `BigUint::to_bytes_be`, which writes zero as one zero byte
//! and never a leading zero byte: the form this type's invariant asks for.

use num_bigint::{BigUint, RandBigInt};
use vstd::arithmetic::power::pow;
use vstd::prelude::*;

verus! {

/// The number that a big-endian byte string denotes.
pub open spec fn be_value(s: Seq<u8>) -> nat
    decreases s.len(),
{
    if s.len() == 0 {
        0
    } else {
        be_value(s.drop_last()) * 256 + s.last() as nat
    }
}

/// A byte string as `BigUint::to_bytes_be` writes it: no leading zero byte,
/// and zero written as one zero byte.
pub open spec fn canonical(s: Seq<u8>) -> bool {
    s.len() > 0 && (s.len() == 1 || s[0] != 0)
}

/// The canonical big-endian bytes of `n`.
pub open spec fn be_bytes(n: nat) -> Seq<u8>
    decreases n,
{
    if n < 256 {
        seq![n as u8]
    } else {
        be_bytes(n / 256).push((n % 256) as u8)
    }
}

/// `(b ^ e) mod m`.
pub open spec fn mod_pow(b: nat, e: nat, m: nat) -> nat
    recommends
        m > 0,
{
    (pow(b as int, e) % (m as int)) as nat
}

/// The decimal numeral of `n`, without leading zeros.
pub open spec fn decimal(n: nat) -> Seq<char>
    decreases n,
{
    if n < 10 {
        seq!["0123456789"@[n as int]]
    } else {
        decimal(n / 10).push("0123456789"@[(n % 10) as int])
    }
}

/// A natural number of any size.
#[derive(Debug)]
pub struct BigNat {
    bytes: Vec<u8>,
}

impl View for BigNat {
    type V = nat;

    closed spec fn view(&self) -> nat {
        be_value(self.bytes@)
    }
}

impl PartialEq for BigNat {
    fn eq(&self, other: &BigNat) -> (r: bool) {
        self.same_value(other)
    }
}

impl vstd::std_specs::cmp::PartialEqSpecImpl for BigNat {
    open spec fn obeys_eq_spec() -> bool {
        true
    }

    open spec fn eq_spec(&self, other: &BigNat) -> bool {
        self@ == other@
    }
}

impl Clone for BigNat {
    fn clone(&self) -> (r: BigNat)
        ensures
            r@ == self@,
    {
        proof {
            use_type_invariant(self);
        }
        BigNat { bytes: self.bytes.clone() }
    }
}

impl BigNat {
    #[verifier::type_invariant]
    spec fn inv(&self) -> bool {
        canonical(self.bytes@)
    }
}

/// A leading zero byte does not change the value.
proof fn lemma_leading_zero(t: Seq<u8>)
    ensures
        be_value(seq![0u8] + t) == be_value(t),
    decreases t.len(),
{
    if t.len() > 0 {
        let s = seq![0u8] + t;
        assert(s.drop_last() =~= seq![0u8] + t.drop_last());
        assert(s.last() == t.last());
        lemma_leading_zero(t.drop_last());
        assert(be_value(s) == be_value(s.drop_last()) * 256 + s.last() as nat);
    } else {
        let s = seq![0u8] + t;
        assert(s.drop_last() =~= Seq::<u8>::empty());
        assert(be_value(s) == be_value(s.drop_last()) * 256 + s.last() as nat);
    }
}

/// Leading zero bytes do not change the value.
proof fn lemma_skip_zeros(s: Seq<u8>, i: int)
    requires
        0 <= i <= s.len(),
        forall|j: int| 0 <= j < i ==> s[j] == 0,
    ensures
        be_value(s.subrange(i, s.len() as int)) == be_value(s),
    decreases i,
{
    if i > 0 {
        let t = s.subrange(i, s.len() as int);
        let u = s.subrange(i - 1, s.len() as int);
        assert(u =~= seq![0u8] + t);
        lemma_leading_zero(t);
        lemma_skip_zeros(s, i - 1);
    } else {
        assert(s.subrange(0, s.len() as int) =~= s);
    }
}

/// A byte string whose first byte is nonzero denotes a positive number.
proof fn lemma_leading_nonzero_positive(s: Seq<u8>)
    requires
        s.len() > 0,
        s[0] != 0,
    ensures
        be_value(s) > 0,
    decreases s.len(),
{
    if s.len() > 1 {
        lemma_leading_nonzero_positive(s.drop_last());
    }
}

/// A canonical byte string is the one `be_bytes` writes for its value.
proof fn lemma_canonical_unique(s: Seq<u8>)
    requires
        canonical(s),
    ensures
        s == be_bytes(be_value(s)),
    decreases s.len(),
{
    if s.len() == 1 {
        assert(s.drop_last() =~= Seq::<u8>::empty());
        assert(be_value(s.drop_last()) == 0);
        assert(s.last() == s[0]);
        assert(be_value(s) == be_value(s.drop_last()) * 256 + s.last() as nat);
        assert(be_value(s) == s[0] as nat);
        assert(s =~= seq![s[0]]);
    } else {
        let t = s.drop_last();
        assert(t[0] == s[0]);
        lemma_leading_nonzero_positive(t);
        lemma_canonical_unique(t);
        let n = be_value(s);
        assert(n == be_value(t) * 256 + s.last() as nat);
        assert(n / 256 == be_value(t) && n % 256 == s.last() as nat) by (nonlinear_arith)
            requires
                n == be_value(t) * 256 + s.last() as nat,
                s.last() < 256,
        ;
        assert(s =~= be_bytes(be_value(t)).push(s.last()));
    }
}

/// `be_bytes` writes `n` canonically.
proof fn lemma_be_bytes(n: nat)
    ensures
        be_value(be_bytes(n)) == n,
        canonical(be_bytes(n)),
        n > 0 ==> be_bytes(n)[0] != 0,
    decreases n,
{
    if n >= 256 {
        let t = be_bytes(n / 256);
        lemma_be_bytes(n / 256);
        assert(be_bytes(n).drop_last() =~= t);
        assert(be_bytes(n)[0] == t[0]);
        assert(be_bytes(n).last() == (n % 256) as u8);
        assert(n == (n / 256) * 256 + n % 256);
        assert(be_value(be_bytes(n)) == be_value(t) * 256 + (n % 256));
    } else {
        let b = be_bytes(n);
        assert(b.drop_last() =~= Seq::<u8>::empty());
        assert(b.last() == n as u8);
        assert(be_value(b) == be_value(b.drop_last()) * 256 + b.last() as nat);
    }
}

/// The canonical big-endian bytes of `n`.
fn u64_bytes(n: u64) -> (r: Vec<u8>)
    ensures
        r@ == be_bytes(n as nat),
    decreases n,
{
    if n < 256 {
        let mut r: Vec<u8> = Vec::new();
        r.push(n as u8);
        assert(r@ =~= be_bytes(n as nat));
        r
    } else {
        let mut r = u64_bytes(n / 256);
        r.push((n % 256) as u8);
        r
    }
}

impl BigNat {
    /// The number written by big-endian `bytes`; the empty string is zero.
    pub fn from_bytes_be(bytes: &[u8]) -> (r: BigNat)
        ensures
            r@ == be_value(bytes@),
    {
        let n = bytes.len();
        let mut i: usize = 0;
        while i < n && bytes[i] == 0
            invariant
                i <= n,
                n == bytes@.len(),
                forall|j: int| 0 <= j < i ==> bytes@[j] == 0,
            decreases n - i,
        {
            i = i + 1;
        }
        proof {
            lemma_skip_zeros(bytes@, i as int);
        }
        if i == n {
            let zero: Vec<u8> = vec![0u8];
            proof {
                assert(bytes@.subrange(i as int, n as int) =~= Seq::<u8>::empty());
                assert(zero@.drop_last() =~= Seq::<u8>::empty());
            }
            BigNat { bytes: zero }
        } else {
            let mut v: Vec<u8> = Vec::new();
            let mut k: usize = i;
            while k < n
                invariant
                    i <= k <= n,
                    n == bytes@.len(),
                    v@ =~= bytes@.subrange(i as int, k as int),
            decreases n - k,
            {
                v.push(bytes[k]);
                k = k + 1;
            }
            BigNat { bytes: v }
        }
    }

    /// The canonical big-endian bytes of the number, as sent on the wire.
    pub fn to_bytes_be(&self) -> (r: Vec<u8>)
        ensures
            be_value(r@) == self@,
            canonical(r@),
            r@ == be_bytes(self@),
    {
        proof {
            use_type_invariant(self);
            lemma_canonical_unique(self.bytes@);
        }
        self.bytes.clone()
    }

    /// The number `n`.
    pub fn from_u64(n: u64) -> (r: BigNat)
        ensures
            r@ == n as nat,
    {
        proof {
            lemma_be_bytes(n as nat);
        }
        BigNat { bytes: u64_bytes(n) }
    }

    /// `(self ^ exponent) mod modulus`.
    ///
    /// Relies on `BigUint::modpow`, which returns `(self ^ exponent) % modulus`
    /// and panics only on a zero modulus.
    #[verifier::external_body]
    pub(crate) fn mod_pow(&self, exponent: &BigNat, modulus: &BigNat) -> (r: BigNat)
        requires
            modulus@ > 1,
        ensures
            r@ == mod_pow(self@, exponent@, modulus@),
    {
        let b = BigUint::from_bytes_be(&self.bytes);
        let r = b.modpow(&BigUint::from_bytes_be(&exponent.bytes), &BigUint::from_bytes_be(&modulus.bytes));
        BigNat { bytes: r.to_bytes_be() }
    }

    /// `self * other`.
    ///
    /// Relies on `Mul` for `&BigUint`: the exact product.
    #[verifier::external_body]
    pub(crate) fn times(&self, other: &BigNat) -> (r: BigNat)
        ensures
            r@ == self@ * other@,
    {
        let r = &BigUint::from_bytes_be(&self.bytes) * &BigUint::from_bytes_be(&other.bytes);
        BigNat { bytes: r.to_bytes_be() }
    }

    /// `self - other`, for `other <= self`.
    ///
    /// Relies on `Sub` for `&BigUint`: the exact difference, which panics
    /// only when it would be negative.
    #[verifier::external_body]
    pub(crate) fn minus(&self, other: &BigNat) -> (r: BigNat)
        requires
            other@ <= self@,
        ensures
            r@ == self@ - other@,
    {
        let r = &BigUint::from_bytes_be(&self.bytes) - &BigUint::from_bytes_be(&other.bytes);
        BigNat { bytes: r.to_bytes_be() }
    }

    /// `self mod modulus`.
    ///
    /// Relies on `Rem` for `&BigUint`: the remainder of the division, which
    /// panics only on a zero divisor.
    #[verifier::external_body]
    pub(crate) fn rem(&self, modulus: &BigNat) -> (r: BigNat)
        requires
            modulus@ > 0,
        ensures
            r@ == self@ % modulus@,
    {
        let r = &BigUint::from_bytes_be(&self.bytes) % &BigUint::from_bytes_be(&modulus.bytes);
        BigNat { bytes: r.to_bytes_be() }
    }

    /// Whether `self >= other`.
    ///
    /// Relies on `PartialOrd` for `BigUint`: the order of the numbers.
    #[verifier::external_body]
    pub(crate) fn at_least(&self, other: &BigNat) -> (r: bool)
        ensures
            r == (self@ >= other@),
    {
        BigUint::from_bytes_be(&self.bytes) >= BigUint::from_bytes_be(&other.bytes)
    }

    /// Whether the two numbers are equal.
    ///
    /// Relies on `PartialEq` for `BigUint`: equality of the numbers.
    #[verifier::external_body]
    pub(crate) fn same_value(&self, other: &BigNat) -> (r: bool)
        ensures
            r == (self@ == other@),
    {
        BigUint::from_bytes_be(&self.bytes) == BigUint::from_bytes_be(&other.bytes)
    }
}

impl BigNat {
    /// A value drawn from `[0, bound)`.
    ///
    /// Relies on `RandBigInt::gen_biguint_below` over rand's `thread_rng`
    /// (a cryptographically secure generator): a value below `bound`; it
    /// panics only on a zero bound.
    #[verifier::external_body]
    pub(crate) fn random_below(bound: &BigNat) -> (r: BigNat)
        requires
            bound@ > 0,
        ensures
            r@ < bound@,
    {
        let r = rand::thread_rng().gen_biguint_below(&BigUint::from_bytes_be(&bound.bytes));
        BigNat { bytes: r.to_bytes_be() }
    }

    /// The decimal numeral of the number.
    ///
    /// Relies on `Display` for `BigUint` (through `to_string`): base ten,
    /// no sign, no leading zeros, and `0` for zero.
    #[verifier::external_body]
    pub(crate) fn to_decimal(&self) -> (r: String)
        ensures
            r@ == decimal(self@),
    {
        BigUint::from_bytes_be(&self.bytes).to_string()
    }
}

} // verus!
