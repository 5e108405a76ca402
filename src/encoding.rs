//! Text and digest encodings of byte strings: hexadecimal, base64 and
//! SHA-256.

use base64::engine::general_purpose::STANDARD;
use base64::Engine;
use sha2::{Digest, Sha256};
use vstd::prelude::*;

verus! {

/// Lower-case hexadecimal, two digits per byte.
pub open spec fn hex(b: Seq<u8>) -> Seq<char>
    decreases b.len(),
{
    if b.len() == 0 {
        Seq::empty()
    } else {
        hex(b.drop_last()) + seq![
            "0123456789abcdef"@[(b.last() / 16) as int],
            "0123456789abcdef"@[(b.last() % 16) as int],
        ]
    }
}

/// The standard base64 alphabet.
pub open spec fn base64_alphabet() -> Seq<char> {
    "ABCDEFGHIJKLMNOPQRSTUVWXYZabcdefghijklmnopqrstuvwxyz0123456789+/"@
}

/// Standard base64 with `=` padding: each group of three bytes becomes
/// four characters; a final group of one or two bytes is padded.
pub open spec fn base64_text(b: Seq<u8>) -> Seq<char>
    decreases b.len(),
{
    let a = base64_alphabet();
    if b.len() == 0 {
        Seq::empty()
    } else {
        let b0 = b[0] as int;
        let b1 = if b.len() > 1 { b[1] as int } else { 0 };
        let b2 = if b.len() > 2 { b[2] as int } else { 0 };
        let c0 = a[b0 / 4];
        let c1 = a[(b0 % 4) * 16 + b1 / 16];
        let c2 = a[(b1 % 16) * 4 + b2 / 64];
        let c3 = a[b2 % 64];
        if b.len() == 1 {
            seq![c0, c1, '=', '=']
        } else if b.len() == 2 {
            seq![c0, c1, c2, '=']
        } else {
            seq![c0, c1, c2, c3] + base64_text(b.skip(3))
        }
    }
}

/// `t` is the standard base64 encoding of some bytes.
pub open spec fn is_base64(t: Seq<char>) -> bool {
    exists|b: Seq<u8>| #[trigger] base64_text(b) == t
}

/// The SHA-256 digest of `data`.
pub uninterp spec fn sha256(data: Seq<u8>) -> Seq<u8>;

#[verifier::external_type_specification]
#[verifier::external_body]
pub struct ExDecodeError(base64::DecodeError);

/// Relies on `hex::encode`: lower-case digits, two per byte, in order.
#[verifier::external_body]
pub(crate) fn hex_encode(b: &[u8]) -> (r: String)
    ensures
        r@ == hex(b@),
{
    hex::encode(b)
}

/// Relies on `Engine::encode` of base64's `STANDARD` engine: the standard
/// alphabet with `=` padding.
#[verifier::external_body]
pub(crate) fn base64_encode(b: &[u8]) -> (r: String)
    ensures
        r@ == base64_text(b@),
{
    STANDARD.encode(b)
}

/// Relies on `Engine::decode` of base64's `STANDARD` engine, which requires
/// canonical padding and no trailing bits: what it accepts is the encoding
/// of the bytes it returns, and it accepts every encoding that
/// `Engine::encode` writes (the crate's round-trip property).
#[verifier::external_body]
fn base64_decode_raw(s: &str) -> (r: Result<Vec<u8>, base64::DecodeError>)
    ensures
        r is Ok ==> base64_text(r->Ok_0@) == s@,
        is_base64(s@) ==> r is Ok,
{
    STANDARD.decode(s)
}

/// The bytes whose standard base64 encoding is `s`; none when `s` is no
/// such encoding.
pub fn base64_decode(s: &str) -> (r: Option<Vec<u8>>)
    ensures
        r is Some <==> is_base64(s@),
        r is Some ==> base64_text(r->0@) == s@,
{
    match base64_decode_raw(s) {
        Ok(b) => Some(b),
        Err(_) => None,
    }
}

/// Relies on `Digest::digest` of sha2's `Sha256`: the 32-byte digest, a
/// function of the input alone.
#[verifier::external_body]
pub(crate) fn sha256_digest(data: &[u8]) -> (r: Vec<u8>)
    ensures
        r@ == sha256(data@),
        r@.len() == 32,
{
    Sha256::digest(data).to_vec()
}

} // verus!
