//! Decentralised identifiers derived from a public commitment, and the
//! credential that carries the commitment with some asserted claims.

use crate::bignat::{decimal, BigNat};
use crate::encoding::{hex, hex_encode, sha256, sha256_digest};
use vstd::prelude::*;
use vstd::string::{is_ascii_spec_bytes, StringExecFns};

verus! {

/// What the credential claims about its holder.
#[derive(Debug, Clone)]
pub struct CredentialSubject {
    pub id: String,
    pub name: String,
    pub age: u32,
    pub university: String,
}

/// The public commitment carried by a credential, base64-encoded.
#[derive(Debug, Clone)]
pub struct ZKPProof {
    pub proof_type: String,
    pub verification_method: String,
    pub y1: String,
    pub y2: String,
}

/// A credential binding a public commitment to claims about its holder.
#[derive(Debug, Clone)]
pub struct VerifiableCredential {
    pub context: Vec<String>,
    pub credential_type: Vec<String>,
    pub id: String,
    pub issuer: String,
    pub issuance_date: String,
    pub credential_subject: CredentialSubject,
    pub proof: ZKPProof,
}

/// A decentralised identifier `did:<method>:<identifier>`.
#[derive(Debug, Clone)]
pub struct DID {
    pub method: String,
    pub identifier: String,
}

/// The claims of a credential subject as text.
pub struct SubjectView {
    pub id: Seq<char>,
    pub name: Seq<char>,
    pub age: u32,
    pub university: Seq<char>,
}

/// A credential's proof section as text.
pub struct ProofView {
    pub proof_type: Seq<char>,
    pub verification_method: Seq<char>,
    pub y1: Seq<char>,
    pub y2: Seq<char>,
}

/// A credential as text.
pub struct CredentialView {
    pub context: Seq<Seq<char>>,
    pub credential_type: Seq<Seq<char>>,
    pub id: Seq<char>,
    pub issuer: Seq<char>,
    pub issuance_date: Seq<char>,
    pub subject: SubjectView,
    pub proof: ProofView,
}

/// The texts of a list of strings.
pub open spec fn texts(v: Seq<String>) -> Seq<Seq<char>> {
    v.map_values(|s: String| s@)
}

impl View for CredentialSubject {
    type V = SubjectView;

    open spec fn view(&self) -> SubjectView {
        SubjectView { id: self.id@, name: self.name@, age: self.age, university: self.university@ }
    }
}

impl View for ZKPProof {
    type V = ProofView;

    open spec fn view(&self) -> ProofView {
        ProofView {
            proof_type: self.proof_type@,
            verification_method: self.verification_method@,
            y1: self.y1@,
            y2: self.y2@,
        }
    }
}

impl View for VerifiableCredential {
    type V = CredentialView;

    open spec fn view(&self) -> CredentialView {
        CredentialView {
            context: texts(self.context@),
            credential_type: texts(self.credential_type@),
            id: self.id@,
            issuer: self.issuer@,
            issuance_date: self.issuance_date@,
            subject: self.credential_subject@,
            proof: self.proof@,
        }
    }
}

impl View for DID {
    type V = (Seq<char>, Seq<char>);

    /// The method and the identifier.
    open spec fn view(&self) -> (Seq<char>, Seq<char>) {
        (self.method@, self.identifier@)
    }
}

fn copy_texts(v: &Vec<String>) -> (r: Vec<String>)
    ensures
        texts(r@) == texts(v@),
{
    let mut r: Vec<String> = Vec::new();
    let mut i: usize = 0;
    while i < v.len()
        invariant
            i <= v@.len(),
            r@.len() == i,
            forall|j: int| 0 <= j < i ==> #[trigger] r@[j]@ == v@[j]@,
        decreases v@.len() - i,
    {
        r.push(v[i].clone());
        i = i + 1;
    }
    assert(texts(r@) =~= texts(v@));
    r
}

impl CredentialSubject {
    /// A copy with the same claims.
    pub fn duplicate(&self) -> (r: CredentialSubject)
        ensures
            r@ == self@,
    {
        CredentialSubject {
            id: self.id.clone(),
            name: self.name.clone(),
            age: self.age,
            university: self.university.clone(),
        }
    }
}

impl ZKPProof {
    /// A copy with the same text.
    pub fn duplicate(&self) -> (r: ZKPProof)
        ensures
            r@ == self@,
    {
        ZKPProof {
            proof_type: self.proof_type.clone(),
            verification_method: self.verification_method.clone(),
            y1: self.y1.clone(),
            y2: self.y2.clone(),
        }
    }
}

impl VerifiableCredential {
    /// A copy with the same text.
    pub fn duplicate(&self) -> (r: VerifiableCredential)
        ensures
            r@ == self@,
    {
        VerifiableCredential {
            context: copy_texts(&self.context),
            credential_type: copy_texts(&self.credential_type),
            id: self.id.clone(),
            issuer: self.issuer.clone(),
            issuance_date: self.issuance_date.clone(),
            credential_subject: self.credential_subject.duplicate(),
            proof: self.proof.duplicate(),
        }
    }
}

/// The bytes of an ASCII text, one per character.
pub open spec fn ascii_bytes(s: Seq<char>) -> Seq<u8> {
    Seq::new(s.len(), |i: int| s[i] as u8)
}

/// The identifier derived from a public commitment: the first 16 bytes of
/// the SHA-256 digest of the two decimal numerals written one after the
/// other, in hexadecimal.
pub open spec fn did_identifier(y1: nat, y2: nat) -> Seq<char> {
    hex(sha256(ascii_bytes(decimal(y1) + decimal(y2))).subrange(0, 16))
}

/// The text form `did:<method>:<identifier>`.
pub open spec fn did_text(method: Seq<char>, identifier: Seq<char>) -> Seq<char> {
    "did:"@ + method + ":"@ + identifier
}

/// The pieces of `s` between occurrences of `sep`, as `str::split` gives
/// them: one more piece than separators, empty pieces included.
pub open spec fn split_on(s: Seq<char>, sep: char) -> Seq<Seq<char>>
    decreases s.len(),
{
    if s.len() == 0 {
        seq![Seq::empty()]
    } else {
        let rest = split_on(s.drop_last(), sep);
        if s.last() == sep {
            rest.push(Seq::empty())
        } else {
            rest.update(rest.len() - 1, rest.last().push(s.last()))
        }
    }
}

/// A decimal numeral is ASCII.
proof fn lemma_decimal_ascii(n: nat)
    ensures
        vstd::utf8::is_ascii_chars(decimal(n)),
    decreases n,
{
    reveal_strlit("0123456789");
    if n >= 10 {
        lemma_decimal_ascii(n / 10);
    }
}

proof fn lemma_split_nonempty(s: Seq<char>, sep: char)
    ensures
        split_on(s, sep).len() >= 1,
    decreases s.len(),
{
    if s.len() > 0 {
        lemma_split_nonempty(s.drop_last(), sep);
    }
}

impl DID {
    /// The identifier of the public commitment `(y1, y2)`, with method `zkp`.
    pub fn from_zkp_params(y1: &BigNat, y2: &BigNat) -> (r: DID)
        ensures
            r.method@ == "zkp"@,
            r.identifier@ == did_identifier(y1@, y2@),
    {
        let d1 = y1.to_decimal();
        let d2 = y2.to_decimal();
        let s1 = d1.as_str();
        let s2 = d2.as_str();
        proof {
            lemma_decimal_ascii(y1@);
            lemma_decimal_ascii(y2@);
            is_ascii_spec_bytes(s1);
            is_ascii_spec_bytes(s2);
        }
        let mut combined: Vec<u8> = Vec::new();
        combined.extend_from_slice(s1.as_bytes());
        combined.extend_from_slice(s2.as_bytes());
        assert(combined@ =~= ascii_bytes(decimal(y1@) + decimal(y2@)));
        let digest = sha256_digest(combined.as_slice());
        let mut head: Vec<u8> = Vec::new();
        let mut i: usize = 0;
        while i < 16
            invariant
                i <= 16,
                digest@.len() == 32,
                head@ =~= digest@.subrange(0, i as int),
            decreases 16 - i,
        {
            head.push(digest[i]);
            i = i + 1;
        }
        let identifier = hex_encode(head.as_slice());
        DID { method: "zkp".to_owned(), identifier }
    }

    /// `did:<method>:<identifier>`.
    pub fn to_string(&self) -> (r: String)
        ensures
            r@ == did_text(self.method@, self.identifier@),
    {
        let mut r = "did:".to_owned();
        r.append(self.method.as_str());
        r.append(":");
        r.append(self.identifier.as_str());
        r
    }

    /// Reads `did:<method>:<identifier>`: the text must split on `:` into
    /// exactly three pieces, the first of them `did`.
    pub fn from_string(did_str: &str) -> (r: Option<DID>)
        ensures
            ({
                let parts = split_on(did_str@, ':');
                match r {
                    Some(d) => parts.len() == 3 && parts[0] == "did"@ && d.method@ == parts[1]
                        && d.identifier@ == parts[2],
                    None => !(parts.len() == 3 && parts[0] == "did"@),
                }
            }),
    {
        let n = did_str.unicode_len();
        let ghost s = did_str@;
        let mut count: usize = 0;
        let mut first: usize = 0;
        let mut second: usize = 0;
        let mut start: usize = 0;
        let mut i: usize = 0;
        proof {
            assert(s.subrange(0, 0) =~= Seq::<char>::empty());
        }
        while i < n
            invariant
                n == s.len(),
                s == did_str@,
                i <= n,
                start <= i,
                count <= i,
                split_on(s.subrange(0, i as int), ':').len() == count + 1,
                split_on(s.subrange(0, i as int), ':').last() == s.subrange(start as int, i as int),
                count >= 1 ==> first < start && split_on(s.subrange(0, i as int), ':')[0] == s.subrange(0, first as int),
                count >= 2 ==> first < second && second < start && split_on(s.subrange(0, i as int), ':')[1] == s.subrange(first + 1, second as int),
                count == 0 ==> start == 0,
                count == 1 ==> start == first + 1,
                count == 2 ==> start == second + 1,
            decreases n - i,
        {
            let ch = did_str.get_char(i);
            let ghost prev = split_on(s.subrange(0, i as int), ':');
            proof {
                let t = s.subrange(0, i + 1);
                assert(t.drop_last() =~= s.subrange(0, i as int));
                assert(t.last() == ch);
                lemma_split_nonempty(s.subrange(0, i as int), ':');
            }
            if ch == ':' {
                if count == 0 {
                    first = i;
                } else if count == 1 {
                    second = i;
                }
                count = count + 1;
                start = i + 1;
                proof {
                    assert(s.subrange(start as int, i + 1) =~= Seq::<char>::empty());
                }
            } else {
                proof {
                    assert(s.subrange(start as int, i + 1) =~= s.subrange(start as int, i as int).push(ch));
                }
            }
            i = i + 1;
        }
        proof {
            assert(s.subrange(0, n as int) =~= s);
        }
        if count == 2 && first == 3 && did_str.get_char(0) == 'd' && did_str.get_char(1) == 'i'
            && did_str.get_char(2) == 'd' {
            proof {
                reveal_strlit("did");
                assert(s.subrange(0, 3) =~= "did"@);
            }
            let method = did_str.substring_char(first + 1, second).to_owned();
            let identifier = did_str.substring_char(second + 1, n).to_owned();
            Some(DID { method, identifier })
        } else {
            proof {
                reveal_strlit("did");
                if count == 2 && split_on(s, ':')[0] == "did"@ {
                    assert(s.subrange(0, first as int).len() == 3);
                    assert(s.subrange(0, first as int)[0] == 'd');
                    assert(s.subrange(0, first as int)[1] == 'i');
                    assert(s.subrange(0, first as int)[2] == 'd');
                }
            }
            None
        }
    }
}

} // verus!
