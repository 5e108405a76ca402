//! The prover's wallet: it holds the secret `x`, the credential and the
//! identifier, and produces commitments and responses.

use crate::bignat::{be_value, decimal, mod_pow, BigNat};
use crate::encoding::{base64_decode, base64_text, is_base64};
use crate::ssi::credential::{did_text, CredentialView, VerifiableCredential, DID};
use crate::zkp::{response, ZKP};
use vstd::prelude::*;
use vstd::string::StringExecFns;

verus! {

/// What a wallet keeps on disk: the identifier in text form, the
/// credential and the secret as a decimal numeral.
pub struct WalletData {
    pub did: String,
    pub credential: VerifiableCredential,
    pub secret: String,
}

/// The wallet's contents as values.
pub struct WalletView {
    pub username: Seq<char>,
    pub did: Option<(Seq<char>, Seq<char>)>,
    pub credential: Option<CredentialView>,
    pub secret: Option<nat>,
}

/// A prover's wallet.
pub struct Wallet {
    username: String,
    did: Option<DID>,
    credential: Option<VerifiableCredential>,
    zkp_secret: Option<BigNat>,
}

impl View for Wallet {
    type V = WalletView;

    closed spec fn view(&self) -> WalletView {
        WalletView {
            username: self.username@,
            did: match self.did {
                Some(d) => Some(d@),
                None => None,
            },
            credential: match self.credential {
                Some(c) => Some(c@),
                None => None,
            },
            secret: match self.zkp_secret {
                Some(x) => Some(x@),
                None => None,
            },
        }
    }
}

/// The name of the file that holds the wallet of identifier `did`: every
/// `:` becomes `_`, followed by `_wallet.json`.
pub open spec fn wallet_file(did: Seq<char>) -> Seq<char> {
    Seq::new(did.len(), |i: int| if did[i] == ':' { '_' } else { did[i] }) + "_wallet.json"@
}

/// The name of the file that holds the wallet of identifier `did`.
pub fn wallet_file_name(did: &str) -> (r: String)
    ensures
        r@ == wallet_file(did@),
{
    let n = did.unicode_len();
    let mut r = String::new();
    let mut i: usize = 0;
    while i < n
        invariant
            n == did@.len(),
            i <= n,
            r@ =~= Seq::new(i as nat, |j: int| if did@[j] == ':' { '_' } else { did@[j] }),
        decreases n - i,
    {
        if did.get_char(i) == ':' {
            r.append("_");
            proof {
                reveal_strlit("_");
            }
        } else {
            r.append(did.substring_char(i, i + 1));
        }
        i = i + 1;
    }
    r.append("_wallet.json");
    r
}

impl Wallet {
    /// An empty wallet for `username`.
    pub fn new(username: String) -> (r: Wallet)
        ensures
            r@ == (WalletView { username: username@, did: None, credential: None, secret: None }),
    {
        Wallet { username, did: None, credential: None, zkp_secret: None }
    }

    /// Draws a new secret in `[0, q)` and keeps it.
    pub fn generate_secret(&mut self, q: &BigNat) -> (r: BigNat)
        requires
            q@ > 0,
        ensures
            r@ < q@,
            final(self)@ == (WalletView { secret: Some(r@), ..old(self)@ }),
    {
        let secret = ZKP::generate_random_number_less_than(q);
        self.zkp_secret = Some(secret.clone());
        secret
    }

    /// Keeps the credential and the identifier, and returns what is to be
    /// written to the wallet's file.
    pub fn store_credential(&mut self, credential: VerifiableCredential, did: DID) -> (r: WalletData)
        requires
            old(self)@.secret is Some,
        ensures
            final(self)@ == (WalletView { did: Some(did@), credential: Some(credential@), ..old(self)@ }),
            r.did@ == did_text(did.method@, did.identifier@),
            r.credential@ == credential@,
            r.secret@ == decimal(old(self)@.secret->0),
    {
        let secret = match &self.zkp_secret {
            Some(x) => x.to_decimal(),
            None => String::new(),
        };
        let data = WalletData { did: did.to_string(), credential: credential.duplicate(), secret };
        self.credential = Some(credential);
        self.did = Some(did);
        data
    }

    /// The identifier, once a credential is stored.
    pub fn get_did(&self) -> (r: Option<&DID>)
        ensures
            match r {
                Some(d) => self@.did == Some(d@),
                None => self@.did is None,
            },
    {
        match &self.did {
            Some(d) => Some(d),
            None => None,
        }
    }

    /// The credential, once one is stored.
    pub fn get_credential(&self) -> (r: Option<&VerifiableCredential>)
        ensures
            match r {
                Some(c) => self@.credential == Some(c@),
                None => self@.credential is None,
            },
    {
        match &self.credential {
            Some(c) => Some(c),
            None => None,
        }
    }

    /// A fresh commitment `(r1, r2, k)`: `k` drawn anew from `[0, q)`,
    /// `r1 = alpha^k mod p` and `r2 = beta^k mod p`; none until the wallet
    /// holds a credential and a secret.
    pub fn generate_auth_data(&self, zkp: &ZKP) -> (r: Option<(BigNat, BigNat, BigNat)>)
        ensures
            r is Some <==> (self@.credential is Some && self@.secret is Some),
            r matches Some((r1, r2, k)) ==> {
                &&& k@ < zkp@.q
                &&& r1@ == mod_pow(zkp@.alpha, k@, zkp@.p)
                &&& r2@ == mod_pow(zkp@.beta, k@, zkp@.p)
            },
    {
        if self.credential.is_none() || self.zkp_secret.is_none() {
            return None;
        }
        let k = ZKP::generate_random_number_less_than(zkp.order());
        let r1 = ZKP::exponentiate(zkp.alpha(), &k, zkp.modulus());
        let r2 = ZKP::exponentiate(zkp.beta(), &k, zkp.modulus());
        Some((r1, r2, k))
    }

    /// The response `s = (k - c * x) mod q` to the challenge `challenge`
    /// for the commitment made with nonce `k`.
    pub fn generate_proof(&self, k: &BigNat, challenge: &BigNat, zkp: &ZKP) -> (s: BigNat)
        requires
            self@.secret is Some,
        ensures
            s@ == response(k@, challenge@, self@.secret->0, zkp@.q),
    {
        match &self.zkp_secret {
            Some(x) => zkp.solve(k, challenge, x),
            None => BigNat::from_u64(0),
        }
    }

    /// The public commitment `(y1, y2)` that the stored credential carries;
    /// none without a credential or when its text does not decode.
    pub fn get_zkp_params(&self) -> (r: Option<(BigNat, BigNat)>)
        ensures
            r is Some <==> (self@.credential is Some && is_base64(self@.credential->0.proof.y1)
                && is_base64(self@.credential->0.proof.y2)),
            r matches Some((y1, y2)) ==> {
                &&& exists|b: Seq<u8>| base64_text(b) == self@.credential->0.proof.y1 && be_value(b) == y1@
                &&& exists|b: Seq<u8>| base64_text(b) == self@.credential->0.proof.y2 && be_value(b) == y2@
            },
    {
        match &self.credential {
            Some(cred) => {
                let b1 = match base64_decode(cred.proof.y1.as_str()) {
                    Some(b) => b,
                    None => return None,
                };
                let b2 = match base64_decode(cred.proof.y2.as_str()) {
                    Some(b) => b,
                    None => return None,
                };
                let y1 = BigNat::from_bytes_be(b1.as_slice());
                let y2 = BigNat::from_bytes_be(b2.as_slice());
                Some((y1, y2))
            },
            None => None,
        }
    }
}

} // verus!
