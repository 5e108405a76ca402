//! A credential issuer that binds a public commitment to a derived
//! identifier and a fixed set of claims. It signs nothing: the credential
//! is a convenience binding, not a trust anchor.

use crate::bignat::{be_bytes, BigNat};
use crate::encoding::{base64_encode, base64_text};
use crate::ssi::credential::{
    did_identifier, did_text, CredentialSubject, CredentialView, ProofView, SubjectView,
    VerifiableCredential, ZKPProof, DID,
};
use vstd::prelude::*;
use vstd::string::StringExecFns;

verus! {

/// The credential issued to `username` for the commitment `(y1, y2)` at
/// `issuance_date`.
pub open spec fn issued_credential(username: Seq<char>, y1: nat, y2: nat, issuance_date: Seq<char>) -> CredentialView {
    let identifier = did_identifier(y1, y2);
    let did = did_text("zkp"@, identifier);
    CredentialView {
        context: seq![
            "https://www.w3.org/2018/credentials/v1"@,
            "https://www.w3.org/2018/credentials/examples/v1"@,
        ],
        credential_type: seq!["VerifiableCredential"@, "UniversityCredential"@],
        id: "https://pau.edu.ng/credentials/"@ + identifier,
        issuer: "did:web:pau.edu.ng"@,
        issuance_date,
        subject: SubjectView { id: did, name: username, age: 22, university: "Pan-Atlantic University"@ },
        proof: ProofView {
            proof_type: "ZKPSignature2024"@,
            verification_method: did + "#zkp-key-1"@,
            y1: base64_text(be_bytes(y1)),
            y2: base64_text(be_bytes(y2)),
        },
    }
}

/// Relies on chrono's `Utc::now`, written by `DateTime::to_rfc3339`: the
/// current time; nothing is promised of its text.
#[verifier::external_body]
fn current_time_rfc3339() -> (r: String) {
    chrono::Utc::now().to_rfc3339()
}

/// Issues credentials for public commitments.
pub struct Issuer;

impl Issuer {
    /// The credential and identifier for `username` and the commitment
    /// `(y1, y2)`, dated `issuance_date`.
    pub fn issue_credential_at(username: &str, y1: &BigNat, y2: &BigNat, issuance_date: String) -> (r: (
        VerifiableCredential,
        DID,
    ))
        ensures
            r.0@ == issued_credential(username@, y1@, y2@, issuance_date@),
            r.1.method@ == "zkp"@,
            r.1.identifier@ == did_identifier(y1@, y2@),
    {
        let did = DID::from_zkp_params(y1, y2);
        let did_string = did.to_string();
        let mut context: Vec<String> = Vec::new();
        context.push("https://www.w3.org/2018/credentials/v1".to_owned());
        context.push("https://www.w3.org/2018/credentials/examples/v1".to_owned());
        let mut credential_type: Vec<String> = Vec::new();
        credential_type.push("VerifiableCredential".to_owned());
        credential_type.push("UniversityCredential".to_owned());
        let mut id = "https://pau.edu.ng/credentials/".to_owned();
        id.append(did.identifier.as_str());
        let mut verification_method = did_string.clone();
        verification_method.append("#zkp-key-1");
        let b1 = y1.to_bytes_be();
        let b2 = y2.to_bytes_be();
        let credential = VerifiableCredential {
            context,
            credential_type,
            id,
            issuer: "did:web:pau.edu.ng".to_owned(),
            issuance_date,
            credential_subject: CredentialSubject {
                id: did_string,
                name: username.to_owned(),
                age: 22,
                university: "Pan-Atlantic University".to_owned(),
            },
            proof: ZKPProof {
                proof_type: "ZKPSignature2024".to_owned(),
                verification_method,
                y1: base64_encode(b1.as_slice()),
                y2: base64_encode(b2.as_slice()),
            },
        };
        proof {
            assert(credential@.context =~= issued_credential(username@, y1@, y2@, issuance_date@).context);
            assert(credential@.credential_type =~= issued_credential(username@, y1@, y2@, issuance_date@).credential_type);
        }
        (credential, did)
    }

    /// The credential and identifier for `username` and the commitment
    /// `(y1, y2)`, dated now.
    pub fn issue_credential(username: &str, y1: &BigNat, y2: &BigNat) -> (r: (VerifiableCredential, DID))
        ensures
            r.0@ == issued_credential(username@, y1@, y2@, r.0.issuance_date@),
            r.1.method@ == "zkp"@,
            r.1.identifier@ == did_identifier(y1@, y2@),
    {
        let now = current_time_rfc3339();
        Issuer::issue_credential_at(username, y1, y2, now)
    }
}

} // verus!
