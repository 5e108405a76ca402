use num_bigint::BigUint;
use sha2::{Digest, Sha256};
use zkp_auth::bignat::BigNat;
use zkp_auth::encoding::base64_decode;
use zkp_auth::ssi::credential::DID;
use zkp_auth::ssi::issuer::Issuer;
use zkp_auth::wallet::{wallet_file_name, Wallet};
use zkp_auth::zkp::ZKP;

fn n(v: u64) -> BigNat {
    BigNat::from_u64(v)
}

#[test]
fn did_text_round_trip() {
    let did = DID { method: "zkp".to_string(), identifier: "abc123".to_string() };
    assert_eq!(did.to_string(), "did:zkp:abc123");
    let back = DID::from_string("did:zkp:abc123").unwrap();
    assert_eq!(back.method, "zkp");
    assert_eq!(back.identifier, "abc123");
}

#[test]
fn did_from_string_rejects_malformed() {
    assert!(DID::from_string("did:zkp").is_none());
    assert!(DID::from_string("dix:zkp:abc").is_none());
    assert!(DID::from_string("did:zkp:abc:def").is_none());
    assert!(DID::from_string("").is_none());
    assert!(DID::from_string("xdid:a:b").is_none());
    let empty = DID::from_string("did::").unwrap();
    assert_eq!(empty.method, "");
    assert_eq!(empty.identifier, "");
    let web = DID::from_string("did:web:é").unwrap();
    assert_eq!(web.method, "web");
    assert_eq!(web.identifier, "é");
}

#[test]
fn did_derived_from_commitment() {
    let did = DID::from_zkp_params(&n(2), &n(3));
    assert_eq!(did.method, "zkp");
    let digest = Sha256::digest(b"23");
    assert_eq!(did.identifier, hex::encode(&digest[..16]));
    assert_eq!(did.identifier.len(), 32);
    let other = DID::from_zkp_params(&n(23), &n(0));
    assert_eq!(other.identifier, hex::encode(&Sha256::digest(b"230")[..16]));
}

#[test]
fn base64_decoding() {
    assert_eq!(base64_decode("TWFu"), Some(b"Man".to_vec()));
    assert_eq!(base64_decode("TWE="), Some(b"Ma".to_vec()));
    assert_eq!(base64_decode("Ag=="), Some(vec![2]));
    assert_eq!(base64_decode(""), Some(vec![]));
    assert_eq!(base64_decode("TWF"), None);
    assert_eq!(base64_decode("TW=u"), None);
    assert_eq!(base64_decode("Ah=="), None);
}

#[test]
fn did_identifier_is_hex_of_digest_head() {
    // the numerals of 1 and 2, one after the other, are "12"
    let did = DID::from_zkp_params(&n(1), &n(2));
    let digest = Sha256::digest(b"12");
    let mut expected = String::new();
    for byte in &digest[..16] {
        expected.push_str(&format!("{:02x}", byte));
    }
    assert_eq!(did.identifier, expected);
    assert!(did.identifier.chars().all(|ch| ch.is_ascii_hexdigit() && !ch.is_ascii_uppercase()));
}

#[test]
fn credential_carries_base64_of_canonical_bytes() {
    let y1 = BigNat::from_bytes_be(&[0, 0x4d, 0x61, 0x6e]);
    let y2 = BigNat::from_u64(0x4d61);
    let (cred, _) = Issuer::issue_credential_at("m", &y1, &y2, String::new());
    assert_eq!(cred.proof.y1, "TWFu");
    assert_eq!(cred.proof.y2, "TWE=");
}

#[test]
fn issued_credential_fields() {
    let (cred, did) = Issuer::issue_credential_at("alice", &n(2), &n(3), "2024-01-01T00:00:00+00:00".to_string());
    let did_text = did.to_string();
    assert_eq!(cred.context, vec![
        "https://www.w3.org/2018/credentials/v1".to_string(),
        "https://www.w3.org/2018/credentials/examples/v1".to_string(),
    ]);
    assert_eq!(cred.credential_type, vec!["VerifiableCredential".to_string(), "UniversityCredential".to_string()]);
    assert_eq!(cred.id, format!("https://pau.edu.ng/credentials/{}", did.identifier));
    assert_eq!(cred.issuer, "did:web:pau.edu.ng");
    assert_eq!(cred.issuance_date, "2024-01-01T00:00:00+00:00");
    assert_eq!(cred.credential_subject.id, did_text);
    assert_eq!(cred.credential_subject.name, "alice");
    assert_eq!(cred.credential_subject.age, 22);
    assert_eq!(cred.credential_subject.university, "Pan-Atlantic University");
    assert_eq!(cred.proof.proof_type, "ZKPSignature2024");
    assert_eq!(cred.proof.verification_method, format!("{}#zkp-key-1", did_text));
    assert_eq!(cred.proof.y1, "Ag==");
    assert_eq!(cred.proof.y2, "Aw==");
    let (now_cred, _) = Issuer::issue_credential("alice", &n(2), &n(3));
    assert!(!now_cred.issuance_date.is_empty());
}

#[test]
fn wallet_file_names() {
    assert_eq!(wallet_file_name("did:zkp:abc"), "did_zkp_abc_wallet.json");
    assert_eq!(wallet_file_name(""), "_wallet.json");
}

#[test]
fn wallet_flow() {
    let zkp = ZKP::new(n(23), n(11), n(4), n(9)).unwrap();
    let mut wallet = Wallet::new("alice".to_string());
    assert!(wallet.get_did().is_none());
    assert!(wallet.get_credential().is_none());
    assert!(wallet.get_zkp_params().is_none());
    assert!(wallet.generate_auth_data(&zkp).is_none());
    let x = wallet.generate_secret(zkp.order());
    let x_value = BigUint::from_bytes_be(&x.to_bytes_be());
    assert!(x_value < BigUint::from(11u32));
    assert!(wallet.generate_auth_data(&zkp).is_none());
    let y1 = ZKP::exponentiate(zkp.alpha(), &x, zkp.modulus());
    let y2 = ZKP::exponentiate(zkp.beta(), &x, zkp.modulus());
    let (cred, did) = Issuer::issue_credential("alice", &y1, &y2);
    let data = wallet.store_credential(cred, did.clone());
    assert_eq!(data.did, did.to_string());
    assert_eq!(data.secret, x_value.to_string());
    assert_eq!(wallet.get_did().unwrap().identifier, did.identifier);
    let (p1, p2) = wallet.get_zkp_params().unwrap();
    assert_eq!(p1, y1);
    assert_eq!(p2, y2);

    let (r1, r2, k) = wallet.generate_auth_data(&zkp).unwrap();
    assert_eq!(r1, ZKP::exponentiate(zkp.alpha(), &k, zkp.modulus()));
    assert_eq!(r2, ZKP::exponentiate(zkp.beta(), &k, zkp.modulus()));
    let c = n(4);
    let s = wallet.generate_proof(&k, &c, &zkp);
    assert_eq!(s, zkp.solve(&k, &c, &x));
    assert!(zkp.verify_solution(&r1, &r2, &y1, &y2, &c, &s));
}

#[test]
fn every_commitment_draws_a_fresh_nonce() {
    // a large order, so that two honest draws coincide with negligible chance
    let zkp = ZKP::new(n(2305843009213693951), n(2305843009213693951), n(3), n(5)).unwrap();
    let mut wallet = Wallet::new("bob".to_string());
    let x = wallet.generate_secret(zkp.order());
    let y1 = ZKP::exponentiate(zkp.alpha(), &x, zkp.modulus());
    let y2 = ZKP::exponentiate(zkp.beta(), &x, zkp.modulus());
    let (cred, did) = Issuer::issue_credential("bob", &y1, &y2);
    wallet.store_credential(cred, did);
    let mut nonces: Vec<BigNat> = Vec::new();
    for _ in 0..50 {
        let (_, _, k) = wallet.generate_auth_data(&zkp).unwrap();
        assert!(nonces.iter().all(|old| *old != k));
        nonces.push(k);
    }
}
