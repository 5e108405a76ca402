use std::collections::HashSet;
use zkp_auth::bignat::BigNat;
use zkp_auth::server::{generate_token, AuthError, AuthImpl, TOKEN_LEN};
use zkp_auth::zkp::ZKP;

fn n(v: u64) -> BigNat {
    BigNat::from_u64(v)
}

fn toy_server() -> AuthImpl {
    AuthImpl::new(ZKP::new(n(23), n(11), n(4), n(9)).unwrap())
}

fn bytes(v: u64) -> Vec<u8> {
    n(v).to_bytes_be()
}

// y1 = 4^6 = 2, y2 = 9^6 = 3 (mod 23); r1 = 4^7 = 8, r2 = 9^7 = 4.
fn registered_server() -> AuthImpl {
    let mut server = toy_server();
    assert_eq!(server.register("did:zkp:alice".to_string(), &bytes(2), &bytes(3)), Ok(()));
    server
}

#[test]
fn register_rejects_empty_values() {
    let mut server = toy_server();
    assert_eq!(server.register("alice".to_string(), &[], &bytes(3)), Err(AuthError::InvalidArgument));
    assert_eq!(server.register("alice".to_string(), &bytes(2), &[]), Err(AuthError::InvalidArgument));
    assert!(!server.store.is_registered(&"alice".to_string()));
    assert_eq!(server.register("alice".to_string(), &bytes(2), &bytes(3)), Ok(()));
    assert!(server.store.is_registered(&"alice".to_string()));
}

#[test]
fn challenge_for_unregistered_identity_not_found() {
    let mut server = registered_server();
    let r = server.create_challenge(&"did:zkp:bob".to_string(), &bytes(8), &bytes(4), 0);
    assert!(matches!(r, Err(AuthError::NotFound)));
}

#[test]
fn challenge_with_empty_commitment_invalid() {
    let mut server = registered_server();
    let did = "did:zkp:alice".to_string();
    assert!(matches!(server.create_challenge(&did, &[], &bytes(4), 0), Err(AuthError::InvalidArgument)));
    assert!(matches!(server.create_challenge(&did, &bytes(8), &[], 0), Err(AuthError::InvalidArgument)));
    // empty material is refused before the identity is looked up
    let bob = "bob".to_string();
    assert!(matches!(server.create_challenge(&bob, &[], &bytes(4), 0), Err(AuthError::InvalidArgument)));
}

#[test]
fn login_succeeds_with_honest_response() {
    let mut server = registered_server();
    let did = "did:zkp:alice".to_string();
    let zkp = ZKP::new(n(23), n(11), n(4), n(9)).unwrap();
    let resp = server.create_challenge(&did, &bytes(8), &bytes(4), 0).unwrap();
    assert_eq!(resp.token.len(), TOKEN_LEN);
    assert!(resp.token.chars().all(|ch| ch.is_ascii_alphanumeric()));
    let c = BigNat::from_bytes_be(&resp.c);
    assert_eq!(resp.c.len(), 1);
    assert!(resp.c[0] < 11);
    assert_eq!(c.to_bytes_be(), resp.c);
    let s = zkp.solve(&n(7), &c, &n(6));
    let session = server.verify_authentication(&resp.token, &s.to_bytes_be()).unwrap();
    assert_eq!(session.len(), TOKEN_LEN);
    assert!(session.chars().all(|ch| ch.is_ascii_alphanumeric()));
}

#[test]
fn scenario_with_fixed_challenge() {
    let mut server = registered_server();
    let did = "did:zkp:alice".to_string();
    let resp = server
        .create_challenge_with(&did, &bytes(8), &bytes(4), n(4), "tok".to_string(), 5)
        .unwrap();
    assert_eq!(resp.token, "tok");
    assert_eq!(resp.c, vec![4]);
    assert_eq!(server.check_solution(&"tok".to_string(), &bytes(5)), Ok(()));
}

#[test]
fn unknown_token_not_found() {
    let mut server = registered_server();
    assert_eq!(server.verify_authentication(&"nope".to_string(), &bytes(5)), Err(AuthError::NotFound));
}

#[test]
fn used_token_not_found() {
    let mut server = registered_server();
    let did = "did:zkp:alice".to_string();
    server.create_challenge_with(&did, &bytes(8), &bytes(4), n(4), "tok".to_string(), 0).unwrap();
    assert!(server.verify_authentication(&"tok".to_string(), &bytes(5)).is_ok());
    assert_eq!(server.verify_authentication(&"tok".to_string(), &bytes(5)), Err(AuthError::NotFound));
}

#[test]
fn tampered_response_permission_denied_and_consumed() {
    let mut server = registered_server();
    let did = "did:zkp:alice".to_string();
    server.create_challenge_with(&did, &bytes(8), &bytes(4), n(4), "tok".to_string(), 0).unwrap();
    // the honest response is 5; the response made with x_fake = 7 is 1
    assert_eq!(server.verify_authentication(&"tok".to_string(), &bytes(1)), Err(AuthError::PermissionDenied));
    assert_eq!(server.verify_authentication(&"tok".to_string(), &bytes(5)), Err(AuthError::NotFound));
}

#[test]
fn empty_token_or_response_invalid() {
    let mut server = registered_server();
    let did = "did:zkp:alice".to_string();
    server.create_challenge_with(&did, &bytes(8), &bytes(4), n(4), "tok".to_string(), 0).unwrap();
    assert_eq!(server.verify_authentication(&String::new(), &bytes(5)), Err(AuthError::InvalidArgument));
    assert_eq!(server.verify_authentication(&"tok".to_string(), &[]), Err(AuthError::InvalidArgument));
    // the refused requests did not consume the challenge
    assert!(server.verify_authentication(&"tok".to_string(), &bytes(5)).is_ok());
}

#[test]
fn pending_token_is_never_replaced() {
    let mut server = registered_server();
    let did = "did:zkp:alice".to_string();
    server.create_challenge_with(&did, &bytes(8), &bytes(4), n(4), "tok".to_string(), 0).unwrap();
    let second = server.create_challenge_with(&did, &bytes(1), &bytes(1), n(9), "tok".to_string(), 0);
    assert!(matches!(second, Err(AuthError::AlreadyExists)));
    assert_eq!(server.check_solution(&"tok".to_string(), &bytes(5)), Ok(()));
}

#[test]
fn concurrent_attempts_for_one_identity_are_independent() {
    let mut server = registered_server();
    let did = "did:zkp:alice".to_string();
    let zkp = ZKP::new(n(23), n(11), n(4), n(9)).unwrap();
    // first attempt: k = 7, second attempt: k = 3 (r1 = 4^3 = 18, r2 = 9^3 = 16)
    server.create_challenge_with(&did, &bytes(8), &bytes(4), n(4), "first".to_string(), 0).unwrap();
    server.create_challenge_with(&did, &bytes(18), &bytes(16), n(2), "second".to_string(), 0).unwrap();
    let s2 = zkp.solve(&n(3), &n(2), &n(6));
    let s1 = zkp.solve(&n(7), &n(4), &n(6));
    assert_eq!(server.check_solution(&"second".to_string(), &s2.to_bytes_be()), Ok(()));
    assert_eq!(server.check_solution(&"first".to_string(), &s1.to_bytes_be()), Ok(()));
}

#[test]
fn reregistration_replaces_commitment() {
    let mut server = registered_server();
    let did = "did:zkp:alice".to_string();
    server.create_challenge_with(&did, &bytes(8), &bytes(4), n(4), "tok".to_string(), 0).unwrap();
    // x = 1: y1 = 4, y2 = 9
    assert_eq!(server.register(did.clone(), &bytes(4), &bytes(9)), Ok(()));
    assert_eq!(server.check_solution(&"tok".to_string(), &bytes(5)), Err(AuthError::PermissionDenied));
}

#[test]
fn expired_challenge_not_found() {
    let mut server = registered_server();
    let did = "did:zkp:alice".to_string();
    server.create_challenge_with(&did, &bytes(8), &bytes(4), n(4), "old".to_string(), 10).unwrap();
    server.create_challenge_with(&did, &bytes(8), &bytes(4), n(4), "new".to_string(), 20).unwrap();
    server.expire_challenges(20);
    assert!(!server.store.has_attempt(&"old".to_string()));
    assert!(server.store.has_attempt(&"new".to_string()));
    assert_eq!(server.check_solution(&"old".to_string(), &bytes(5)), Err(AuthError::NotFound));
    assert_eq!(server.check_solution(&"new".to_string(), &bytes(5)), Ok(()));
}

#[test]
fn tokens_are_pairwise_distinct() {
    let mut server = registered_server();
    let did = "did:zkp:alice".to_string();
    let mut seen = HashSet::new();
    for i in 0..500u64 {
        let resp = server.create_challenge(&did, &bytes(8), &bytes(4), i).unwrap();
        assert!(seen.insert(resp.token));
    }
    for _ in 0..500 {
        assert!(seen.insert(generate_token()));
    }
}

#[test]
fn every_response_but_the_honest_one_is_denied() {
    let did = "did:zkp:alice".to_string();
    for s in 0..11u64 {
        let mut server = registered_server();
        server.create_challenge_with(&did, &bytes(8), &bytes(4), n(4), "tok".to_string(), 0).unwrap();
        let r = server.verify_authentication(&"tok".to_string(), &bytes(s));
        if s == 5 {
            assert!(r.is_ok());
        } else {
            assert_eq!(r, Err(AuthError::PermissionDenied));
        }
    }
}
