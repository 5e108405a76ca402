use num_bigint::BigUint;
use zkp_auth::bignat::BigNat;
use zkp_auth::zkp::ZKP;

fn n(v: u64) -> BigNat {
    BigNat::from_u64(v)
}

fn toy_group() -> ZKP {
    ZKP::new(n(23), n(11), n(4), n(9)).unwrap()
}

fn as_u64(b: &BigNat) -> u64 {
    let v = BigUint::from_bytes_be(&b.to_bytes_be());
    u64::try_from(v).unwrap()
}

#[test]
fn testing_zkp() {
    let alpha = n(4);
    let beta = n(9);
    let p = n(23);
    let q = n(11);
    let zkp_new = ZKP::new(p.clone(), q, alpha.clone(), beta.clone()).unwrap();

    let x = n(6);
    let k = n(7);
    let c = n(4);

    let y1 = ZKP::exponentiate(&alpha, &x, &p);
    let y2 = ZKP::exponentiate(&beta, &x, &p);
    assert_eq!(y1, n(2));
    assert_eq!(y2, n(3));

    let r1 = ZKP::exponentiate(&alpha, &k, &p);
    let r2 = ZKP::exponentiate(&beta, &k, &p);
    assert_eq!(r1, n(8));
    assert_eq!(r2, n(4));

    let s = zkp_new.solve(&k, &c, &x);
    assert_eq!(s, n(5));

    let result = zkp_new.verify_solution(&r1, &r2, &y1, &y2, &c, &s);
    assert!(result);

    let x_fake = n(7);
    let s_fake = zkp_new.solve(&k, &c, &x_fake);
    let result2 = zkp_new.verify_solution(&r1, &r2, &y1, &y2, &c, &s_fake);
    assert!(!result2)
}

#[test]
fn testing_zkp_withrand() {
    let alpha = n(4);
    let beta = n(9);
    let p = n(23);
    let q = n(11);
    let zkp_new = ZKP::new(p.clone(), q.clone(), alpha.clone(), beta.clone()).unwrap();

    let x = n(6);
    let k = ZKP::generate_random_number_less_than(&q);
    let c = ZKP::generate_random_number_less_than(&q);

    let y1 = ZKP::exponentiate(&alpha, &x, &p);
    let y2 = ZKP::exponentiate(&beta, &x, &p);
    assert_eq!(y1, n(2));
    assert_eq!(y2, n(3));

    let r1 = ZKP::exponentiate(&alpha, &k, &p);
    let r2 = ZKP::exponentiate(&beta, &k, &p);

    let s = zkp_new.solve(&k, &c, &x);

    let result = zkp_new.verify_solution(&r1, &r2, &y1, &y2, &c, &s);
    assert!(result);
}

#[test]
fn new_rejects_degenerate_parameters() {
    assert!(ZKP::new(n(1), n(11), n(4), n(9)).is_none());
    assert!(ZKP::new(n(0), n(11), n(4), n(9)).is_none());
    assert!(ZKP::new(n(23), n(1), n(4), n(9)).is_none());
    assert!(ZKP::new(n(23), n(2), n(4), n(9)).is_some());
}

#[test]
fn honest_prover_accepted_for_every_input_of_toy_group() {
    let zkp = toy_group();
    for x in 0..11u64 {
        let y1 = ZKP::exponentiate(&n(4), &n(x), &n(23));
        let y2 = ZKP::exponentiate(&n(9), &n(x), &n(23));
        for k in 0..13u64 {
            let r1 = ZKP::exponentiate(&n(4), &n(k), &n(23));
            let r2 = ZKP::exponentiate(&n(9), &n(k), &n(23));
            for c in 0..12u64 {
                let s = zkp.solve(&n(k), &n(c), &n(x));
                assert!(zkp.verify_solution(&r1, &r2, &y1, &y2, &n(c), &s));
            }
        }
    }
}

#[test]
fn wrong_secret_rejected_for_every_nonzero_challenge() {
    let zkp = toy_group();
    let x = 6u64;
    let y1 = ZKP::exponentiate(&n(4), &n(x), &n(23));
    let y2 = ZKP::exponentiate(&n(9), &n(x), &n(23));
    for x_fake in 0..11u64 {
        if x_fake == x {
            continue;
        }
        for k in 0..11u64 {
            let r1 = ZKP::exponentiate(&n(4), &n(k), &n(23));
            let r2 = ZKP::exponentiate(&n(9), &n(k), &n(23));
            for c in 1..11u64 {
                let s = zkp.solve(&n(k), &n(c), &n(x_fake));
                assert!(!zkp.verify_solution(&r1, &r2, &y1, &y2, &n(c), &s));
            }
        }
    }
}

#[test]
fn single_generator_forgery_rejected() {
    // r2 does not match beta^k: only the first check would pass.
    let zkp = toy_group();
    let s = zkp.solve(&n(7), &n(4), &n(6));
    assert!(zkp.verify_solution(&n(8), &n(4), &n(2), &n(3), &n(4), &s));
    assert!(!zkp.verify_solution(&n(8), &n(5), &n(2), &n(3), &n(4), &s));
    assert!(!zkp.verify_solution(&n(9), &n(4), &n(2), &n(3), &n(4), &s));
}

#[test]
fn response_is_reduced_when_k_is_below_cx() {
    let zkp = toy_group();
    // k - c * x = 4 - 15 = -11, a multiple of q: the response is 0, not q.
    assert_eq!(zkp.solve(&n(4), &n(1), &n(15)), n(0));
    // 7 - 4 * 6 = -17 = 5 (mod 11)
    assert_eq!(zkp.solve(&n(7), &n(4), &n(6)), n(5));
    // k >= c * x: 30 - 2 * 3 = 24 = 2 (mod 11)
    assert_eq!(zkp.solve(&n(30), &n(2), &n(3)), n(2));
    for k in 0..40u64 {
        for c in 0..12u64 {
            for x in 0..12u64 {
                let s = as_u64(&zkp.solve(&n(k), &n(c), &n(x)));
                assert!(s < 11);
                let expected = ((k as i64 - (c * x) as i64).rem_euclid(11)) as u64;
                assert_eq!(s, expected);
            }
        }
    }
}

#[test]
fn reused_nonce_reveals_secret() {
    let zkp = toy_group();
    let (k, x, c1, c2) = (7u64, 6u64, 4u64, 9u64);
    let s1 = as_u64(&zkp.solve(&n(k), &n(c1), &n(x)));
    let s2 = as_u64(&zkp.solve(&n(k), &n(c2), &n(x)));
    assert_eq!((s1, s2), (5, 8));
    // (c2 - c1)^-1 = 5^-1 = 9 (mod 11)
    let inv = 9u64;
    assert_eq!((5 * inv) % 11, 1);
    let recovered = (((s1 as i64 - s2 as i64).rem_euclid(11)) as u64 * inv) % 11;
    assert_eq!(recovered, x);
}

#[test]
fn random_number_is_below_bound() {
    for _ in 0..200 {
        let r = ZKP::generate_random_number_less_than(&n(11));
        assert!(as_u64(&r) < 11);
    }
    assert_eq!(ZKP::generate_random_number_less_than(&n(1)), n(0));
}

#[test]
fn exponentiate_large_values() {
    // 3^200 mod (2^61 - 1), computed by repeated squaring with u128.
    let m: u64 = 2305843009213693951;
    let mut acc: u128 = 1;
    for _ in 0..200 {
        acc = acc * 3 % m as u128;
    }
    let r = ZKP::exponentiate(&n(3), &n(200), &n(m));
    assert_eq!(as_u64(&r), acc as u64);
}

#[test]
fn exponentiate_modulo_one_is_zero() {
    assert_eq!(ZKP::exponentiate(&n(4), &n(0), &n(1)), n(0));
    assert_eq!(ZKP::exponentiate(&n(4), &n(7), &n(1)), n(0));
    assert_eq!(ZKP::exponentiate(&n(4), &n(0), &n(23)), n(1));
}
