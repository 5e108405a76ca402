use num_bigint::BigUint;
use zkp_auth::bignat::BigNat;

#[test]
fn bytes_are_canonical() {
    assert_eq!(BigNat::from_bytes_be(&[0, 0, 1, 2]).to_bytes_be(), vec![1, 2]);
    assert_eq!(BigNat::from_bytes_be(&[]).to_bytes_be(), vec![0]);
    assert_eq!(BigNat::from_bytes_be(&[0, 0]).to_bytes_be(), vec![0]);
    assert_eq!(BigNat::from_u64(258).to_bytes_be(), vec![1, 2]);
    assert_eq!(BigNat::from_u64(0).to_bytes_be(), vec![0]);
    assert_eq!(BigNat::from_u64(u64::MAX).to_bytes_be(), vec![255; 8]);
    assert_eq!(BigNat::from_bytes_be(&[0, 1, 2]), BigNat::from_u64(258));
}

#[test]
fn from_u64_matches_biguint() {
    for v in [0u64, 1, 255, 256, 65535, 65536, 1 << 40, 1234567890123, u64::MAX] {
        assert_eq!(BigNat::from_u64(v).to_bytes_be(), BigUint::from(v).to_bytes_be());
    }
}

#[test]
fn equality_is_by_value() {
    assert_eq!(BigNat::from_bytes_be(&[0, 0x0f, 0x42, 0x43]), BigNat::from_u64(1_000_003));
    assert_ne!(BigNat::from_u64(997), BigNat::from_u64(998));
    let a = BigNat::from_bytes_be(&[7; 40]);
    assert_eq!(a.clone(), a);
}
