//! Field-element encoding, arithmetic wrappers, and hex transport.
use circuits_rust::field::{
    fe_add, fe_bytes, fe_eq, fe_from_be_bytes, fe_from_i64, fe_from_u64, fe_is_zero, fe_lt_half,
    fe_zero,
};
use circuits_rust::encoding::{hex_decode, hex_encode};

#[test]
fn zero_is_zero() {
    let z = fe_zero();
    assert!(fe_is_zero(&z));
    assert!(fe_eq(&z, &fe_from_u64(0)));
    assert_eq!(fe_bytes(&z), vec![0u8; 32]);
}

#[test]
fn from_u64_little_endian() {
    let x = fe_from_u64(0x0102);
    let b = fe_bytes(&x);
    assert_eq!(b[0], 0x02);
    assert_eq!(b[1], 0x01);
    assert_eq!(&b[2..], &[0u8; 30]);
}

#[test]
fn add_wraps_negatives() {
    // (-3) + 10 == 7 in the field
    let a = fe_from_i64(-3);
    let b = fe_from_u64(10);
    let sum = fe_add(&a, &b);
    assert!(fe_eq(&sum, &fe_from_u64(7)));
    // a negative value is a huge field element, not a small one
    assert!(!fe_eq(&a, &fe_from_u64(3)));
}

#[test]
fn half_range_check() {
    assert!(fe_lt_half(&fe_from_u64(0)));
    assert!(fe_lt_half(&fe_from_u64(u64::MAX)));
    // -1 stands for modulus - 1, which lies in the negative half
    assert!(!fe_lt_half(&fe_from_i64(-1)));
    // the boundary value (modulus - 1) / 2 itself is rejected, the value
    // just below it accepted
    let boundary_hex =
        "183227397098d014dc2822db40c0ac2e9419f4243cdcb848a1f0fac9f8000000".to_string();
    let boundary = fe_from_be_bytes(&hex::decode(&boundary_hex).unwrap());
    assert!(!fe_lt_half(&boundary));
    let below = fe_add(&boundary, &fe_from_i64(-1));
    assert!(fe_lt_half(&below));
}

#[test]
fn be_decoding_matches_u64() {
    let raw = vec![0x01u8, 0x02];
    let x = fe_from_be_bytes(&raw);
    assert!(fe_eq(&x, &fe_from_u64(0x0102)));
}

#[test]
fn hex_round_trip() {
    let bytes = vec![0x00u8, 0x7f, 0xff, 0x10];
    let s = hex_encode(&bytes);
    assert_eq!(s, "007fff10");
    let back = hex_decode(&s).expect("valid hex");
    assert_eq!(back, bytes);
}

#[test]
fn hex_decode_mixed_case_and_errors() {
    assert_eq!(hex_decode(&"aBcD".to_string()), Some(vec![0xab, 0xcd]));
    assert_eq!(hex_decode(&"abc".to_string()), None);
    assert_eq!(hex_decode(&"zz".to_string()), None);
}
