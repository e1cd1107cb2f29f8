use bns_core::Did;
use std::str::FromStr;

#[test]
fn test_did() {
    let a = Did::from_str("0x11E807fcc88dD319270493fB2e822e388Fe36ab0").unwrap();
    let b = Did::from_str("0x999999cf1046e68e36E1aA2E0E07105eDDD1f08E").unwrap();
    let c = Did::from_str("0xc0ffee254729296a45a3885639AC7E10F9d54979").unwrap();
    assert!(c > b && b > a);
}

#[test]
fn test_finate_ring_neg() {
    let zero = Did::from_str("0x0000000000000000000000000000000000000000").unwrap();
    let a = Did::from_str("0x11E807fcc88dD319270493fB2e822e388Fe36ab0").unwrap();
    assert_eq!(-a + a, zero);
    assert_eq!(-(-a), a);
}

fn did_of(last: &[u8]) -> Did {
    let mut bytes = [0u8; 20];
    let n = last.len();
    bytes[20 - n..].copy_from_slice(last);
    Did::from_bytes(&bytes)
}

#[test]
fn ring_add_is_commutative_on_values() {
    let a = Did::from_str("0x11E807fcc88dD319270493fB2e822e388Fe36ab0").unwrap();
    let b = Did::from_str("0xc0ffee254729296a45a3885639AC7E10F9d54979").unwrap();
    assert_eq!(a + b, b + a);
}

#[test]
fn ring_add_wraps_at_the_modulus() {
    let max = Did::from_str("0xffffffffffffffffffffffffffffffffffffffff").unwrap();
    let one = did_of(&[1]);
    assert_eq!(max + one, Did::zero());
    let two = did_of(&[2]);
    assert_eq!(max + two, one);
}

#[test]
fn ring_add_carries_between_limbs() {
    let low = Did::from_str("0x000000000000000000000000ffffffffffffffff").unwrap();
    let one = did_of(&[1]);
    let expect = Did::from_str("0x0000000000000000000000010000000000000000").unwrap();
    assert_eq!(low + one, expect);
}

#[test]
fn ring_neg_of_zero_is_zero() {
    assert_eq!(-Did::zero(), Did::zero());
}

#[test]
fn ring_neg_of_one_is_max() {
    let max = Did::from_str("ffffffffffffffffffffffffffffffffffffffff").unwrap();
    assert_eq!(-did_of(&[1]), max);
}

#[test]
fn ring_sub_exact_values() {
    let a = did_of(&[5]);
    let b = did_of(&[7]);
    assert_eq!(b - a, did_of(&[2]));
    let max = Did::from_str("0xffffffffffffffffffffffffffffffffffffffff").unwrap();
    assert_eq!(a - b, max - did_of(&[1]));
}

#[test]
fn order_matches_integer_value() {
    let small = did_of(&[1, 0]);
    let big = did_of(&[1, 0, 0]);
    assert!(small < big);
    assert!(!(big < small));
    assert!(small <= small && !(small < small));
    let top = Did::from_str("0x8000000000000000000000000000000000000000").unwrap();
    assert!(top > big);
}

#[test]
fn from_hex_accepts_both_cases_and_no_prefix() {
    let a = Did::from_str("0x11E807fcc88dD319270493fB2e822e388Fe36ab0").unwrap();
    let b = Did::from_str("11e807fcc88dd319270493fb2e822e388fe36ab0").unwrap();
    assert_eq!(a, b);
}

#[test]
fn from_hex_rejects_bad_text() {
    assert_eq!(Did::from_hex("0x11"), Err(bns_core::Error::BadHex));
    assert_eq!(
        Did::from_hex("0x11E807fcc88dD319270493fB2e822e388Fe36aZ0"),
        Err(bns_core::Error::BadHex)
    );
    assert_eq!(
        Did::from_hex("0x11E807fcc88dD319270493fB2e822e388Fe36ab00"),
        Err(bns_core::Error::BadHex)
    );
    assert_eq!(Did::from_hex(""), Err(bns_core::Error::BadHex));
}

#[test]
fn from_reduced_integer_drops_high_bits() {
    let mut bytes = vec![0xabu8];
    bytes.extend_from_slice(&[0u8; 19]);
    bytes.push(9);
    assert_eq!(Did::from_reduced_integer(&bytes), did_of(&[9]));
    assert_eq!(Did::from_reduced_integer(&[1, 2]), did_of(&[1, 2]));
    assert_eq!(Did::from_reduced_integer(&[]), Did::zero());
}

#[test]
fn from_bytes_reads_big_endian() {
    let mut bytes = [0u8; 20];
    bytes[0] = 0x11;
    bytes[19] = 0xb0;
    let d = Did::from_bytes(&bytes);
    let e = Did::from_str("0x11000000000000000000000000000000000000b0").unwrap();
    assert_eq!(d, e);
}

#[test]
fn to_be_bytes_round_trips() {
    let a = Did::from_str("0x11E807fcc88dD319270493fB2e822e388Fe36ab0").unwrap();
    let bytes = a.to_be_bytes();
    assert_eq!(bytes.len(), 20);
    assert_eq!(bytes[0], 0x11);
    assert_eq!(bytes[1], 0xe8);
    assert_eq!(bytes[19], 0xb0);
    assert_eq!(Did::from_reduced_integer(&bytes), a);
    assert_eq!(Did::zero().to_be_bytes(), vec![0u8; 20]);
}

#[test]
fn to_hex_is_lowercase_with_prefix() {
    let a = Did::from_str("0x11E807fcc88dD319270493fB2e822e388Fe36ab0").unwrap();
    let text = String::from_utf8(a.to_hex()).unwrap();
    assert_eq!(text, "0x11e807fcc88dd319270493fb2e822e388fe36ab0");
    assert_eq!(Did::from_str(&text).unwrap(), a);
}
