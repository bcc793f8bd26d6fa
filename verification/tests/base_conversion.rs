use bignum::biguint::BigUint;
use bignum::bigint::BigInt;
use std::cmp::Ordering;

const FACT_100: &str = "933262154439441526816992388562667004907159682643816214685929\
638952175999932299156089414639761565182862536979208272237582\
51185210916864000000000000000000000000";

#[test]
fn digit_limb_base_ten() {
    let (step, c) = BigUint::digit_limb_base(10);
    assert_eq!(step, 10_000_000_000_000_000_000);
    assert_eq!(c, 19);
}

#[test]
fn digit_limb_base_two_and_max() {
    let (step2, c2) = BigUint::digit_limb_base(2);
    assert_eq!(step2, 1u64 << 63);
    assert_eq!(c2, 63);
    let (step256, c256) = BigUint::digit_limb_base(256);
    assert_eq!(step256, 1u64 << 56);
    assert_eq!(c256, 7);
}

#[test]
fn digits_of_255_in_hex() {
    let ds = BigUint::from_u64(255).digits(16).unwrap();
    assert_eq!(ds, vec![15, 15]);
}

#[test]
fn digits_of_zero() {
    let ds = BigUint::from_u64(0).digits(10).unwrap();
    assert_eq!(ds, vec![0]);
}

#[test]
fn digits_base_256_walks_bytes() {
    let n = BigUint::from_u64(0x01_02_03);
    let ds = n.digits(256).unwrap();
    assert_eq!(ds, vec![3, 2, 1]);
}

#[test]
fn digits_rejects_bad_base() {
    assert!(BigUint::from_u64(5).digits(1).is_err());
    assert!(BigUint::from_u64(5).digits(257).is_err());
}

#[test]
fn to_base_string_255_hex() {
    let s = BigUint::from_u64(255).to_base_string(16).unwrap();
    assert_eq!(s, "FF");
}

#[test]
fn to_base_string_decimal() {
    let s = BigUint::from_u64(1234567890).to_base_string(10).unwrap();
    assert_eq!(s, "1234567890");
}

#[test]
fn to_base_string_binary_and_base64() {
    assert_eq!(BigUint::from_u64(10).to_base_string(2).unwrap(), "1010");
    // 63 is the last alphabet symbol, 62 the one before it.
    assert_eq!(BigUint::from_u64(63).to_base_string(64).unwrap(), "=");
    assert_eq!(BigUint::from_u64(62).to_base_string(64).unwrap(), "+");
    assert_eq!(BigUint::from_u64(64).to_base_string(64).unwrap(), "10");
}

#[test]
fn to_base_string_rejects_bad_base() {
    assert!(BigUint::from_u64(5).to_base_string(65).is_err());
    assert!(BigUint::from_u64(5).to_base_string(0).is_err());
}

#[test]
fn bigint_to_base_string_signs() {
    let n = BigInt::from_i64(-255);
    assert_eq!(n.to_base_string(16).unwrap(), "-FF");
    let p = BigInt::from_i64(255);
    assert_eq!(p.to_base_string(16).unwrap(), "FF");
    let z = BigInt::from_i64(0);
    assert_eq!(z.to_base_string(10).unwrap(), "0");
    assert_eq!(BigInt::from_i64(i64::MIN).to_base_string(10).unwrap(), "-9223372036854775808");
}

#[test]
fn from_base_string_parses() {
    let v = BigUint::from_base_string("FF", 16).unwrap();
    assert_eq!(v.limbs, vec![255]);
    let w = BigUint::from_base_string("1234567890", 10).unwrap();
    assert_eq!(w.limbs, vec![1234567890]);
    let x = BigUint::from_base_string("0", 10).unwrap();
    assert!(x.is_zero());
}

#[test]
fn from_base_string_full_alphabet() {
    // "+=" in base 64 is 62 * 64 + 63.
    let v = BigUint::from_base_string("+=", 64).unwrap();
    assert_eq!(v.limbs, vec![62 * 64 + 63]);
    let w = BigUint::from_base_string("zZ", 64).unwrap();
    assert_eq!(w.limbs, vec![61 * 64 + 35]);
}

#[test]
fn from_base_string_rejects_bad_input() {
    assert!(BigUint::from_base_string("12", 1).is_err());
    assert!(BigUint::from_base_string("12", 65).is_err());
    assert!(BigUint::from_base_string("", 10).is_err());
    assert!(BigUint::from_base_string("1a", 10).is_err());
    assert!(BigUint::from_base_string("19", 8).is_err());
    assert!(BigUint::from_base_string("über", 10).is_err());
}

#[test]
fn base_string_round_trip() {
    let big = BigUint::from_u64(u64::MAX)
        .mul(&BigUint::from_u64(u64::MAX))
        .add(&BigUint::from_u64(40));
    for base in [2u64, 8, 10, 16, 36, 62, 64] {
        let text = big.to_base_string(base).unwrap();
        let back = BigUint::from_base_string(&text, base).unwrap();
        assert_eq!(back.cmp(&big), Ordering::Equal);
        assert_eq!(back.limbs, big.limbs);
    }
}

#[test]
fn factorial_100_exact_decimal() {
    // Repeated multiplication by 1..=100 yields the exact 158-digit
    // decimal expansion of 100!.
    let mut n = BigUint::from_u64(1);
    for i in 1..=100u64 {
        n = n.mul(&BigUint::from_u64(i));
    }
    let s = n.to_base_string(10).unwrap();
    assert_eq!(s.len(), 158);
    assert_eq!(s, FACT_100);
}

#[test]
fn fibonacci_first_thirty_terms() {
    let expected = [
        "1", "1", "2", "3", "5", "8", "13", "21", "34", "55", "89", "144", "233", "377", "610",
        "987", "1597", "2584", "4181", "6765", "10946", "17711", "28657", "46368", "75025",
        "121393", "196418", "317811", "514229", "832040",
    ];
    let mut a = BigUint::from_u64(1);
    let mut b = BigUint::from_u64(1);
    for want in expected {
        assert_eq!(a.to_base_string(10).unwrap(), want);
        let next = a.add(&b);
        a = b;
        b = next;
    }
}
