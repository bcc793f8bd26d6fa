use bignum::biguint::BigUint;
use bignum::bigint::BigInt;
use bignum::bigint::IntSign;
use std::cmp::Ordering;

#[test]
fn from_u64_holds_one_limb() {
    let n = BigUint::from_u64(42);
    assert_eq!(n.limbs, vec![42]);
    assert!(!n.is_zero());
}

#[test]
fn zero_is_zero() {
    let z = BigUint::from_u64(0);
    assert!(z.is_zero());
    assert_eq!(z.limbs, vec![0]);
}

#[test]
fn add_carry_makes_new_limb() {
    // An all-ones word plus a one-word overflows into a second limb.
    let a = BigUint::from_u64(u64::MAX);
    let b = BigUint::from_u64(1);
    let sum = a.add(&b);
    assert_eq!(sum.limbs, vec![0, 1]);
}

#[test]
fn add_is_commutative() {
    let mut a = BigUint::from_u64(u64::MAX);
    a = a.mul(&BigUint::from_u64(u64::MAX));
    let b = BigUint::from_u64(123456789);
    let ab = a.add(&b);
    let ba = b.add(&a);
    assert_eq!(ab.limbs, ba.limbs);
}

#[test]
fn add_zero_is_identity() {
    let a = BigUint::from_u64(987654321).mul(&BigUint::from_u64(u64::MAX));
    let z = BigUint::from_u64(0);
    let r = a.add(&z);
    assert_eq!(r.limbs, a.limbs);
}

#[test]
fn mul_max_words_is_exact() {
    // The largest single-word square spans exactly two limbs.
    let a = BigUint::from_u64(u64::MAX);
    let product = a.mul(&a);
    assert_eq!(product.limbs, vec![1, 0xffff_ffff_ffff_fffe]);
}

#[test]
fn mul_one_is_identity() {
    let a = BigUint::from_u64(u64::MAX).mul(&BigUint::from_u64(3));
    let one = BigUint::from_u64(1);
    let r = a.mul(&one);
    assert_eq!(r.limbs, a.limbs);
}

#[test]
fn mul_zero_is_zero() {
    let a = BigUint::from_u64(u64::MAX).mul(&BigUint::from_u64(17));
    let z = BigUint::from_u64(0);
    let r = a.mul(&z);
    assert!(r.is_zero());
}

#[test]
fn mul_by_limb_carries_over() {
    let mut n = BigUint::from_u64(1u64 << 63);
    n.mul_by_limb(4);
    assert_eq!(n.limbs, vec![0, 2]);
}

#[test]
fn mul_by_limb_zero_clears() {
    let mut n = BigUint::from_u64(5).mul(&BigUint::from_u64(u64::MAX));
    n.mul_by_limb(0);
    assert!(n.is_zero());
}

#[test]
fn cmp_orders_by_value() {
    let small = BigUint::from_u64(7);
    let big = BigUint::from_u64(1).add(&BigUint::from_u64(u64::MAX));
    assert_eq!(small.cmp(&big), Ordering::Less);
    assert_eq!(big.cmp(&small), Ordering::Greater);
    assert_eq!(small.cmp(&BigUint::from_u64(7)), Ordering::Equal);
}

#[test]
fn cmp_treats_empty_and_zero_limb_alike() {
    // Shifting 1 right by one bit leaves a representation of zero that
    // must compare equal to the one-limb zero.
    let mut emptied = BigUint::from_u64(1);
    emptied.bit_shift_right(1);
    assert!(emptied.is_zero());
    assert_eq!(emptied.cmp(&BigUint::from_u64(0)), Ordering::Equal);
}

#[test]
fn sub_orders_and_signs() {
    let five = BigUint::from_u64(5);
    let seven = BigUint::from_u64(7);
    let neg = five.sub(&seven);
    assert!(neg.sign == IntSign::Neg);
    assert_eq!(neg.num.limbs, vec![2]);
    let pos = seven.sub(&five);
    assert!(pos.sign == IntSign::Pos);
    assert_eq!(pos.num.limbs, vec![2]);
}

#[test]
fn sub_equal_gives_positive_zero() {
    let a = BigUint::from_u64(12345);
    let d = a.sub(&BigUint::from_u64(12345));
    assert!(d.sign == IntSign::Pos);
    assert!(d.num.is_zero());
}

#[test]
fn sub_borrows_across_limbs() {
    // 2^64 - 1 stays in one limb after the borrow runs across.
    let big = BigUint::from_u64(u64::MAX).add(&BigUint::from_u64(1));
    let d = big.sub(&BigUint::from_u64(1));
    assert!(d.sign == IntSign::Pos);
    assert_eq!(d.num.limbs, vec![u64::MAX]);
}

#[test]
fn divmod_concrete() {
    let (q, r) = BigUint::from_u64(100).divmod(&BigUint::from_u64(7));
    assert_eq!(q.limbs, vec![14]);
    assert_eq!(r.limbs, vec![2]);
}

#[test]
fn divmod_reconstructs_dividend() {
    // divisor * quotient + remainder == dividend, remainder < divisor.
    let a = BigUint::from_u64(u64::MAX)
        .mul(&BigUint::from_u64(u64::MAX))
        .add(&BigUint::from_u64(987654321));
    let d = BigUint::from_u64(3_000_000_019);
    let (q, r) = a.divmod(&d);
    assert_eq!(r.cmp(&d), Ordering::Less);
    let back = d.mul(&q).add(&r);
    assert_eq!(back.cmp(&a), Ordering::Equal);
    assert_eq!(back.limbs, a.limbs);
}

#[test]
fn divmod_small_by_large() {
    let (q, r) = BigUint::from_u64(3).divmod(&BigUint::from_u64(10));
    assert!(q.is_zero());
    assert_eq!(r.limbs, vec![3]);
}

#[test]
fn divmod_top_bit_dividend() {
    // A dividend with its top word bit set exercises the full shift.
    let a = BigUint::from_u64(1u64 << 63);
    let (q, r) = a.divmod(&BigUint::from_u64(1));
    assert_eq!(q.limbs, vec![1u64 << 63]);
    assert!(r.is_zero());
}

#[test]
fn highest_u64_bit_indices() {
    assert_eq!(BigUint::highest_u64_bit(0), 0);
    assert_eq!(BigUint::highest_u64_bit(1), 0);
    assert_eq!(BigUint::highest_u64_bit(2), 1);
    assert_eq!(BigUint::highest_u64_bit(u64::MAX), 63);
    assert_eq!(BigUint::highest_u64_bit(1u64 << 63), 63);
}

#[test]
fn highest_bit_spans_limbs() {
    let mut n = BigUint::from_u64(1);
    n.bit_shift_left(100);
    assert_eq!(n.highest_bit(), 100);
}

#[test]
fn highest_bit_of_zero() {
    assert_eq!(BigUint::from_u64(0).highest_bit(), 0);
    assert_eq!(BigUint::from_u64(1).highest_bit(), 0);
}

#[test]
fn set_bit_grows_and_sets() {
    let mut n = BigUint::from_u64(0);
    n.set_bit(130);
    assert_eq!(n.limbs, vec![0, 0, 4]);
    n.set_bit(1);
    assert_eq!(n.limbs, vec![2, 0, 4]);
    // Setting a bit twice changes nothing.
    n.set_bit(130);
    assert_eq!(n.limbs, vec![2, 0, 4]);
}

#[test]
fn bit_shifts_round_trip() {
    let mut n = BigUint::from_u64(0xdead_beef);
    n.bit_shift_left(75);
    let mut back = n.clone();
    back.bit_shift_right(75);
    assert_eq!(back.limbs, vec![0xdead_beef]);
}

#[test]
fn bit_shift_left_crosses_limbs() {
    let mut n = BigUint::from_u64(1);
    n.bit_shift_left(64);
    assert_eq!(n.limbs, vec![0, 1]);
    let mut m = BigUint::from_u64(3);
    m.bit_shift_left(63);
    assert_eq!(m.limbs, vec![1u64 << 63, 1]);
}

#[test]
fn bit_shift_right_drops_emptied_word() {
    let mut n = BigUint::from_u64(1);
    n.bit_shift_left(64);
    n.bit_shift_right(1);
    assert_eq!(n.limbs, vec![1u64 << 63]);
}

#[test]
fn limb_shifts_move_whole_words() {
    let mut n = BigUint::from_u64(9);
    n.limb_shift_left(2);
    assert_eq!(n.limbs, vec![0, 0, 9]);
    n.limb_shift_right(1);
    assert_eq!(n.limbs, vec![0, 9]);
    n.limb_shift_right(5);
    assert!(n.is_zero());
}

#[test]
fn bigint_from_i64_signs() {
    let p = BigInt::from_i64(42);
    assert!(p.sign == IntSign::Pos);
    assert_eq!(p.num.limbs, vec![42]);
    let n = BigInt::from_i64(-42);
    assert!(n.sign == IntSign::Neg);
    assert_eq!(n.num.limbs, vec![42]);
    let min = BigInt::from_i64(i64::MIN);
    assert!(min.sign == IntSign::Neg);
    assert_eq!(min.num.limbs, vec![1u64 << 63]);
    let zero = BigInt::from_i64(0);
    assert!(zero.sign == IntSign::Pos);
}

#[test]
fn clones_are_independent() {
    let a = BigUint::from_u64(77);
    let mut b = a.clone();
    b.set_bit(64);
    assert_eq!(a.limbs, vec![77]);
    assert_eq!(b.limbs, vec![77, 1]);
    let i = BigInt::from_i64(-3);
    let j = i.clone();
    assert!(j.sign == IntSign::Neg);
    assert_eq!(j.num.limbs, vec![3]);
}
