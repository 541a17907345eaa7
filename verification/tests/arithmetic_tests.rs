use starknet_sdk::bignum::U256;
use starknet_sdk::modular::{add_mod, div_rem, invert_mod, mul_mod, reduce, sub_mod};
use starknet_sdk::types::FieldElement;

const PRIME: &str = "0800000000000011000000000000000000000000000000000000000000000001";
const A: &str = "0123456789abcdeffedcba98765432100f1e2d3c4b5a69788796a5b4c3d2e1f0";
const B: &str = "07fffffffffffffffffffffffffffffffffffffffffffffffffffffffffffff1";
const M: &str = "000000000000000000000000deadbeef000000000000000000000000cafebabe";
const ALL_ONES: &str = "ffffffffffffffffffffffffffffffffffffffffffffffffffffffffffffffff";

fn nibble(c: u8) -> u8 {
    match c {
        b'0'..=b'9' => c - b'0',
        b'a'..=b'f' => c - b'a' + 10,
        _ => panic!("not a hex digit"),
    }
}

fn bytes(hex: &str) -> [u8; 32] {
    let raw = hex.as_bytes();
    assert_eq!(raw.len(), 64);
    let mut out = [0u8; 32];
    for i in 0..32 {
        out[i] = nibble(raw[2 * i]) * 16 + nibble(raw[2 * i + 1]);
    }
    out
}

fn fe(hex: &str) -> FieldElement {
    FieldElement::from_bytes(&bytes(hex)).unwrap()
}

fn limbs(hex: &str) -> U256 {
    U256::from_be_bytes(&bytes(hex))
}

#[test]
fn sum_wraps_at_the_modulus() {
    let top = fe("0800000000000011000000000000000000000000000000000000000000000000");
    assert_eq!(&top + &FieldElement::two(), FieldElement::one());
    assert_eq!(&fe(A) + &fe(B), fe("0123456789abcddefedcba98765432100f1e2d3c4b5a69788796a5b4c3d2e1e0"));
}

#[test]
fn sum_reduces_operands_that_are_not_reduced() {
    assert_eq!(&fe(ALL_ONES) + &FieldElement::zero(), fe("07fffffffffffdf0ffffffffffffffffffffffffffffffffffffffffffffffe0"));
    assert_eq!(&fe(ALL_ONES) + &fe(ALL_ONES), fe("07fffffffffffbd0ffffffffffffffffffffffffffffffffffffffffffffffbf"));
    assert_eq!(&fe(PRIME) + &fe(PRIME), FieldElement::zero());
}

#[test]
fn difference_is_never_negative() {
    assert_eq!(&FieldElement::one() - &FieldElement::two(), fe("0800000000000011000000000000000000000000000000000000000000000000"));
    assert_eq!(&fe(A) - &fe(B), fe("0123456789abce00fedcba98765432100f1e2d3c4b5a69788796a5b4c3d2e200"));
    assert_eq!(&fe(B) - &fe(A), fe("06dcba98765432100123456789abcdeff0e1d2c3b4a5968778695a4b3c2d1e01"));
    assert_eq!(&fe(ALL_ONES) - &fe(PRIME), fe("07fffffffffffdf0ffffffffffffffffffffffffffffffffffffffffffffffe0"));
}

#[test]
fn product_is_reduced() {
    let top = fe("0800000000000011000000000000000000000000000000000000000000000000");
    assert_eq!(&top * &top, FieldElement::one());
    assert_eq!(&fe(A) * &fe(B), fe("071a4d7f1d2243d67d27d27d27d277d95dc2268aef5efaae6821db95371b4c84"));
    assert_eq!(&fe(ALL_ONES) * &fe(ALL_ONES), fe("07ffd4ab5e008c50ffffffffff6f800000000001330ffffffffffd737e000442"));
    assert_eq!(&fe(A) * &FieldElement::zero(), FieldElement::zero());
}

#[test]
fn remainder_goes_by_its_right_operand() {
    assert_eq!(&fe(A) % &fe(M), fe("000000000000000000000000dc351ac10e14a7080e0b88506fedeee5d6f80a72"));
    assert_eq!(&fe(ALL_ONES) % &FieldElement::from(10u8), FieldElement::from(5u8));
    assert_eq!(&fe(ALL_ONES) % &fe(ALL_ONES), FieldElement::zero());
    assert_eq!(&fe(M) % &fe(A), fe(M));
    assert_eq!(&fe(ALL_ONES) % &fe(PRIME), fe("07fffffffffffdf0ffffffffffffffffffffffffffffffffffffffffffffffe0"));
}

#[test]
fn remainder_by_zero_is_zero() {
    assert_eq!(&fe(A) % &FieldElement::zero(), FieldElement::zero());
    let (q, r) = fe(A).div_rem(&FieldElement::zero());
    assert_eq!(q, FieldElement::zero());
    assert_eq!(r, FieldElement::zero());
}

#[test]
fn checked_rem_refuses_zero() {
    assert_eq!(fe(A).checked_rem(&FieldElement::zero()), None);
    assert_eq!(fe(A).checked_rem(&fe(M)), Some(fe("000000000000000000000000dc351ac10e14a7080e0b88506fedeee5d6f80a72")));
}

#[test]
fn div_rem_of_large_values() {
    let (q, r) = fe(A).div_rem(&fe(M));
    assert_eq!(q, fe("0000000000000000000000000000000000000000014edb42717dce0520562da1"));
    assert_eq!(r, fe("000000000000000000000000dc351ac10e14a7080e0b88506fedeee5d6f80a72"));
    let (q, r) = fe(ALL_ONES).div_rem(&FieldElement::one());
    assert_eq!(q, fe(ALL_ONES));
    assert_eq!(r, FieldElement::zero());
    let (q, r) = fe(M).div_rem(&fe(ALL_ONES));
    assert_eq!(q, FieldElement::zero());
    assert_eq!(r, fe(M));
}

#[test]
fn inverse_of_known_values() {
    let three = FieldElement::from(3u8);
    assert_eq!(three.inverse(), fe("02aaaaaaaaaaaab0555555555555555555555555555555555555555555555556"));
    assert_eq!(&three * &three.inverse(), FieldElement::one());
    assert_eq!(fe(A).inverse(), fe("00c2c6e5553fd3aadfc675a24b351161190a8b2ad8c934018d0be0ca2bc23aab"));
    assert_eq!(FieldElement::one().inverse(), FieldElement::one());
}

#[test]
fn inverse_of_a_multiple_of_the_modulus_is_zero() {
    assert_eq!(FieldElement::zero().inverse(), FieldElement::zero());
    assert_eq!(fe(PRIME).inverse(), FieldElement::zero());
    assert_eq!(&fe(A) / &FieldElement::zero(), FieldElement::zero());
}

#[test]
fn checked_inverse_tells_whether_there_is_one() {
    assert_eq!(FieldElement::zero().checked_inverse(), None);
    assert_eq!(fe(PRIME).checked_inverse(), None);
    assert_eq!(FieldElement::from(3u8).checked_inverse(), Some(fe("02aaaaaaaaaaaab0555555555555555555555555555555555555555555555556")));
}

#[test]
fn quotient_is_the_product_with_the_inverse() {
    assert_eq!(&fe(A) / &fe(B), fe("027f170bf65767d054f343ed303685d5e91c0266777d13200fb7cb80a694b600"));
    assert_eq!(&FieldElement::one() / &FieldElement::two(), fe("0400000000000008800000000000000000000000000000000000000000000001"));
}

#[test]
fn adding_then_subtracting_gives_the_operand_back() {
    let a = fe(A);
    let b = fe(B);
    assert_eq!(&(&a + &b) - &b, a);
    let wide = fe(ALL_ONES);
    assert_eq!(&(&wide + &b) - &b, fe("07fffffffffffdf0ffffffffffffffffffffffffffffffffffffffffffffffe0"));
}

#[test]
fn dividing_then_multiplying_gives_the_dividend_back() {
    let a = fe(A);
    let b = fe(B);
    assert_eq!(&(&a / &b) * &b, a);
    let six = FieldElement::from(6u8);
    let three = FieldElement::from(3u8);
    assert_eq!(&(&six / &three) * &three, six);
}

#[test]
fn a_sum_is_its_own_remainder_by_the_modulus() {
    let s = &fe(A) + &fe(B);
    assert_eq!(&s % &fe(PRIME), s);
}

#[test]
fn named_methods_agree_with_the_operators() {
    let a = fe(A);
    let b = fe(B);
    assert_eq!(a.sum(&b), &a + &b);
    assert_eq!(a.difference(&b), &a - &b);
    assert_eq!(a.product(&b), &a * &b);
    assert_eq!(a.remainder(&b), &a % &b);
    assert_eq!(a.quotient(&b), &a / &b);
}

#[test]
fn limbs_and_bytes_round_trip() {
    let x = limbs(A);
    assert_eq!(x.hi, 0x0123456789abcdef_fedcba9876543210u128);
    assert_eq!(x.lo, 0x0f1e2d3c4b5a6978_8796a5b4c3d2e1f0u128);
    assert_eq!(x.to_be_bytes(), bytes(A));
    let one = U256 { hi: 0, lo: 1 };
    let mut expected = [0u8; 32];
    expected[31] = 1;
    assert_eq!(one.to_be_bytes(), expected);
}

#[test]
fn limb_arithmetic_carries_and_borrows() {
    let x = U256 { hi: 1, lo: 0 };
    let y = U256 { hi: 0, lo: 1 };
    let d = x.minus(&y);
    assert_eq!((d.hi, d.lo), (0, u128::MAX));
    let s = d.plus(&y);
    assert_eq!((s.hi, s.lo), (1, 0));
    assert!(x.ge(&y));
    assert!(!y.ge(&x));
    assert!(x.ge(&x));
    assert!(x.same(&x));
    assert!(!x.same(&y));
    assert!(U256::zero().is_zero());
    assert!(!U256::one().is_zero());
    let (top, rest) = U256 { hi: 1u128 << 127, lo: (1u128 << 127) + 3 }.split_top();
    assert!(top);
    assert_eq!((rest.hi, rest.lo), (1, 6));
    let (top, rest) = U256 { hi: 5, lo: 7 }.split_top();
    assert!(!top);
    assert_eq!((rest.hi, rest.lo), (10, 14));
}

#[test]
fn modular_functions_on_limbs() {
    let p = limbs(PRIME);
    let a = limbs(A);
    let b = limbs(B);
    let s = add_mod(&a, &b, &p);
    assert_eq!(s.to_be_bytes(), bytes("0123456789abcddefedcba98765432100f1e2d3c4b5a69788796a5b4c3d2e1e0"));
    let d = sub_mod(&a, &b, &p);
    assert_eq!(d.to_be_bytes(), bytes("0123456789abce00fedcba98765432100f1e2d3c4b5a69788796a5b4c3d2e200"));
    let wide = limbs(ALL_ONES);
    let s = add_mod(&wide, &wide, &limbs(M));
    assert_eq!(s.to_be_bytes(), bytes("00000000000000000000000063f7f4602d42182c3b5837676ad241d3154df702"));
    let d = sub_mod(&limbs(M), &wide, &p);
    assert_eq!(d.to_be_bytes(), bytes("000000000000022000000000deadbeef000000000000000000000000cafebadf"));
    let i = invert_mod(&a, &p).unwrap();
    assert_eq!(i.to_be_bytes(), bytes("00c2c6e5553fd3aadfc675a24b351161190a8b2ad8c934018d0be0ca2bc23aab"));
    let m = mul_mod(&a, &b, &limbs(M));
    assert_eq!(m.to_be_bytes(), bytes("000000000000000000000000806fe4242602200fcb33f4c92c991604636fb754"));
    let r = reduce(&limbs(ALL_ONES), &limbs(M));
    assert_eq!(r.to_be_bytes(), bytes("00000000000000000000000031fbfa3016a10c161dac1bb3b56920e98aa6fb81"));
    let (q, r) = div_rem(&limbs(ALL_ONES), &limbs(M));
    assert_eq!(q.to_be_bytes(), bytes("0000000000000000000000000000000000000001264eb565bf921294f6f82721"));
    assert_eq!(r.to_be_bytes(), bytes("00000000000000000000000031fbfa3016a10c161dac1bb3b56920e98aa6fb81"));
}

#[test]
fn invert_mod_needs_a_coprime_operand() {
    let six = U256 { hi: 0, lo: 6 };
    let five = U256 { hi: 0, lo: 5 };
    let four = U256 { hi: 0, lo: 4 };
    let r = invert_mod(&five, &six).unwrap();
    assert_eq!((r.hi, r.lo), (0, 5));
    assert!(invert_mod(&four, &six).is_none());
    assert!(invert_mod(&six, &six).is_none());
    assert!(invert_mod(&U256::zero(), &six).is_none());
    let r = invert_mod(&U256::one(), &six).unwrap();
    assert_eq!((r.hi, r.lo), (0, 1));
    let wide = limbs(ALL_ONES);
    let r = invert_mod(&limbs(A), &wide);
    assert_eq!(r.map(|x| x.to_be_bytes()), None);
}
