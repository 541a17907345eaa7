use starknet_sdk::types::FieldElement;

#[test]
fn test_addition() {
    let fe1 = FieldElement::one();
    let fe2 = FieldElement::one();
    let fe3 = &fe1 + &fe2;

    assert_eq!(fe3, FieldElement::two());
}

#[test]
fn test_multiplication() {
    let fe1 = FieldElement::one();
    let fe2 = FieldElement::two();
    let fe3 = &fe1 * &fe2;

    assert_eq!(fe3, FieldElement::two());
}

#[test]
fn test_subtraction() {
    let fe1 = FieldElement::two();
    let fe2 = FieldElement::one();
    let fe3 = &fe1 - &fe2;

    assert_eq!(fe3, FieldElement::one());
}

#[test]
fn test_modulo() {
    let fe1 = FieldElement::two();
    let fe2 = FieldElement::one();
    let fe3 = &fe1 % &fe2;

    assert_eq!(fe3, FieldElement::zero());
}

#[test]
fn test_field_division() {
    let fe1 = FieldElement::from(6u8);
    let fe2 = FieldElement::from(3u8);
    let fe3 = &fe1 / &fe2;

    assert_eq!(fe3, FieldElement::from(2u8));
}

#[test]
fn test_chain_operations() {
    let fe1 = FieldElement::two();
    let fe2 = FieldElement::one();
    let fe3 = &fe1 + &fe2; // result should be 3
    let fe4 = &fe3 * &fe1; // result should be 6
    let fe5 = &fe4 - &fe3; // result should be 3
    let fe6 = &fe5 % &fe1; // result should be 1

    assert_eq!(fe6, FieldElement::one());
}

#[test]
fn test_div_rem() {
    let fe1 = FieldElement::from(10u8);
    let fe2 = FieldElement::from(3u8);
    let (quotient, remainder) = fe1.div_rem(&fe2);

    assert_eq!(quotient, FieldElement::from(3u8));
    assert_eq!(remainder, FieldElement::from(1u8));
}
