use std::str::FromStr;

use matching_engine::price::Price;
use rust_decimal::Decimal;

#[test]
fn from_parts_scales_to_atoms() {
    // 4.5 units == 4_500_000_000 atoms at nine decimal places.
    let p = Price::from_parts(45, 1).unwrap();
    assert_eq!(p.atoms, 4_500_000_000);
    assert_eq!(Price::from_parts(10000, 0).unwrap().atoms, 10_000_000_000_000);
}

#[test]
fn economically_identical_inputs_build_one_price() {
    // "4.50" and "4.5": same value, different mantissa/scale.
    assert_eq!(Price::from_parts(450, 2).unwrap(), Price::from_parts(45, 1).unwrap());
    // Trailing zeros beyond nine decimal places reduce away.
    assert_eq!(Price::from_parts(4_500_000_000_000, 12).unwrap(), Price::from_parts(45, 1).unwrap());
}

#[test]
fn from_parts_rejects_values_with_no_exact_form() {
    // More than nine significant decimal places.
    assert!(Price::from_parts(1, 10).is_none());
    assert!(Price::from_parts(12_345_678_911, 10).is_none());
    // Too large for a u64 count of atoms.
    assert!(Price::from_parts(u128::MAX, 0).is_none());
}

#[test]
fn from_decimal_agrees_with_from_parts() {
    let a = Decimal::from_str("4.50").unwrap();
    let b = Decimal::from_str("4.5").unwrap();
    assert_eq!(Price::from_decimal(&a), Price::from_decimal(&b));
    assert_eq!(Price::from_decimal(&a), Price::from_parts(45, 1));
    assert_eq!(
        Price::from_decimal(&Decimal::from_str("10000").unwrap()),
        Price::from_parts(10000, 0)
    );
}

#[test]
fn from_decimal_rejects_negative_prices() {
    let d = Decimal::from_str("-4.5").unwrap();
    assert!(Price::from_decimal(&d).is_none());
}
