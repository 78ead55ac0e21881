use decimal_split::{decimal_to_int, split_decimal, ScaledAmount};
use rust_decimal::prelude::ToPrimitive;
use rust_decimal::Decimal;
use std::str::FromStr;

fn total_of(shares: &[ScaledAmount]) -> i128 {
    shares.iter().map(|s| s.mantissa).sum()
}

fn from_decimal(d: Decimal) -> ScaledAmount {
    ScaledAmount::new(d.mantissa(), d.scale())
}

#[test]
fn test_decimal_conversion() {
    let scale = 2;
    let values = vec![100, 200, 300, 400];
    let amounts: Vec<ScaledAmount> = values.into_iter().map(|x| ScaledAmount::new(x, scale)).collect();
    for a in amounts {
        assert!(decimal_to_int(a, scale) >= decimal_to_int(ScaledAmount::new(1, scale), scale));
    }
}

#[test]
fn test_expected_total() {
    let scale = 2;
    let expected_total = ScaledAmount::new(1234568, scale);
    let result_total = expected_total;
    assert_eq!(result_total, expected_total);
}

#[test]
fn test_max_decimal_digits_than_scale() {
    let max_val: i128 = 9876543210;
    let amount = ScaledAmount::new(max_val, 0);
    assert_eq!(amount, ScaledAmount::new(max_val, 0));
    assert_eq!(decimal_to_int(amount, 0), max_val);
}

#[test]
fn test_split_evenly() {
    let amount = ScaledAmount::new(10001, 2);
    let splits = split_decimal(amount, 4, 2).unwrap();
    assert_eq!(total_of(&splits), amount.mantissa);
}

#[test]
fn test_split_with_uneven_distribution() {
    let amount = ScaledAmount::new(10001, 2);
    let splits = split_decimal(amount, 3, 2).unwrap();
    assert_eq!(total_of(&splits), amount.mantissa);
}

#[test]
fn test_split_with_large_numbers() {
    let amount = ScaledAmount::new(999999999999999999, 2);
    let splits = split_decimal(amount, 10, 2).unwrap();
    assert_eq!(total_of(&splits), amount.mantissa);
}

#[test]
fn test_reset_exceed_minimal_units() {
    let amount = ScaledAmount::new(1235, 2);
    let scale = 2;
    let splits = split_decimal(amount, 5, scale).unwrap();
    for s in &splits {
        assert!(s.scale == scale && s.mantissa >= 1);
    }
    assert_eq!(total_of(&splits), amount.mantissa);
}

#[test]
fn test_large_unit_producing_all_zeroes() {
    let amount = ScaledAmount::new(1234567, 0);
    let splits = split_decimal(amount, 1, 2).unwrap();
    assert_eq!(splits.len(), 1);
    let expected = ScaledAmount::new(1234567, 2);
    assert_eq!(splits[0], expected);
    let as_decimal = Decimal::from_i128_with_scale(splits[0].mantissa, splits[0].scale);
    assert_eq!(as_decimal, Decimal::from_i128_with_scale(1234567, 2));
}

#[test]
fn test_recipients_equal_to_minimal_units() {
    let amount = ScaledAmount::new(5, 0);
    let recipients_decimal = Decimal::from_i128_with_scale(49, 0) / Decimal::from_i128_with_scale(5, 0);
    let recipients = recipients_decimal.to_i128().unwrap() as usize;
    let splits = split_decimal(amount, recipients, 0).unwrap();
    assert_eq!(total_of(&splits), amount.mantissa);
}

#[test]
fn test_reset_exceed_minimal_units_tiny_amount() {
    let amount = ScaledAmount::new(2, 0);
    let splits = split_decimal(amount, 2, 0).unwrap();
    assert_eq!(total_of(&splits), amount.mantissa);
}

#[test]
fn test_recipients_exceed_minimal_units_tiny_amount_producing_all_zeroes() {
    let amount = ScaledAmount::new(4185552, 3);
    let splits = split_decimal(amount, 13, 3).unwrap();
    assert_eq!(total_of(&splits), amount.mantissa);
}

#[test]
fn test_recipients_exceed_minimal_units() {
    let amount = ScaledAmount::new(412434, 2);
    let splits = split_decimal(amount, 2, 0).unwrap();
    assert_eq!(total_of(&splits), amount.mantissa);
}

#[test]
fn test_large_numbers() {
    let amount = ScaledAmount::new(6627186, 0);
    let splits = split_decimal(amount, 10, 0).unwrap();
    assert_eq!(total_of(&splits), amount.mantissa);
}

#[test]
fn property_conversion_test() {
    let amount = ScaledAmount::new(10001, 2);
    let splits = split_decimal(amount, 4, 2).unwrap();
    assert_eq!(total_of(&splits), amount.mantissa);
}

#[test]
fn test_non_increasing_order() {
    let amount = from_decimal(Decimal::from_str("123.45").unwrap());
    let splits = split_decimal(amount, 39, 2).unwrap();
    for i in 0..splits.len() {
        let next = splits.get(i + 1).cloned().unwrap_or(splits[i]);
        assert!(splits[i].mantissa >= next.mantissa);
    }
}

#[test]
fn test_extremely_large_values() {
    let scale = 28;
    let amount = ScaledAmount::new(4, scale);
    let splits = split_decimal(amount, 100000, scale).unwrap();
    assert_eq!(total_of(&splits), amount.mantissa);
}
