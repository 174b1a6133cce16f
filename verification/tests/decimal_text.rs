//! Tests for the decimal values and their display text: parsing is
//! fail-soft, formatting is canonical, and arithmetic is exact within range.

use dentaku::decimal::Dec;
use dentaku::text::parse_dec;
use dentaku::text::to_text;

#[test]
fn parse_and_format_canonicalize() {
    assert_eq!(to_text(parse_dec("12.340")), "12.34");
    assert_eq!(to_text(parse_dec("007")), "7");
    assert_eq!(to_text(parse_dec("0.500")), "0.5");
}

#[test]
fn parse_garbage_falls_back_to_zero() {
    assert_eq!(to_text(parse_dec("abc")), "0");
    assert_eq!(to_text(parse_dec("")), "0");
    assert_eq!(to_text(parse_dec("1.2.3")), "0");
    assert_eq!(to_text(parse_dec("--5")), "0");
    assert_eq!(to_text(parse_dec("5-2")), "0");
}

#[test]
fn parse_out_of_range_falls_back_to_zero() {
    // Twenty integer digits: one too many.
    assert_eq!(to_text(parse_dec("10000000000000000000")), "0");
    // Twenty decimal places: one too many.
    assert_eq!(to_text(parse_dec("0.00000000000000000001")), "0");
    // Nineteen of each still fit.
    assert_eq!(
        to_text(parse_dec("9999999999999999999")),
        "9999999999999999999"
    );
    assert_eq!(
        to_text(parse_dec("0.0000000000000000001")),
        "0.0000000000000000001"
    );
}

#[test]
fn parse_signs() {
    assert_eq!(to_text(parse_dec("-12.5")), "-12.5");
    assert_eq!(to_text(parse_dec("-0")), "0");
    assert_eq!(to_text(parse_dec("-0.00")), "0");
}

#[test]
fn parse_bare_point_and_minus() {
    assert_eq!(to_text(parse_dec("0.")), "0");
    assert_eq!(to_text(parse_dec("-")), "0");
    assert_eq!(to_text(parse_dec(".")), "0");
}

#[test]
fn arithmetic_exact_values() {
    let a = parse_dec("2.5");
    let b = parse_dec("0.125");
    assert_eq!(to_text(a.plus(b)), "2.625");
    assert_eq!(to_text(a.minus(b)), "2.375");
    assert_eq!(to_text(a.times(b)), "0.3125");
    assert_eq!(to_text(a.divided_by(b)), "20");
}

#[test]
fn division_by_zero_value_is_zero() {
    let a = parse_dec("1");
    let z = parse_dec("0");
    assert_eq!(to_text(a.divided_by(z)), "0");
}

#[test]
fn percent_divides_by_hundred() {
    assert_eq!(to_text(parse_dec("200").percent()), "2");
    assert_eq!(to_text(parse_dec("7").percent()), "0.07");
}

#[test]
fn negation_flips_sign_once() {
    assert_eq!(to_text(parse_dec("3.5").negated()), "-3.5");
    assert_eq!(to_text(parse_dec("-3.5").negated()), "3.5");
    assert_eq!(to_text(parse_dec("0").negated()), "0");
}

#[test]
fn results_out_of_range_fall_back_to_zero() {
    // One more than the largest mantissa.
    let big = parse_dec("9999999999999999999");
    let one = parse_dec("1");
    assert_eq!(to_text(big.plus(one)), "0");
    // A product too small for nineteen decimal places.
    let tiny = parse_dec("0.0000000001");
    assert_eq!(to_text(tiny.times(tiny)), "0");
}

#[test]
fn canonical_zero_form() {
    let z = parse_dec("0");
    assert_eq!(z, Dec { neg: false, mant: 0, scale: 0 });
}
