use orirocks::float::CmpFloat;
use std::cmp::Ordering;

fn cf(x: f64) -> CmpFloat {
    CmpFloat::from_bits(x.to_bits())
}

#[test]
fn compare_nan_1() {
    assert_ne!(cf(4.5), cf(f64::NAN));
    assert_eq!(cf(4.5).cmp(&cf(f64::NAN)), Ordering::Greater);
}

#[test]
fn compare_nan_2() {
    assert_eq!(cf(f64::NAN), cf(f64::NAN));
    assert_eq!(cf(f64::NAN).cmp(&cf(f64::NAN)), Ordering::Equal);
}

#[test]
fn nans_with_other_payloads_are_equal() {
    let quiet = CmpFloat::from_bits(0x7FF8_0000_0000_0001);
    let negative = CmpFloat::from_bits(0xFFF0_0000_0000_0002);
    assert_eq!(quiet, negative);
    assert_eq!(quiet.cmp(&negative), Ordering::Equal);
}

#[test]
fn nan_sorts_below_every_number() {
    assert_eq!(cf(f64::NAN).cmp(&cf(f64::NEG_INFINITY)), Ordering::Less);
    assert_eq!(cf(f64::NAN).cmp(&cf(-1.0e300)), Ordering::Less);
}

#[test]
fn numbers_compare_as_numbers() {
    assert_eq!(cf(-2.0).cmp(&cf(1.0)), Ordering::Less);
    assert_eq!(cf(3.0).cmp(&cf(2.5)), Ordering::Greater);
    assert_eq!(cf(-3.0).cmp(&cf(-2.5)), Ordering::Less);
    assert_eq!(cf(0.0).cmp(&cf(-0.0)), Ordering::Equal);
    assert_eq!(cf(0.0), cf(-0.0));
    assert_eq!(cf(f64::INFINITY).cmp(&cf(f64::MAX)), Ordering::Greater);
}

#[test]
fn canonical_bits_collapse_nans() {
    assert_eq!(CmpFloat::from_bits(0x7FF0_0000_0000_0001).canonical_bits_exec(), 0x7FF8_0000_0000_0000);
    assert_eq!(cf(1.5).canonical_bits_exec(), 1.5f64.to_bits());
}
