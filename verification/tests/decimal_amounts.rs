use foothold::amount::{Amount, Comparison};

fn d(mantissa: i128, scale: u32) -> Amount {
    Amount::new(mantissa, scale).unwrap()
}

#[test]
fn amount_new_refuses_what_a_decimal_cannot_hold() {
    assert!(Amount::new(79228162514264337593543950335, 28).is_some());
    assert!(Amount::new(79228162514264337593543950336, 0).is_none());
    assert!(Amount::new(-79228162514264337593543950336, 0).is_none());
    assert!(Amount::new(1, 29).is_none());
}

#[test]
fn plus_aligns_scales() {
    let r = d(25, 1).plus(d(25, 2)); // 2.5 + 0.25
    assert_eq!(r.mantissa(), 275);
    assert_eq!(r.scale(), 2);
}

#[test]
fn minus_aligns_scales() {
    let r = d(10, 0).minus(d(25, 1)); // 10 - 2.5
    assert_eq!(r.mantissa(), 75);
    assert_eq!(r.scale(), 1);
}

#[test]
fn minus_of_zero_negates() {
    let r = Amount::zero().minus(d(25, 1));
    assert_eq!(r.mantissa(), -25);
    assert_eq!(r.scale(), 1);
}

#[test]
fn times_adds_scales() {
    let r = d(15, 1).times(d(2, 0)); // 1.5 * 2
    assert_eq!(r.mantissa(), 30);
    assert_eq!(r.scale(), 1);
    assert_eq!(r, Amount::from_int(3));
}

#[test]
fn times_by_zero_is_plain_zero() {
    let r = d(15, 1).times(d(0, 3));
    assert_eq!(r.mantissa(), 0);
    assert_eq!(r.scale(), 0);
}

#[test]
fn plus_saturates_at_the_largest_decimal() {
    let max = d(79228162514264337593543950335, 0);
    let r = max.plus(Amount::from_int(1));
    assert_eq!(r, max);
}

#[test]
fn compare_is_by_value() {
    assert_eq!(d(15, 1).compare(&d(150, 2)), Comparison::Equal);
    assert_eq!(d(105, 2).compare(&d(15, 1)), Comparison::Less);
    assert_eq!(d(-1, 0).compare(&d(-15, 1)), Comparison::Greater);
    assert!(d(105, 2).lt(&d(15, 1)));
    assert!(d(15, 1).le(&d(150, 2)));
    assert!(!Amount::zero().is_positive());
    assert!(d(1, 28).is_positive());
}

#[test]
fn equality_is_by_value() {
    assert_eq!(d(100, 0), d(10000, 2));
    assert_ne!(d(100, 0), d(10001, 2));
}

#[test]
fn min_prefers_the_first_on_ties() {
    let a = d(5, 0);
    let b = d(50, 1);
    let m = a.min(b);
    assert_eq!(m.scale(), 0);
    let m2 = b.min(a);
    assert_eq!(m2.scale(), 1);
    assert_eq!(d(7, 0).min(d(3, 0)), d(3, 0));
}
