use rebalancer::Rational;

#[test]
fn construction_reduces_to_lowest_terms() {
    let r = Rational::new(70, 100).unwrap();
    assert_eq!(r.num, 7);
    assert_eq!(r.den, 10);
    assert_eq!(r, Rational::from_decimal(70, 2).unwrap());
    assert_eq!(r, Rational::from_decimal(7, 1).unwrap());

    let whole = Rational::new(1400, 1).unwrap();
    assert_eq!(whole, Rational::from_integer(1400));
}

#[test]
fn construction_rejects_bad_components() {
    assert_eq!(Rational::new(1, 0), None);
    assert_eq!(Rational::new(1, -5), None);
    assert_eq!(Rational::new(i64::MIN, 3), None);
    assert_eq!(Rational::from_decimal(1, 19), None);
    assert_eq!(Rational::from_decimal(i64::MIN, 2), None);
    assert!(Rational::from_decimal(1, 18).is_some());
}

#[test]
fn addition_is_exact() {
    // One tenth plus two tenths is exactly three tenths.
    let a = Rational::from_decimal(1, 1).unwrap();
    let b = Rational::from_decimal(2, 1).unwrap();
    let c = a.checked_add(b).unwrap();
    assert_eq!(c, Rational::from_decimal(3, 1).unwrap());
    assert_eq!(c.num, 3);
    assert_eq!(c.den, 10);
}

#[test]
fn subtraction_is_exact() {
    let a = Rational::from_decimal(3, 1).unwrap();
    let b = Rational::from_decimal(1, 1).unwrap();
    assert_eq!(a.checked_sub(b).unwrap(), Rational::from_decimal(2, 1).unwrap());
    let negative = b.checked_sub(a).unwrap();
    assert_eq!(negative, Rational::from_decimal(-2, 1).unwrap());
    assert!(negative.is_negative());
}

#[test]
fn multiplication_and_division_are_exact() {
    let seven_tenths = Rational::from_decimal(7, 1).unwrap();
    let two_thousand = Rational::from_integer(2000);
    assert_eq!(seven_tenths.checked_mul(two_thousand).unwrap(), Rational::from_integer(1400));

    let two_hundred = Rational::from_integer(200);
    let one_tenth = Rational::from_decimal(1, 1).unwrap();
    assert_eq!(two_hundred.checked_div(one_tenth).unwrap(), two_thousand);

    let third = Rational::from_integer(1).checked_div(Rational::from_integer(3)).unwrap();
    assert_eq!(third, Rational::new(1, 3).unwrap());
    assert_eq!(third.checked_mul(Rational::from_integer(3)).unwrap(), Rational::from_integer(1));

    let minus_half = Rational::from_integer(1).checked_div(Rational::from_integer(-2)).unwrap();
    assert_eq!(minus_half, Rational::new(-1, 2).unwrap());
}

#[test]
fn unrepresentable_results_are_reported_not_rounded() {
    let a = Rational::new(1, 10_000_000_000).unwrap();
    assert_eq!(a.checked_mul(a), None);

    let b = Rational::new(1, 9_999_999_999).unwrap();
    assert_eq!(a.checked_add(b), None);

    let big = Rational::from_integer(i64::MAX - 1);
    assert_eq!(big.checked_add(big), None);
}

#[test]
fn value_equality_ignores_representation() {
    let half = Rational { num: 2, den: 4 };
    assert!(half.eq_value(Rational::new(1, 2).unwrap()));
    assert!(half.eq_value(Rational::from_decimal(5, 1).unwrap()));
    assert!(!half.eq_value(Rational::from_decimal(4, 1).unwrap()));
    // The components themselves differ: `new` reduces, the literal did not.
    assert_ne!(half, Rational::new(1, 2).unwrap());
}

#[test]
fn order_and_signs() {
    let small = Rational::from_decimal(1, 1).unwrap();
    let large = Rational::from_decimal(2, 1).unwrap();
    assert!(small.lt(large));
    assert!(!large.lt(small));
    assert!(!small.lt(small));

    // 3/7 < 7/16 even though the components point the other way.
    let p = Rational::new(3, 7).unwrap();
    let q = Rational::new(7, 16).unwrap();
    assert!(p.lt(q));

    let zero = Rational::from_integer(0);
    assert!(zero.is_zero());
    assert!(!zero.is_positive());
    assert!(!zero.is_negative());
    assert!(Rational::from_integer(5).is_positive());
    assert!(Rational::from_integer(-5).is_negative());
}
