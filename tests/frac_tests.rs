use score_xml::frac::{Frac, Sign};

#[test]
fn frac_test_1() {
    let a = Frac::new(30, 4);
    let b = Frac::new(2, 5);
    println!("{:#?}", &a);
    println!("{:#?}", a.clone().sub(b));
    println!("{:#?}", a.clone().add(Frac::from(1u32)));
    println!("{:#?}", a.add(Frac::from(1u32)) == Frac::new(17, 2));
    assert!(a.add(Frac::from(1u32)) == Frac::new(17, 2));
}

#[test]
fn half_equals_two_quarters() {
    assert!(Frac::new(1, 2) == Frac::new(2, 4));
    assert_eq!(Frac::new(2, 4).numer(), Some(1));
    assert_eq!(Frac::new(2, 4).denom(), Some(2));
}

#[test]
fn thirty_quarters_minus_two_fifths() {
    let r = Frac::new(30, 4).sub(Frac::new(2, 5));
    assert!(r == Frac::new(71, 10));
    assert_eq!(r.numer(), Some(71));
    assert_eq!(r.denom(), Some(10));
    assert_eq!(r.sign(), Some(Sign::Plus));
}

#[test]
fn sum_is_reduced() {
    let r = Frac::new(1, 6).add(Frac::new(1, 3));
    assert_eq!(r.numer(), Some(1));
    assert_eq!(r.denom(), Some(2));
}

#[test]
fn negative_difference() {
    let r = Frac::new(1, 3).sub(Frac::new(1, 2));
    assert_eq!(r.sign(), Some(Sign::Minus));
    assert_eq!(r.numer(), Some(1));
    assert_eq!(r.denom(), Some(6));
    let z = r.add(Frac::new(1, 6));
    assert_eq!(z.numer(), Some(0));
    assert_eq!(z.denom(), Some(1));
    assert_eq!(z.sign(), Some(Sign::Plus));
}

#[test]
fn ordering_by_cross_multiplication() {
    assert!(Frac::new(1, 3) < Frac::new(1, 2));
    assert!(Frac::new(2, 4) <= Frac::new(1, 2));
    assert!(Frac::new(0, 1).sub(Frac::new(5, 1)) < Frac::new(0, 1));
    assert!(Frac::neg_infinity() < Frac::new(0, 1));
    assert!(Frac::new(1000, 1) < Frac::infinity());
    assert!(Frac::infinity() == Frac::infinity());
    assert!(Frac::infinity() != Frac::neg_infinity());
}

#[test]
fn infinity_absorbs_finite() {
    let r = Frac::infinity().add(Frac::new(3, 4));
    assert!(r == Frac::infinity());
    assert_eq!(r.numer(), None);
    assert_eq!(Frac::neg_infinity().sign(), Some(Sign::Minus));
}
