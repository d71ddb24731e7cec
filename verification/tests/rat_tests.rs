use nume_rs::rat::Rat;

#[test]
fn new_reduces_by_gcd() {
    let a = Rat::new(2, 4).unwrap();
    let b = Rat::new(1, 2).unwrap();
    assert_eq!(a, b);
    assert_eq!(a.num, 1);
    assert_eq!(a.den, 2);
}

#[test]
fn new_normalizes_sign_into_numerator() {
    let a = Rat::new(1, -2).unwrap();
    assert_eq!(a.num, -1);
    assert_eq!(a.den, 2);
}

#[test]
fn add_exact() {
    let a = Rat::new(1, 3).unwrap();
    let b = Rat::new(1, 6).unwrap();
    let s = a.checked_add(b).unwrap();
    assert!(s.eq_value(Rat::new(1, 2).unwrap()));
}

#[test]
fn sub_mul_div_exact() {
    let a = Rat::new(3, 4).unwrap();
    let b = Rat::new(1, 4).unwrap();
    assert!(a.checked_sub(b).unwrap().eq_value(Rat::new(1, 2).unwrap()));
    assert!(a.checked_mul(b).unwrap().eq_value(Rat::new(3, 16).unwrap()));
    assert!(a.checked_div(b).unwrap().eq_value(Rat::from_int(3)));
}

#[test]
fn add_overflow_is_reported() {
    let a = Rat::from_int(i64::MAX);
    assert!(a.checked_add(a).is_none());
}

#[test]
fn eq_value_ignores_representation() {
    let a = Rat { num: 2, den: 4 };
    let b = Rat { num: 1, den: 2 };
    assert!(a.eq_value(b));
    assert_ne!(a, b);
}

#[test]
fn abs_comparisons() {
    let small = Rat::new(-1, 3).unwrap();
    let big = Rat::new(1, 2).unwrap();
    assert!(small.abs_lt(big));
    assert!(!big.abs_lt(small));
    assert!(big.abs_gt(Rat::new(1, 3).unwrap()));
    assert!(small.lt_abs(big));
    assert!(!small.lt_abs(Rat::new(-1, 1).unwrap()));
}

#[test]
fn zero_detection() {
    assert!(Rat::zero().is_zero());
    assert!(Rat::new(0, 17).unwrap().is_zero());
    assert!(!Rat::new(1, 17).unwrap().is_zero());
}
