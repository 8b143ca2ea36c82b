use linreg::rat::Rat;

#[test]
fn arithmetic_is_exact() {
    let a = Rat::new(1, 3);
    let b = Rat::new(1, 6);
    let sum = a.checked_add(b).unwrap();
    assert!(sum.checked_eq(Rat::new(1, 2)).unwrap());
    let diff = a.checked_sub(b).unwrap();
    assert!(diff.checked_eq(Rat::new(1, 6)).unwrap());
    let prod = a.checked_mul(b).unwrap();
    assert!(prod.checked_eq(Rat::new(1, 18)).unwrap());
    let quot = a.checked_div(b).unwrap();
    assert!(quot.checked_eq(Rat::from_int(2)).unwrap());
}

#[test]
fn division_by_negative_keeps_denominator_positive() {
    let q = Rat::new(3, 4).checked_div(Rat::new(-1, 2)).unwrap();
    assert!(q.checked_eq(Rat::new(-3, 2)).unwrap());
    assert!(q.den() > 0);
}

#[test]
fn comparisons_and_abs() {
    let neg = Rat::new(-7, 2);
    assert!(neg.checked_lt(Rat::zero()).unwrap());
    assert!(!Rat::zero().checked_lt(neg).unwrap());
    let a = neg.checked_abs().unwrap();
    assert!(a.checked_eq(Rat::new(7, 2)).unwrap());
    assert!(Rat::new(1, 3).checked_le(Rat::new(2, 6)).unwrap());
}

#[test]
fn zero_is_canonical() {
    let z = Rat::new(5, 7).checked_sub(Rat::new(5, 7)).unwrap();
    assert!(z.is_zero());
    assert_eq!(z.num(), 0);
    assert_eq!(z.den(), 1);
}

#[test]
fn trunc4_truncates_toward_zero() {
    assert_eq!(Rat::new(-12345, 10000).trunc4().unwrap(), -12345);
    assert_eq!(Rat::new(1, 3).trunc4().unwrap(), 3333);
    assert_eq!(Rat::new(-1, 3).trunc4().unwrap(), -3333);
    assert_eq!(Rat::from_int(2).trunc4().unwrap(), 20000);
}

#[test]
fn overflow_in_ops_returns_none() {
    let big = Rat::new(i128::MAX, 1);
    assert!(big.checked_add(big).is_none());
    assert!(big.checked_mul(big).is_none());
}
