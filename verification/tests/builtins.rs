use clac_lang::builtins::{compute, pow};
use clac_lang::types::ArithOp;

#[test]
fn power_wraps_and_rejects_bad_exponents() {
    assert_eq!(pow(2, 10), Some(1024));
    assert_eq!(pow(2, 64), Some(0));
    assert_eq!(pow(-3, 3), Some(-27));
    assert_eq!(pow(7, 0), Some(1));
    assert_eq!(pow(7, -1), None);
    assert_eq!(pow(1, 4294967296), None);
    assert_eq!(pow(1, 4294967295), Some(1));
}

#[test]
fn arithmetic_wraps_and_truncates() {
    assert_eq!(compute(ArithOp::Add, i64::MAX, 1), Some(i64::MIN));
    assert_eq!(compute(ArithOp::Sub, i64::MIN, 1), Some(i64::MAX));
    assert_eq!(compute(ArithOp::Mul, 250, 4), Some(1000));
    assert_eq!(compute(ArithOp::Mul, i64::MAX, 2), Some(-2));
    assert_eq!(compute(ArithOp::Div, -7, 2), Some(-3));
    assert_eq!(compute(ArithOp::Rem, -7, 2), Some(-1));
    assert_eq!(compute(ArithOp::Rem, 7, -2), Some(1));
    assert_eq!(compute(ArithOp::Lt, 1, 2), Some(1));
    assert_eq!(compute(ArithOp::Lt, 2, 2), Some(0));
    assert_eq!(compute(ArithOp::Pow, 3, -1), None);
}
