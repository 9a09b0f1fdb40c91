use number_puzzle::decimal::{parse_decimal, replace_all, to_decimal};
use number_puzzle::op::{apply_op, Op, OpError};

fn bytes(s: &str) -> Vec<u8> {
    s.as_bytes().to_vec()
}

#[test]
fn arithmetic_kinds() {
    assert_eq!(apply_op(5, &Op::Add(3)), Ok(8));
    assert_eq!(apply_op(5, &Op::Subtract(8)), Ok(-3));
    assert_eq!(apply_op(-4, &Op::Multiply(6)), Ok(-24));
    assert_eq!(apply_op(17, &Op::Negate), Ok(-17));
    assert_eq!(apply_op(3, &Op::Exponent(4)), Ok(81));
    assert_eq!(apply_op(-3, &Op::Exponent(3)), Ok(-27));
}

#[test]
fn division_truncates_toward_zero() {
    assert_eq!(apply_op(7, &Op::Divide(2)), Ok(3));
    assert_eq!(apply_op(-7, &Op::Divide(2)), Ok(-3));
    assert_eq!(apply_op(7, &Op::Divide(-2)), Ok(-3));
    assert_eq!(apply_op(-7, &Op::Divide(-2)), Ok(3));
}

#[test]
fn backspace_drops_last_digit() {
    assert_eq!(apply_op(1234, &Op::Backspace), Ok(123));
    assert_eq!(apply_op(-17, &Op::Backspace), Ok(-1));
    assert_eq!(apply_op(7, &Op::Backspace), Ok(0));
}

#[test]
fn exponent_zero_is_one() {
    assert_eq!(apply_op(0, &Op::Exponent(0)), Ok(1));
    assert_eq!(apply_op(-9, &Op::Exponent(0)), Ok(1));
    assert_eq!(apply_op(0, &Op::Exponent(5)), Ok(0));
}

#[test]
fn exponent_at_the_edge_of_the_range() {
    assert_eq!(apply_op(-2, &Op::Exponent(31)), Ok(i32::MIN));
    assert_eq!(apply_op(2, &Op::Exponent(31)), Err(OpError::Overflow));
    assert_eq!(apply_op(2, &Op::Exponent(30)), Ok(1 << 30));
    assert_eq!(apply_op(10, &Op::Exponent(40)), Err(OpError::Overflow));
    assert_eq!(apply_op(-1, &Op::Exponent(1_000_001)), Ok(-1));
    assert_eq!(apply_op(-1, &Op::Exponent(u32::MAX - 1)), Ok(1));
    assert_eq!(apply_op(1, &Op::Exponent(u32::MAX)), Ok(1));
    assert_eq!(apply_op(0, &Op::Exponent(u32::MAX)), Ok(0));
}

#[test]
fn overflow_is_reported() {
    assert_eq!(apply_op(i32::MAX, &Op::Add(1)), Err(OpError::Overflow));
    assert_eq!(apply_op(i32::MIN, &Op::Subtract(1)), Err(OpError::Overflow));
    assert_eq!(apply_op(65536, &Op::Multiply(65536)), Err(OpError::Overflow));
    assert_eq!(apply_op(i32::MIN, &Op::Negate), Err(OpError::Overflow));
    assert_eq!(apply_op(i32::MIN, &Op::Divide(-1)), Err(OpError::Overflow));
}

#[test]
fn divide_by_zero_is_reported() {
    assert_eq!(apply_op(10, &Op::Divide(0)), Err(OpError::DivideByZero));
    assert_eq!(apply_op(0, &Op::Divide(0)), Err(OpError::DivideByZero));
}

#[test]
fn insert_keeps_the_sign() {
    assert_eq!(apply_op(-2, &Op::Insert(3)), Ok(-23));
    assert_eq!(apply_op(12, &Op::Insert(5)), Ok(125));
    assert_eq!(apply_op(0, &Op::Insert(7)), Ok(7));
}

#[test]
fn insert_failures() {
    assert_eq!(apply_op(5, &Op::Insert(-3)), Err(OpError::InvalidLiteral));
    assert_eq!(apply_op(999_999_999, &Op::Insert(9)), Err(OpError::InvalidLiteral));
    assert_eq!(apply_op(-214_748_364, &Op::Insert(8)), Ok(i32::MIN));
    assert_eq!(apply_op(214_748_364, &Op::Insert(8)), Err(OpError::InvalidLiteral));
}

#[test]
fn transform_on_negative_values() {
    assert_eq!(apply_op(-12, &Op::Transform(1, 5)), Ok(-52));
    assert_eq!(apply_op(-12, &Op::Transform(-1, 3)), Ok(32));
    assert_eq!(apply_op(-21, &Op::Transform(2, 4)), Ok(-41));
    assert_eq!(apply_op(55, &Op::Transform(5, 2147483647)), Err(OpError::InvalidLiteral));
}

#[test]
fn transform_replaces_every_occurrence() {
    assert_eq!(apply_op(1212, &Op::Transform(12, 3)), Ok(33));
    assert_eq!(apply_op(111, &Op::Transform(11, 2)), Ok(21));
    assert_eq!(apply_op(45, &Op::Transform(7, 1)), Ok(45));
}

#[test]
fn transform_failures() {
    assert_eq!(apply_op(12, &Op::Transform(2, -3)), Err(OpError::InvalidLiteral));
    assert_eq!(apply_op(-5, &Op::Transform(-5, -5)), Ok(-5));
    assert_eq!(apply_op(1_111_111_111, &Op::Transform(1, 9)), Err(OpError::InvalidLiteral));
}

#[test]
fn decimal_text() {
    assert_eq!(to_decimal(-120), bytes("-120"));
    assert_eq!(to_decimal(0), bytes("0"));
    assert_eq!(to_decimal(i32::MIN), bytes("-2147483648"));
    assert_eq!(to_decimal(i32::MAX), bytes("2147483647"));
}

#[test]
fn decimal_parsing() {
    assert_eq!(parse_decimal(&bytes("-2147483648")), Ok(i32::MIN));
    assert_eq!(parse_decimal(&bytes("2147483647")), Ok(i32::MAX));
    assert_eq!(parse_decimal(&bytes("2147483648")), Err(OpError::InvalidLiteral));
    assert_eq!(parse_decimal(&bytes("-2147483649")), Err(OpError::InvalidLiteral));
    assert_eq!(parse_decimal(&bytes("007")), Ok(7));
    assert_eq!(parse_decimal(&bytes("")), Err(OpError::InvalidLiteral));
    assert_eq!(parse_decimal(&bytes("-")), Err(OpError::InvalidLiteral));
    assert_eq!(parse_decimal(&bytes("1-2")), Err(OpError::InvalidLiteral));
    assert_eq!(parse_decimal(&bytes("99999999999x")), Err(OpError::InvalidLiteral));
}

#[test]
fn replacement_of_text() {
    assert_eq!(replace_all(&bytes("1212"), &bytes("12"), &bytes("3")), bytes("33"));
    assert_eq!(replace_all(&bytes("111"), &bytes("11"), &bytes("2")), bytes("21"));
    assert_eq!(replace_all(&bytes("45"), &bytes(""), &bytes("9")), bytes("45"));
    assert_eq!(replace_all(&bytes("-12"), &bytes("-1"), &bytes("")), bytes("2"));
}
