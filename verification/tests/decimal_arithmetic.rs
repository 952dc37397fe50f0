use calculator::decimal::{
    count_points, digit_of, digit_str, evaluate, is_entry_str, is_number_str, pow10_exec,
    push_fixed, push_nat, read_operand, render, MAX_OPERAND_LEN, QUOTIENT_DIGITS,
};
use calculator::operator::MathOperator;

#[test]
fn sums() {
    assert_eq!(evaluate("3", MathOperator::Add, "4"), "7");
    assert_eq!(evaluate("1.5", MathOperator::Add, "2.25"), "3.75");
    assert_eq!(evaluate("0.1", MathOperator::Add, "0.2"), "0.3");
    assert_eq!(evaluate("5.", MathOperator::Add, ".5"), "5.5");
    assert_eq!(evaluate("007", MathOperator::Add, "1"), "8");
    assert_eq!(evaluate("0.75", MathOperator::Add, "0.25"), "1");
    assert_eq!(evaluate("999999999999", MathOperator::Add, "999999999999"), "1999999999998");
}

#[test]
fn differences() {
    assert_eq!(evaluate("3", MathOperator::Subtract, "4"), "-1");
    assert_eq!(evaluate("100", MathOperator::Subtract, "100"), "0");
    assert_eq!(evaluate("1", MathOperator::Subtract, "0.001"), "0.999");
    assert_eq!(evaluate("0.25", MathOperator::Subtract, "1.5"), "-1.25");
    assert_eq!(evaluate("10.50", MathOperator::Subtract, "0.5"), "10");
}

#[test]
fn products() {
    assert_eq!(evaluate("12", MathOperator::Multiply, "3"), "36");
    assert_eq!(evaluate("1.20", MathOperator::Multiply, "3"), "3.6");
    assert_eq!(evaluate("0.5", MathOperator::Multiply, "0.5"), "0.25");
    assert_eq!(evaluate("0", MathOperator::Multiply, "123.456"), "0");
    assert_eq!(
        evaluate("999999999999", MathOperator::Multiply, "999999999999"),
        "999999999998000000000001"
    );
    assert_eq!(
        evaluate(".00000000001", MathOperator::Multiply, ".00000000001"),
        "0.0000000000000000000001"
    );
}

#[test]
fn quotients() {
    assert_eq!(evaluate("8", MathOperator::Divide, "2"), "4");
    assert_eq!(evaluate("10", MathOperator::Divide, "4"), "2.5");
    assert_eq!(evaluate("1", MathOperator::Divide, "3"), "0.333333333333");
    assert_eq!(evaluate("2", MathOperator::Divide, "3"), "0.666666666666");
    assert_eq!(evaluate("0", MathOperator::Divide, "5"), "0");
    assert_eq!(evaluate("1.5", MathOperator::Divide, "0.25"), "6");
    assert_eq!(evaluate("1", MathOperator::Divide, "8"), "0.125");
    assert_eq!(
        evaluate("999999999999", MathOperator::Divide, ".00000000001"),
        "99999999999900000000000"
    );
}

#[test]
fn division_by_zero_is_undefined() {
    assert_eq!(evaluate("5", MathOperator::Divide, "0"), "undefined");
    assert_eq!(evaluate("5", MathOperator::Divide, "0.00"), "undefined");
    assert_eq!(evaluate("0", MathOperator::Divide, "0."), "undefined");
}

#[test]
fn malformed_operand_is_undefined() {
    assert_eq!(evaluate(".", MathOperator::Add, "1"), "undefined");
    assert_eq!(evaluate("1", MathOperator::Add, ""), "undefined");
    assert_eq!(evaluate("1.2.3", MathOperator::Add, "1"), "undefined");
    assert_eq!(evaluate("1", MathOperator::Multiply, "x"), "undefined");
    assert_eq!(evaluate("-1", MathOperator::Subtract, "1"), "undefined");
    assert_eq!(evaluate("12345678901234567890a", MathOperator::Add, "1"), "undefined");
}

#[test]
fn long_operand_overflows() {
    assert_eq!(MAX_OPERAND_LEN, 12);
    assert_eq!(evaluate("1234567890123", MathOperator::Add, "1"), "overflow");
    assert_eq!(evaluate("1", MathOperator::Divide, "0.00000000000"), "overflow");
    assert_eq!(evaluate("123456789012", MathOperator::Add, "1"), "123456789013");
    assert_eq!(evaluate("1234567890123", MathOperator::Add, "."), "undefined");
}

#[test]
fn quotient_keeps_twelve_digits() {
    assert_eq!(QUOTIENT_DIGITS, 12);
    assert_eq!(evaluate("1", MathOperator::Divide, "7"), "0.142857142857");
    assert_eq!(evaluate("1", MathOperator::Divide, "999999999999"), "0.000000000001");
    assert_eq!(evaluate("1", MathOperator::Divide, "3000000000000".get(0..12).unwrap()), "0.000000000003");
}

#[test]
fn digits_are_recognised() {
    assert_eq!(digit_of('0'), Some(0));
    assert_eq!(digit_of('7'), Some(7));
    assert_eq!(digit_of('9'), Some(9));
    assert_eq!(digit_of('.'), None);
    assert_eq!(digit_of('a'), None);
    assert_eq!(digit_str(0), "0");
    assert_eq!(digit_str(5), "5");
    assert_eq!(digit_str(9), "9");
}

#[test]
fn entry_text_and_numbers() {
    assert!(is_entry_str(""));
    assert!(is_entry_str("."));
    assert!(is_entry_str("12.5"));
    assert!(!is_entry_str("1.2."));
    assert!(!is_entry_str("1e5"));
    assert!(!is_number_str(""));
    assert!(!is_number_str("."));
    assert!(is_number_str("5."));
    assert!(is_number_str(".5"));
    assert!(!is_number_str("..5"));
    assert_eq!(count_points(""), 0);
    assert_eq!(count_points("1.2.3"), 2);
}

#[test]
fn operands_are_read() {
    let d = read_operand("12.50");
    assert_eq!(d.mantissa, 1250);
    assert_eq!(d.scale, 2);
    let d = read_operand("42");
    assert_eq!(d.mantissa, 42);
    assert_eq!(d.scale, 0);
    let d = read_operand(".5");
    assert_eq!(d.mantissa, 5);
    assert_eq!(d.scale, 1);
    let d = read_operand("5.");
    assert_eq!(d.mantissa, 5);
    assert_eq!(d.scale, 0);
}

#[test]
fn powers_of_ten() {
    assert_eq!(pow10_exec(0), 1);
    assert_eq!(pow10_exec(1), 10);
    assert_eq!(pow10_exec(12), 1_000_000_000_000);
    assert_eq!(pow10_exec(36), 1_000_000_000_000_000_000_000_000_000_000_000_000);
}

#[test]
fn numbers_are_written() {
    assert_eq!(render(false, 0, 0), "0");
    assert_eq!(render(false, 1250, 2), "12.5");
    assert_eq!(render(true, 1250, 3), "-1.25");
    assert_eq!(render(false, 5, 3), "0.005");
    assert_eq!(render(false, 1000, 3), "1");
    assert_eq!(render(false, 0, 5), "0");
    assert_eq!(render(false, 10203, 0), "10203");
    let mut text = String::from("n=");
    push_nat(&mut text, 907);
    assert_eq!(text, "n=907");
    push_fixed(&mut text, 42, 4);
    assert_eq!(text, "n=9070042");
    push_fixed(&mut text, 12345, 2);
    assert_eq!(text, "n=907004245");
    push_nat(&mut text, 0);
    assert_eq!(text, "n=9070042450");
}

#[test]
fn written_results_read_back() {
    let text = evaluate("1.5", MathOperator::Add, "2.25");
    assert!(is_number_str(&text));
    let d = read_operand(&text);
    assert_eq!((d.mantissa, d.scale), (375, 2));
    let text = evaluate("2.50", MathOperator::Multiply, "4");
    assert!(is_number_str(&text));
    let d = read_operand(&text);
    assert_eq!((d.mantissa, d.scale), (10, 0));
    let text = evaluate("1", MathOperator::Divide, "8");
    let d = read_operand(&text);
    assert_eq!((d.mantissa, d.scale), (125, 3));
    let text = evaluate("1", MathOperator::Subtract, "8");
    assert_eq!(&text[..1], "-");
    let d = read_operand(&text[1..]);
    assert_eq!((d.mantissa, d.scale), (7, 0));
}
