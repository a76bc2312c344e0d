use minsk::ast::{BinaryOperator, Expression};
use minsk::eval::{evaluate, evaluate_literal, EvalError};
use minsk::lexer::lex;
use minsk::parser::Parser;

fn literal(digits: &str) -> Expression {
    Expression::IntegerLiteral(digits.to_string())
}

fn binary(operator: BinaryOperator, left: Expression, right: Expression) -> Expression {
    Expression::Binary { operator, left: Box::new(left), right: Box::new(right) }
}

fn value(source: &str) -> Result<i32, EvalError> {
    evaluate(Parser::new(lex(source)).parse().expect("the source is an expression"))
}

#[test]
fn precedence_example_is_seven() {
    assert_eq!(value("1 + 2 * 3"), Ok(7));
}

#[test]
fn parenthesised_example_is_nine() {
    assert_eq!(value("(1 + 2) * 3"), Ok(9));
}

#[test]
fn division_truncates() {
    assert_eq!(value("7 / 2"), Ok(3));
    assert_eq!(value("6 / 2"), Ok(3));
    assert_eq!(value("1 / 2"), Ok(0));
}

#[test]
fn division_rounds_toward_zero_for_negative_operands() {
    assert_eq!(value("(0 - 7) / 2"), Ok(-3));
    assert_eq!(value("7 / (0 - 2)"), Ok(-3));
    assert_eq!(value("(0 - 7) / (0 - 2)"), Ok(3));
    assert_eq!(value("(0 - 1) / 2"), Ok(0));
}

#[test]
fn the_four_operations() {
    assert_eq!(evaluate(binary(BinaryOperator::Plus, literal("20"), literal("22"))), Ok(42));
    assert_eq!(evaluate(binary(BinaryOperator::Minus, literal("20"), literal("22"))), Ok(-2));
    assert_eq!(evaluate(binary(BinaryOperator::Times, literal("20"), literal("22"))), Ok(440));
    assert_eq!(evaluate(binary(BinaryOperator::Divided, literal("22"), literal("20"))), Ok(1));
}

#[test]
fn the_left_operand_is_the_minuend_and_the_dividend() {
    assert_eq!(value("10 - 4"), Ok(6));
    assert_eq!(value("4 - 10"), Ok(-6));
    assert_eq!(value("12 / 4"), Ok(3));
    assert_eq!(value("4 / 12"), Ok(0));
}

#[test]
fn subtraction_and_division_group_to_the_left() {
    assert_eq!(value("10 - 4 - 3"), Ok(3));
    assert_eq!(value("100 / 10 / 5"), Ok(2));
    assert_eq!(value("10 - (4 - 3)"), Ok(9));
}

#[test]
fn division_by_zero_is_an_error() {
    assert_eq!(value("1 / 0"), Err(EvalError::DivisionByZero));
    assert_eq!(value("1 / (2 - 2)"), Err(EvalError::DivisionByZero));
    assert_eq!(value("0 / 0"), Err(EvalError::DivisionByZero));
    assert_eq!(value("0 / 1"), Ok(0));
}

#[test]
fn evaluation_goes_on_after_a_fault() {
    assert_eq!(value("1 / 0"), Err(EvalError::DivisionByZero));
    assert_eq!(value("1 + 1"), Ok(2));
}

#[test]
fn results_out_of_range_are_an_error() {
    assert_eq!(value("2147483647 + 1"), Err(EvalError::Overflow));
    assert_eq!(value("0 - 2147483647 - 2"), Err(EvalError::Overflow));
    assert_eq!(value("65536 * 32768"), Err(EvalError::Overflow));
    assert_eq!(value("(0 - 2147483647 - 1) / (0 - 1)"), Err(EvalError::Overflow));
}

#[test]
fn the_ends_of_the_range_are_values() {
    assert_eq!(value("2147483647"), Ok(i32::MAX));
    assert_eq!(value("2147483646 + 1"), Ok(i32::MAX));
    assert_eq!(value("0 - 2147483647 - 1"), Ok(i32::MIN));
    assert_eq!(value("65536 * 32767 + 65535"), Ok(i32::MAX));
    assert_eq!(value("(0 - 65536) * 32768"), Ok(i32::MIN));
    assert_eq!(value("(0 - 2147483647 - 1) / 1"), Ok(i32::MIN));
}

#[test]
fn a_literal_is_read_in_decimal() {
    assert_eq!(evaluate_literal("0"), Ok(0));
    assert_eq!(evaluate_literal("7"), Ok(7));
    assert_eq!(evaluate_literal("1234567890"), Ok(1234567890));
    assert_eq!(evaluate_literal("2147483647"), Ok(2147483647));
}

#[test]
fn leading_zeros_do_not_count() {
    assert_eq!(evaluate_literal("007"), Ok(7));
    assert_eq!(evaluate_literal("00000000000000000000002147483647"), Ok(2147483647));
    assert_eq!(value("010 + 1"), Ok(11));
}

#[test]
fn a_literal_out_of_range_is_an_error() {
    assert_eq!(evaluate_literal("2147483648"), Err(EvalError::Overflow));
    assert_eq!(evaluate_literal("9999999999"), Err(EvalError::Overflow));
    assert_eq!(
        evaluate_literal("123456789012345678901234567890"),
        Err(EvalError::Overflow)
    );
    assert_eq!(value("2147483648 - 1"), Err(EvalError::Overflow));
}

#[test]
fn a_literal_that_is_no_numeral_is_an_error() {
    assert_eq!(evaluate_literal(""), Err(EvalError::InvalidLiteral));
    assert_eq!(evaluate_literal("12a"), Err(EvalError::InvalidLiteral));
    assert_eq!(evaluate_literal("-1"), Err(EvalError::InvalidLiteral));
    assert_eq!(evaluate_literal(" 1"), Err(EvalError::InvalidLiteral));
    assert_eq!(evaluate_literal("\u{663}"), Err(EvalError::InvalidLiteral));
    assert_eq!(evaluate_literal("99999999999999999999x"), Err(EvalError::InvalidLiteral));
    assert_eq!(evaluate(literal("1.5")), Err(EvalError::InvalidLiteral));
}

#[test]
fn the_first_fault_from_the_left_is_reported() {
    let zero_division = binary(BinaryOperator::Divided, literal("1"), literal("0"));
    let too_large = literal("2147483648");
    assert_eq!(
        evaluate(binary(BinaryOperator::Plus, zero_division.clone(), too_large.clone())),
        Err(EvalError::DivisionByZero)
    );
    assert_eq!(
        evaluate(binary(BinaryOperator::Plus, too_large, zero_division)),
        Err(EvalError::Overflow)
    );
    assert_eq!(
        evaluate(binary(BinaryOperator::Divided, literal("x"), literal("0"))),
        Err(EvalError::InvalidLiteral)
    );
}

#[test]
fn a_fault_in_an_operand_outweighs_a_zero_divisor() {
    assert_eq!(value("(2147483647 + 1) / 0"), Err(EvalError::Overflow));
}

#[test]
fn the_errors_have_messages() {
    assert_eq!(EvalError::DivisionByZero.message(), "division by zero");
    assert_eq!(EvalError::Overflow.message(), "integer overflow");
    assert_eq!(EvalError::InvalidLiteral.message(), "invalid integer literal");
}

#[test]
fn parsing_then_evaluating_is_infix_arithmetic() {
    assert_eq!(value("2 + 3 * 4 - 10 / 5"), Ok(2 + 3 * 4 - 10 / 5));
    assert_eq!(value("(2 + 3) * (4 - 10) / 5"), Ok((2 + 3) * (4 - 10) / 5));
    assert_eq!(value("100 - 7 * (3 + 4) / 2 - 1"), Ok(100 - 7 * (3 + 4) / 2 - 1));
    assert_eq!(value("((1 + 2) * (3 + 4)) - ((5))"), Ok(16));
}
