use minsk::ast::{BinaryOperator, Expression};
use minsk::eval::EvalError;
use minsk::interpreter::{interpret, Failure, Report};
use minsk::lexer::{lex, Token, TokenKind};
use minsk::parser::ParseError;

fn literal(digits: &str) -> Expression {
    Expression::IntegerLiteral(digits.to_string())
}

fn binary(operator: BinaryOperator, left: Expression, right: Expression) -> Expression {
    Expression::Binary { operator, left: Box::new(left), right: Box::new(right) }
}

#[test]
fn a_line_comes_to_its_tokens_its_tree_and_its_value() {
    assert_eq!(
        interpret("1 + 2 * 3"),
        Ok(Report {
            tokens: lex("1 + 2 * 3"),
            tree: binary(
                BinaryOperator::Plus,
                literal("1"),
                binary(BinaryOperator::Times, literal("2"), literal("3")),
            ),
            value: 7,
        })
    );
}

#[test]
fn parentheses_change_the_value() {
    assert_eq!(interpret("(1 + 2) * 3").map(|report| report.value), Ok(9));
}

#[test]
fn seven_by_two_is_three() {
    assert_eq!(interpret("7 / 2").map(|report| report.value), Ok(3));
}

fn syntax_error_at(kind: TokenKind, start: usize, end: usize) -> Failure {
    Failure::Syntax { error: ParseError::Syntax, offender: Token::new(kind, start, end) }
}

#[test]
fn a_missing_operand_fails_the_line() {
    assert_eq!(interpret("1 + "), Err(syntax_error_at(TokenKind::EndOfFile, 4, 4)));
}

#[test]
fn a_syntax_error_names_the_token_at_which_the_parse_failed() {
    assert_eq!(interpret(""), Err(syntax_error_at(TokenKind::EndOfFile, 0, 0)));
    assert_eq!(interpret(") 1"), Err(syntax_error_at(TokenKind::ParenRight, 0, 1)));
    assert_eq!(
        interpret("1 23"),
        Err(syntax_error_at(TokenKind::Number("23".to_string()), 2, 4))
    );
    assert_eq!(interpret("1 + * 2"), Err(syntax_error_at(TokenKind::Star, 4, 5)));
    assert_eq!(interpret("(1 + 2"), Err(syntax_error_at(TokenKind::EndOfFile, 6, 6)));
    assert_eq!(
        interpret("(1 + 2 3)"),
        Err(syntax_error_at(TokenKind::Number("3".to_string()), 7, 8))
    );
    assert_eq!(interpret("1 + 2)"), Err(syntax_error_at(TokenKind::ParenRight, 5, 6)));
}

#[test]
fn an_invalid_character_fails_the_line() {
    assert_eq!(
        interpret("1 @ 2"),
        Err(Failure::Unrecognized {
            offender: Token::new(TokenKind::Invalid('@'), 2, 3),
            character: '@',
        })
    );
}

#[test]
fn the_first_invalid_character_is_reported() {
    assert_eq!(
        interpret("1 + $ # 2"),
        Err(Failure::Unrecognized {
            offender: Token::new(TokenKind::Invalid('$'), 4, 5),
            character: '$',
        })
    );
}

#[test]
fn an_invalid_character_outweighs_a_syntax_error() {
    assert_eq!(
        interpret("+ + ?"),
        Err(Failure::Unrecognized {
            offender: Token::new(TokenKind::Invalid('?'), 4, 5),
            character: '?',
        })
    );
}

#[test]
fn a_division_by_zero_fails_the_line_and_the_next_line_is_taken() {
    assert_eq!(interpret("1 / 0"), Err(Failure::Fault(EvalError::DivisionByZero)));
    assert_eq!(interpret("1 / 1").map(|report| report.value), Ok(1));
}

#[test]
fn an_overflow_fails_the_line() {
    assert_eq!(interpret("2147483647 + 1"), Err(Failure::Fault(EvalError::Overflow)));
    assert_eq!(interpret("99999999999"), Err(Failure::Fault(EvalError::Overflow)));
}

#[test]
fn a_syntax_error_outweighs_a_fault() {
    assert_eq!(interpret("1 / 0 +"), Err(syntax_error_at(TokenKind::EndOfFile, 7, 7)));
}

#[test]
fn an_invalid_character_is_described_by_a_diagnostic() {
    let source = "1 @ 2";
    let failure = interpret(source).expect_err("the line holds an invalid character");
    assert_eq!(
        failure.describe(source),
        [
            "\x1b[1;37mstdin:1:3:\x1b[1;31m error:\x1b[1;37m unrecognized token '@'",
            "\x1b[0m    1 | 1 @ 2",
            "      |   \x1b[1;32m^\x1b[0m",
            "1 error generated.",
            "",
        ]
        .join("\n")
    );
}

#[test]
fn a_syntax_error_is_described_by_a_diagnostic() {
    let source = "(1 + 2 3)";
    let failure = interpret(source).expect_err("the line breaks the grammar");
    assert_eq!(
        failure.describe(source),
        [
            "\x1b[1;37mstdin:1:8:\x1b[1;31m error:\x1b[1;37m syntax error",
            "\x1b[0m    1 | (1 + 2 3)",
            "      |        \x1b[1;32m^\x1b[0m",
            "1 error generated.",
            "",
        ]
        .join("\n")
    );
}

#[test]
fn a_syntax_error_at_the_end_points_past_the_line() {
    let source = "1 +";
    let failure = interpret(source).expect_err("the line breaks the grammar");
    assert_eq!(
        failure.describe(source),
        [
            "\x1b[1;37mstdin:1:4:\x1b[1;31m error:\x1b[1;37m syntax error",
            "\x1b[0m    1 | 1 +",
            "      |    \x1b[1;32m^\x1b[0m",
            "1 error generated.",
            "",
        ]
        .join("\n")
    );
}

#[test]
fn a_fault_is_described_by_its_message() {
    assert_eq!(
        Failure::Fault(EvalError::DivisionByZero).describe("1 / 0"),
        "division by zero"
    );
    assert_eq!(Failure::Fault(EvalError::Overflow).describe("x"), "integer overflow");
    assert_eq!(
        Failure::Fault(EvalError::InvalidLiteral).describe("x"),
        "invalid integer literal"
    );
}
