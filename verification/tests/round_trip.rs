use minsk::ast::{pretty_print, BinaryOperator, Expression};
use minsk::lexer::{lex, TokenKind};
use minsk::rendering::to_source;
use minsk::parser::Parser;

fn literal(digits: &str) -> Expression {
    Expression::IntegerLiteral(digits.to_string())
}

fn binary(operator: BinaryOperator, left: Expression, right: Expression) -> Expression {
    Expression::Binary { operator, left: Box::new(left), right: Box::new(right) }
}

fn reparsed(tree: &Expression) -> Expression {
    Parser::new(lex(&to_source(tree))).parse().expect("the source text of a tree parses")
}

#[test]
fn a_literal_is_written_as_its_digits() {
    assert_eq!(to_source(&literal("42")), "42");
    assert_eq!(to_source(&literal("007")), "007");
}

#[test]
fn operators_are_written_between_spaces() {
    assert_eq!(to_source(&binary(BinaryOperator::Plus, literal("1"), literal("2"))), "1 + 2");
    assert_eq!(to_source(&binary(BinaryOperator::Minus, literal("1"), literal("2"))), "1 - 2");
    assert_eq!(to_source(&binary(BinaryOperator::Times, literal("1"), literal("2"))), "1 * 2");
    assert_eq!(to_source(&binary(BinaryOperator::Divided, literal("1"), literal("2"))), "1 / 2");
}

#[test]
fn parentheses_are_written_only_where_needed() {
    let sum = binary(BinaryOperator::Plus, literal("1"), literal("2"));
    let product = binary(BinaryOperator::Times, literal("2"), literal("3"));
    assert_eq!(
        to_source(&binary(BinaryOperator::Plus, literal("1"), product.clone())),
        "1 + 2 * 3"
    );
    assert_eq!(
        to_source(&binary(BinaryOperator::Times, sum.clone(), literal("3"))),
        "(1 + 2) * 3"
    );
    assert_eq!(
        to_source(&binary(BinaryOperator::Times, literal("3"), sum.clone())),
        "3 * (1 + 2)"
    );
    assert_eq!(
        to_source(&binary(BinaryOperator::Minus, sum.clone(), literal("3"))),
        "1 + 2 - 3"
    );
    assert_eq!(
        to_source(&binary(BinaryOperator::Minus, literal("3"), sum)),
        "3 - (1 + 2)"
    );
    assert_eq!(
        to_source(&binary(BinaryOperator::Divided, product.clone(), literal("4"))),
        "2 * 3 / 4"
    );
    assert_eq!(
        to_source(&binary(BinaryOperator::Divided, literal("4"), product)),
        "4 / (2 * 3)"
    );
}

#[test]
fn the_source_text_of_a_tree_parses_back_to_the_tree() {
    let sum = binary(BinaryOperator::Plus, literal("1"), literal("2"));
    let difference = binary(BinaryOperator::Minus, literal("30"), literal("4"));
    let trees = vec![
        literal("0"),
        literal("0012"),
        sum.clone(),
        binary(BinaryOperator::Times, sum.clone(), difference.clone()),
        binary(BinaryOperator::Minus, sum.clone(), difference.clone()),
        binary(BinaryOperator::Minus, difference.clone(), sum.clone()),
        binary(BinaryOperator::Divided, literal("5"), binary(
            BinaryOperator::Divided,
            literal("6"),
            binary(BinaryOperator::Times, sum.clone(), literal("7")),
        )),
        binary(
            BinaryOperator::Plus,
            binary(BinaryOperator::Times, difference.clone(), sum.clone()),
            binary(BinaryOperator::Divided, sum, difference),
        ),
    ];
    for tree in trees {
        assert_eq!(reparsed(&tree), tree);
    }
}

#[test]
fn every_small_tree_round_trips() {
    let operators = [
        BinaryOperator::Plus,
        BinaryOperator::Minus,
        BinaryOperator::Times,
        BinaryOperator::Divided,
    ];
    let mut trees = vec![literal("1"), literal("23")];
    for _ in 0..2 {
        let mut next = trees.clone();
        for operator in operators {
            for left in trees.iter().take(12) {
                for right in trees.iter().take(12) {
                    next.push(binary(operator, left.clone(), right.clone()));
                }
            }
        }
        trees = next;
    }
    assert!(trees.len() > 500);
    for tree in trees {
        assert_eq!(reparsed(&tree), tree);
    }
}

#[test]
fn the_tokens_of_the_source_text_end_in_one_end_of_file() {
    let tree = binary(
        BinaryOperator::Times,
        binary(BinaryOperator::Plus, literal("1"), literal("2")),
        literal("3"),
    );
    let kinds: Vec<TokenKind> = lex(&to_source(&tree)).into_iter().map(|t| t.kind).collect();
    assert_eq!(
        kinds,
        vec![
            TokenKind::ParenLeft,
            TokenKind::Number("1".to_string()),
            TokenKind::Plus,
            TokenKind::Number("2".to_string()),
            TokenKind::ParenRight,
            TokenKind::Star,
            TokenKind::Number("3".to_string()),
            TokenKind::EndOfFile,
        ]
    );
}

#[test]
fn a_tree_is_cloned_with_all_below_it() {
    let tree = binary(
        BinaryOperator::Divided,
        binary(BinaryOperator::Plus, literal("1"), literal("2")),
        literal("3"),
    );
    assert_eq!(tree.clone(), tree);
}

#[test]
fn a_literal_is_drawn_below_the_root() {
    assert_eq!(pretty_print(&literal("5")), ".\n└── IntegerLiteral 5\n");
}

#[test]
fn a_tree_is_drawn_with_its_branches() {
    let tree = binary(
        BinaryOperator::Plus,
        literal("1"),
        binary(BinaryOperator::Times, literal("2"), literal("3")),
    );
    let expected = [
        ".",
        "└── BinaryExpression +",
        "    ├── IntegerLiteral 1",
        "    └── BinaryExpression *",
        "        ├── IntegerLiteral 2",
        "        └── IntegerLiteral 3",
        "",
    ]
    .join("\n");
    assert_eq!(pretty_print(&tree), expected);
}

#[test]
fn a_bar_runs_down_to_the_last_child() {
    let tree = binary(
        BinaryOperator::Minus,
        binary(BinaryOperator::Divided, literal("8"), literal("4")),
        literal("1"),
    );
    let expected = [
        ".",
        "└── BinaryExpression -",
        "    ├── BinaryExpression /",
        "    │   ├── IntegerLiteral 8",
        "    │   └── IntegerLiteral 4",
        "    └── IntegerLiteral 1",
        "",
    ]
    .join("\n");
    assert_eq!(pretty_print(&tree), expected);
}
