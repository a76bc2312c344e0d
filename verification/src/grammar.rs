//! The grammar of expressions, as functions from a sequence of token kinds
//! and a position in it to a tree and the position after it.
//!
//! ```text
//! expression := term
//! term       := factor ( ('+' | '-') factor )*
//! factor     := primary ( ('*' | '/') primary )*
//! primary    := Number | '(' expression ')'
//! ```
//!
//! Each function consumes tokens as the parser does, the offending one
//! included, so that the position after a failed parse tells where it
//! failed. Where a function goes on after an operand, it first tests that the
//! operand has consumed a token: that shows that the recursion ends, and by
//! the lemmas at the end of this file the test never fails.
//!
//! What these functions accept, and what they make of it, is said without
//! them in `notation`: exactly the expressions written by the usual rules
//! of precedence, and the trees that those stand for.

use vstd::prelude::*;
use crate::ast::{BinaryOperator, SpecExpression};
use crate::lexer::{SpecToken, SpecTokenKind};

verus! {

/// What parsing from some position gives: the tree, or `None` where the
/// tokens break the grammar, and the position after the last token consumed.
pub struct Parsed {
    pub tree: Option<SpecExpression>,
    pub position: nat,
}

/// The kinds of a sequence of tokens, in order.
pub open spec fn kinds_of(tokens: Seq<SpecToken>) -> Seq<SpecTokenKind> {
    tokens.map_values(|token: SpecToken| token.kind)
}

/// How many tokens lie at or after position `at`.
pub open spec fn tokens_left(kinds: Seq<SpecTokenKind>, at: nat) -> nat {
    if at <= kinds.len() {
        (kinds.len() - at) as nat
    } else {
        0
    }
}

/// Whether `kind` is `+` or `-`.
pub open spec fn is_additive(kind: SpecTokenKind) -> bool {
    kind is Plus || kind is Minus
}

/// Whether `kind` is `*` or `/`.
pub open spec fn is_multiplicative(kind: SpecTokenKind) -> bool {
    kind is Star || kind is Slash
}

/// The binary node that the operator written as `kind` forms of two operands.
pub open spec fn binary(kind: SpecTokenKind, left: SpecExpression, right: SpecExpression)
    -> SpecExpression {
    SpecExpression::Binary {
        operator: BinaryOperator::of_kind(kind).unwrap(),
        left: Box::new(left),
        right: Box::new(right),
    }
}

/// What follows a construct that must be closed by `closing`: the token at
/// `body.position` is consumed, and the parse fails unless it is `closing`.
pub open spec fn closed_by(kinds: Seq<SpecTokenKind>, body: Parsed, closing: SpecTokenKind)
    -> Parsed {
    if body.tree is None {
        body
    } else if body.position >= kinds.len() {
        Parsed { tree: None, position: body.position }
    } else if kinds[body.position as int] == closing {
        Parsed { tree: body.tree, position: body.position + 1 }
    } else {
        Parsed { tree: None, position: body.position + 1 }
    }
}

/// `primary := Number | '(' expression ')'`. The token at `at` is consumed
/// whatever it is; the parse fails if there is none, or if it is neither a
/// number nor `(`.
pub open spec fn primary(kinds: Seq<SpecTokenKind>, at: nat) -> Parsed
    decreases tokens_left(kinds, at), 0nat,
{
    if at >= kinds.len() {
        Parsed { tree: None, position: at }
    } else {
        match kinds[at as int] {
            SpecTokenKind::Number(digits) => Parsed {
                tree: Some(SpecExpression::IntegerLiteral(digits)),
                position: at + 1,
            },
            SpecTokenKind::ParenLeft => closed_by(
                kinds,
                expression(kinds, at + 1),
                SpecTokenKind::ParenRight,
            ),
            _ => Parsed { tree: None, position: at + 1 },
        }
    }
}

/// `( ('*' | '/') primary )*` after the operand `left`, folded to the left.
pub open spec fn factor_tail(kinds: Seq<SpecTokenKind>, at: nat, left: SpecExpression) -> Parsed
    decreases tokens_left(kinds, at), 0nat,
{
    if at < kinds.len() && is_multiplicative(kinds[at as int]) {
        let right = primary(kinds, at + 1);
        if right.tree is Some && right.position > at {
            factor_tail(kinds, right.position, binary(kinds[at as int], left, right.tree.unwrap()))
        } else {
            Parsed { tree: None, position: right.position }
        }
    } else {
        Parsed { tree: Some(left), position: at }
    }
}

/// `factor := primary ( ('*' | '/') primary )*`.
pub open spec fn factor(kinds: Seq<SpecTokenKind>, at: nat) -> Parsed
    decreases tokens_left(kinds, at), 1nat,
{
    let first = primary(kinds, at);
    if first.tree is Some && first.position > at {
        factor_tail(kinds, first.position, first.tree.unwrap())
    } else {
        Parsed { tree: None, position: first.position }
    }
}

/// `( ('+' | '-') factor )*` after the operand `left`, folded to the left.
pub open spec fn term_tail(kinds: Seq<SpecTokenKind>, at: nat, left: SpecExpression) -> Parsed
    decreases tokens_left(kinds, at), 0nat,
{
    if at < kinds.len() && is_additive(kinds[at as int]) {
        let right = factor(kinds, at + 1);
        if right.tree is Some && right.position > at {
            term_tail(kinds, right.position, binary(kinds[at as int], left, right.tree.unwrap()))
        } else {
            Parsed { tree: None, position: right.position }
        }
    } else {
        Parsed { tree: Some(left), position: at }
    }
}

/// `term := factor ( ('+' | '-') factor )*`.
pub open spec fn term(kinds: Seq<SpecTokenKind>, at: nat) -> Parsed
    decreases tokens_left(kinds, at), 2nat,
{
    let first = factor(kinds, at);
    if first.tree is Some && first.position > at {
        term_tail(kinds, first.position, first.tree.unwrap())
    } else {
        Parsed { tree: None, position: first.position }
    }
}

/// `expression := term`.
pub open spec fn expression(kinds: Seq<SpecTokenKind>, at: nat) -> Parsed
    decreases tokens_left(kinds, at), 3nat,
{
    term(kinds, at)
}

/// A whole input: one expression, then `EndOfFile`.
pub open spec fn program(kinds: Seq<SpecTokenKind>, at: nat) -> Parsed {
    closed_by(kinds, expression(kinds, at), SpecTokenKind::EndOfFile)
}

/// Where a parse from `at` may end: never before `at`, never past the end of
/// the tokens, and after `at` if it gave a tree or if there was a token to
/// consume at all.
pub open spec fn advances(kinds: Seq<SpecTokenKind>, at: nat, parsed: Parsed) -> bool {
    &&& at <= parsed.position
    &&& at <= kinds.len() ==> parsed.position <= kinds.len()
    &&& parsed.tree is Some ==> at < parsed.position
    &&& at < kinds.len() ==> at < parsed.position
}

/// Every successful `primary` consumes at least one token, so the tests
/// `position > at` in the grammar never fail a parse.
pub proof fn lemma_primary_advances(kinds: Seq<SpecTokenKind>, at: nat)
    ensures
        advances(kinds, at, primary(kinds, at)),
    decreases tokens_left(kinds, at), 0nat,
{
    if at < kinds.len() && kinds[at as int] is ParenLeft {
        lemma_expression_advances(kinds, at + 1);
    }
}

/// A tail consumes nothing or more, and always gives a tree or fails past `at`.
pub proof fn lemma_factor_tail_advances(kinds: Seq<SpecTokenKind>, at: nat, left: SpecExpression)
    ensures
        at <= factor_tail(kinds, at, left).position,
        at <= kinds.len() ==> factor_tail(kinds, at, left).position <= kinds.len(),
    decreases tokens_left(kinds, at), 0nat,
{
    if at < kinds.len() && is_multiplicative(kinds[at as int]) {
        lemma_primary_advances(kinds, at + 1);
        let right = primary(kinds, at + 1);
        if right.tree is Some {
            lemma_factor_tail_advances(
                kinds,
                right.position,
                binary(kinds[at as int], left, right.tree.unwrap()),
            );
        }
    }
}

/// Every successful `factor` consumes at least one token.
pub proof fn lemma_factor_advances(kinds: Seq<SpecTokenKind>, at: nat)
    ensures
        advances(kinds, at, factor(kinds, at)),
    decreases tokens_left(kinds, at), 1nat,
{
    lemma_primary_advances(kinds, at);
    let first = primary(kinds, at);
    if first.tree is Some {
        lemma_factor_tail_advances(kinds, first.position, first.tree.unwrap());
    }
}

/// A tail consumes nothing or more.
pub proof fn lemma_term_tail_advances(kinds: Seq<SpecTokenKind>, at: nat, left: SpecExpression)
    ensures
        at <= term_tail(kinds, at, left).position,
        at <= kinds.len() ==> term_tail(kinds, at, left).position <= kinds.len(),
    decreases tokens_left(kinds, at), 0nat,
{
    if at < kinds.len() && is_additive(kinds[at as int]) {
        lemma_factor_advances(kinds, at + 1);
        let right = factor(kinds, at + 1);
        if right.tree is Some {
            lemma_term_tail_advances(
                kinds,
                right.position,
                binary(kinds[at as int], left, right.tree.unwrap()),
            );
        }
    }
}

/// Every successful `term` consumes at least one token.
pub proof fn lemma_term_advances(kinds: Seq<SpecTokenKind>, at: nat)
    ensures
        advances(kinds, at, term(kinds, at)),
    decreases tokens_left(kinds, at), 2nat,
{
    lemma_factor_advances(kinds, at);
    let first = factor(kinds, at);
    if first.tree is Some {
        lemma_term_tail_advances(kinds, first.position, first.tree.unwrap());
    }
}

/// Every successful `expression` consumes at least one token.
pub proof fn lemma_expression_advances(kinds: Seq<SpecTokenKind>, at: nat)
    ensures
        advances(kinds, at, expression(kinds, at)),
    decreases tokens_left(kinds, at), 3nat,
{
    lemma_term_advances(kinds, at);
}

/// A parse of a whole input consumes at least one token, if there is one,
/// and stops within the tokens.
pub proof fn lemma_program_advances(kinds: Seq<SpecTokenKind>, at: nat)
    ensures
        advances(kinds, at, program(kinds, at)),
{
    lemma_expression_advances(kinds, at);
}

} // verus!
