//! Expressions as they are written, parentheses included, and the laws that
//! tie the written form to the tree that the parser builds of it.

use vstd::prelude::*;
use crate::ast::{BinaryOperator, SpecExpression};
use crate::eval::{apply, arithmetic, faultless, lemma_value_is_arithmetic, value_of, EvalError};
use crate::grammar::{
    binary, expression, factor, factor_tail, is_additive, is_multiplicative, primary, program,
    term, term_tail, tokens_left, Parsed,
};
use crate::lexer::SpecTokenKind;
use crate::text::decimal_value;

verus! {

/// An expression as it is written: a number, a parenthesised expression, or
/// two expressions with an operator between them.
pub enum Notation {
    Number(Seq<char>),
    Group(Box<Notation>),
    Binary { operator: BinaryOperator, left: Box<Notation>, right: Box<Notation> },
}

impl Notation {
    /// The token kinds that the notation is written with, in order.
    pub open spec fn kinds(self) -> Seq<SpecTokenKind>
        decreases self,
    {
        match self {
            Notation::Number(digits) => seq![SpecTokenKind::Number(digits)],
            Notation::Group(inner) => seq![SpecTokenKind::ParenLeft] + inner.kinds()
                + seq![SpecTokenKind::ParenRight],
            Notation::Binary { operator, left, right } => left.kinds() + seq![operator.kind()]
                + right.kinds(),
        }
    }

    /// The expression that the notation stands for: parentheses only group.
    pub open spec fn tree(self) -> SpecExpression
        decreases self,
    {
        match self {
            Notation::Number(digits) => SpecExpression::IntegerLiteral(digits),
            Notation::Group(inner) => inner.tree(),
            Notation::Binary { operator, left, right } => SpecExpression::Binary {
                operator,
                left: Box::new(left.tree()),
                right: Box::new(right.tree()),
            },
        }
    }

    /// Whether the notation may stand where the grammar asks for a term
    /// (`level` 0), a factor (1) or a primary (2), by the usual rules: `*` and
    /// `/` bind tighter than `+` and `-`, and operators of one strength group to
    /// the left. So the right operand of `+` or `-` is a factor, both operands of
    /// `*` or `/` are free of bare `+` and `-`, and the right one is a primary.
    pub open spec fn fits(self, level: nat) -> bool
        decreases self,
    {
        match self {
            Notation::Number(_) => true,
            Notation::Group(inner) => inner.fits(0),
            Notation::Binary { operator, left, right } => if operator.is_multiplicative() {
                level <= 1 && left.fits(1) && right.fits(2)
            } else {
                level == 0 && left.fits(0) && right.fits(1)
            },
        }
    }
}

/// Whether `part` stands in `whole` from position `at` on.
pub open spec fn written_at<A>(whole: Seq<A>, at: nat, part: Seq<A>) -> bool {
    &&& at + part.len() <= whole.len()
    &&& part_at(whole, at, part.len()) == part
}

/// The `length` items of `whole` from position `at` on.
pub open spec fn part_at<A>(whole: Seq<A>, at: nat, length: nat) -> Seq<A> {
    whole.subrange(at as int, (at + length) as int)
}

/// Whether the token at `at` is `*` or `/`.
pub open spec fn multiplicative_at(kinds: Seq<SpecTokenKind>, at: nat) -> bool {
    at < kinds.len() && is_multiplicative(kinds[at as int])
}

/// Whether the token at `at` is `+` or `-`.
pub open spec fn additive_at(kinds: Seq<SpecTokenKind>, at: nat) -> bool {
    at < kinds.len() && is_additive(kinds[at as int])
}

/// Where a concatenation is written, its two parts are written one after
/// the other.
pub proof fn lemma_written_parts<A>(whole: Seq<A>, at: nat, first: Seq<A>, second: Seq<A>)
    requires
        written_at(whole, at, first + second),
    ensures
        written_at(whole, at, first),
        written_at(whole, at + first.len(), second),
{
    let joined = first + second;
    assert(part_at(whole, at, first.len()) == first) by {
        assert forall|i: int| 0 <= i < first.len() implies part_at(whole, at, first.len())[i]
            == first[i] by {
            assert(part_at(whole, at, joined.len())[i] == joined[i]);
        }
    }
    assert(part_at(whole, at + first.len(), second.len()) == second) by {
        assert forall|i: int| 0 <= i < second.len() implies part_at(
            whole,
            at + first.len(),
            second.len(),
        )[i] == second[i] by {
            assert(part_at(whole, at, joined.len())[first.len() + i] == joined[first.len() + i]);
        }
    }
}

/// Where two parts are written one after the other, their concatenation is
/// written.
pub proof fn lemma_written_joined<A>(whole: Seq<A>, at: nat, first: Seq<A>, second: Seq<A>)
    requires
        written_at(whole, at, first),
        written_at(whole, at + first.len(), second),
    ensures
        written_at(whole, at, first + second),
{
    let joined = first + second;
    assert(part_at(whole, at, joined.len()) == joined) by {
        assert forall|i: int| 0 <= i < joined.len() implies part_at(whole, at, joined.len())[i]
            == joined[i] by {
            if i < first.len() {
                assert(part_at(whole, at, first.len())[i] == first[i]);
            } else {
                assert(part_at(whole, at + first.len(), second.len())[i - first.len()]
                    == second[i - first.len()]);
            }
        }
    }
}

/// Every notation is written with at least one token.
pub proof fn lemma_kinds_nonempty(notation: Notation)
    ensures
        notation.kinds().len() >= 1,
    decreases notation,
{
    match notation {
        Notation::Number(_) => {},
        Notation::Group(inner) => {},
        Notation::Binary { operator, left, right } => {},
    }
}

/// Each operator is the one that its token kind stands for.
pub proof fn lemma_operator_kind(operator: BinaryOperator)
    ensures
        BinaryOperator::of_kind(operator.kind()) == Some(operator),
        is_multiplicative(operator.kind()) == operator.is_multiplicative(),
        is_additive(operator.kind()) == !operator.is_multiplicative(),
{
}

/// Where a notation that may stand as a primary is written, `primary` gives
/// its tree and stops just after it.
pub proof fn lemma_primary_reads(kinds: Seq<SpecTokenKind>, at: nat, notation: Notation)
    requires
        notation.fits(2),
        written_at(kinds, at, notation.kinds()),
    ensures
        primary(kinds, at) == (Parsed {
            tree: Some(notation.tree()),
            position: at + notation.kinds().len(),
        }),
    decreases notation, 0nat,
{
    let written = notation.kinds();
    assert(kinds[at as int] == part_at(kinds, at, written.len())[0]);
    match notation {
        Notation::Number(digits) => {},
        Notation::Group(inner) => {
            let open = seq![SpecTokenKind::ParenLeft];
            let close = seq![SpecTokenKind::ParenRight];
            lemma_written_parts(kinds, at, open + inner.kinds(), close);
            lemma_written_parts(kinds, at, open, inner.kinds());
            let end = (at + 1 + inner.kinds().len()) as nat;
            assert(kinds[end as int] == part_at(kinds, end, 1)[0]);
            lemma_expression_reads(kinds, at + 1, *inner);
        },
        Notation::Binary { operator, left, right } => {},
    }
}

/// Where a notation that may stand as a factor is written, `factor` reads it
/// as its first operand and goes on with what follows.
pub proof fn lemma_factor_reads(kinds: Seq<SpecTokenKind>, at: nat, notation: Notation)
    requires
        notation.fits(1),
        written_at(kinds, at, notation.kinds()),
    ensures
        factor(kinds, at) == factor_tail(kinds, at + notation.kinds().len(), notation.tree()),
    decreases notation, 1nat,
{
    lemma_kinds_nonempty(notation);
    match notation {
        Notation::Binary { operator, left, right } => {
            let sign = seq![operator.kind()];
            lemma_written_parts(kinds, at, left.kinds() + sign, right.kinds());
            lemma_written_parts(kinds, at, left.kinds(), sign);
            let middle = (at + left.kinds().len()) as nat;
            assert(kinds[middle as int] == part_at(kinds, middle, 1)[0]);
            lemma_operator_kind(operator);
            lemma_factor_reads(kinds, at, *left);
            lemma_primary_reads(kinds, middle + 1, *right);
            lemma_kinds_nonempty(*right);
        },
        _ => {
            lemma_primary_reads(kinds, at, notation);
        },
    }
}

/// Where a notation that may stand as a term is written, and no `*` or `/`
/// follows it, `term` reads it as its first operand and goes on with what
/// follows.
pub proof fn lemma_term_reads(kinds: Seq<SpecTokenKind>, at: nat, notation: Notation)
    requires
        notation.fits(0),
        written_at(kinds, at, notation.kinds()),
        !multiplicative_at(kinds, at + notation.kinds().len()),
    ensures
        term(kinds, at) == term_tail(kinds, at + notation.kinds().len(), notation.tree()),
    decreases notation, 2nat,
{
    lemma_kinds_nonempty(notation);
    if notation.fits(1) {
        lemma_factor_reads(kinds, at, notation);
    } else {
        match notation {
            Notation::Binary { operator, left, right } => {
                let sign = seq![operator.kind()];
                lemma_written_parts(kinds, at, left.kinds() + sign, right.kinds());
                lemma_written_parts(kinds, at, left.kinds(), sign);
                let middle = (at + left.kinds().len()) as nat;
                assert(kinds[middle as int] == part_at(kinds, middle, 1)[0]);
                lemma_operator_kind(operator);
                lemma_term_reads(kinds, at, *left);
                lemma_factor_reads(kinds, middle + 1, *right);
                lemma_kinds_nonempty(*right);
            },
            _ => {},
        }
    }
}

/// Where a notation that may stand as an expression is written, and no
/// operator follows it, `expression` gives its tree and stops just after it.
pub proof fn lemma_expression_reads(kinds: Seq<SpecTokenKind>, at: nat, notation: Notation)
    requires
        notation.fits(0),
        written_at(kinds, at, notation.kinds()),
        !multiplicative_at(kinds, at + notation.kinds().len()),
        !additive_at(kinds, at + notation.kinds().len()),
    ensures
        expression(kinds, at) == (Parsed {
            tree: Some(notation.tree()),
            position: at + notation.kinds().len(),
        }),
    decreases notation, 3nat,
{
    lemma_term_reads(kinds, at, notation);
}

/// The parser reads what is written by the usual rules of precedence: of the
/// tokens of a notation that fits as an expression, followed by `EndOfFile`,
/// `program` gives the tree that the notation stands for, and consumes them
/// all.
pub proof fn lemma_program_reads(notation: Notation)
    requires
        notation.fits(0),
    ensures
        program(notation.kinds().push(SpecTokenKind::EndOfFile), 0) == (Parsed {
            tree: Some(notation.tree()),
            position: notation.kinds().len() + 1,
        }),
{
    let kinds = notation.kinds().push(SpecTokenKind::EndOfFile);
    assert(part_at(kinds, 0, notation.kinds().len()) == notation.kinds());
    lemma_expression_reads(kinds, 0, notation);
}

/// Whether `parsed`, the result of a parse from position `at`, is the
/// reading of `notation`: the notation fits the level, is written at `at`,
/// stands for the tree, and the parse stopped just after it.
pub open spec fn reads_as(
    kinds: Seq<SpecTokenKind>,
    at: nat,
    parsed: Parsed,
    notation: Notation,
    level: nat,
) -> bool {
    &&& notation.fits(level)
    &&& written_at(kinds, at, notation.kinds())
    &&& parsed.tree == Some(notation.tree())
    &&& parsed.position == at + notation.kinds().len()
}

/// An operand and what is written after an operator, joined by the operator.
proof fn lemma_operation_written(
    kinds: Seq<SpecTokenKind>,
    start: nat,
    left: Notation,
    right: Notation,
)
    requires
        written_at(kinds, start, left.kinds()),
        start + left.kinds().len() < kinds.len(),
        BinaryOperator::of_kind(kinds[(start + left.kinds().len()) as int]) is Some,
        written_at(kinds, start + left.kinds().len() + 1, right.kinds()),
    ensures
        ({
            let sign = kinds[(start + left.kinds().len()) as int];
            let whole = Notation::Binary {
                operator: BinaryOperator::of_kind(sign).unwrap(),
                left: Box::new(left),
                right: Box::new(right),
            };
            &&& written_at(kinds, start, whole.kinds())
            &&& whole.kinds().len() == left.kinds().len() + 1 + right.kinds().len()
            &&& whole.tree() == binary(sign, left.tree(), right.tree())
            &&& BinaryOperator::of_kind(sign).unwrap().is_multiplicative() == is_multiplicative(
                sign,
            )
        }),
{
    let middle = (start + left.kinds().len()) as nat;
    let sign = kinds[middle as int];
    let operator = BinaryOperator::of_kind(sign).unwrap();
    assert(operator.kind() == sign);
    assert(part_at(kinds, middle, 1) == seq![sign]);
    lemma_written_joined(kinds, start, left.kinds(), seq![sign]);
    lemma_written_joined(kinds, start, left.kinds() + seq![sign], right.kinds());
}

/// Whatever `primary` accepts is a notation that may stand as a primary.
pub proof fn lemma_primary_accepts(kinds: Seq<SpecTokenKind>, at: nat)
    ensures
        primary(kinds, at).tree is Some ==> exists|notation: Notation|
            reads_as(kinds, at, primary(kinds, at), notation, 2),
    decreases tokens_left(kinds, at), 0nat,
{
    let parsed = primary(kinds, at);
    if parsed.tree is Some {
        assert(part_at(kinds, at, 1) == seq![kinds[at as int]]);
        match kinds[at as int] {
            SpecTokenKind::Number(digits) => {
                assert(reads_as(kinds, at, parsed, Notation::Number(digits), 2));
            },
            SpecTokenKind::ParenLeft => {
                let next = (at + 1) as nat;
                let body = expression(kinds, next);
                lemma_expression_accepts(kinds, next);
                let inner = choose|inner: Notation| reads_as(kinds, next, body, inner, 0);
                let end = body.position;
                assert(part_at(kinds, end, 1) == seq![SpecTokenKind::ParenRight]);
                lemma_written_joined(kinds, at, seq![SpecTokenKind::ParenLeft], inner.kinds());
                lemma_written_joined(
                    kinds,
                    at,
                    seq![SpecTokenKind::ParenLeft] + inner.kinds(),
                    seq![SpecTokenKind::ParenRight],
                );
                assert(reads_as(kinds, at, parsed, Notation::Group(Box::new(inner)), 2));
            },
            _ => {},
        }
    }
}

/// Whatever `factor_tail` accepts after a factor is, with that factor, a
/// notation that may stand as a factor.
pub proof fn lemma_factor_tail_accepts(
    kinds: Seq<SpecTokenKind>,
    start: nat,
    at: nat,
    left: Notation,
)
    requires
        left.fits(1),
        written_at(kinds, start, left.kinds()),
        at == start + left.kinds().len(),
    ensures
        factor_tail(kinds, at, left.tree()).tree is Some ==> exists|notation: Notation|
            reads_as(kinds, start, factor_tail(kinds, at, left.tree()), notation, 1),
    decreases tokens_left(kinds, at), 0nat,
{
    let parsed = factor_tail(kinds, at, left.tree());
    if parsed.tree is Some {
        if at < kinds.len() && is_multiplicative(kinds[at as int]) {
            let next = (at + 1) as nat;
            let right = primary(kinds, next);
            lemma_primary_accepts(kinds, next);
            let operand = choose|operand: Notation| reads_as(kinds, next, right, operand, 2);
            lemma_operation_written(kinds, start, left, operand);
            let joined = Notation::Binary {
                operator: BinaryOperator::of_kind(kinds[at as int]).unwrap(),
                left: Box::new(left),
                right: Box::new(operand),
            };
            lemma_factor_tail_accepts(kinds, start, right.position, joined);
        } else {
            assert(reads_as(kinds, start, parsed, left, 1));
        }
    }
}

/// Whatever `factor` accepts is a notation that may stand as a factor.
pub proof fn lemma_factor_accepts(kinds: Seq<SpecTokenKind>, at: nat)
    ensures
        factor(kinds, at).tree is Some ==> exists|notation: Notation|
            reads_as(kinds, at, factor(kinds, at), notation, 1),
    decreases tokens_left(kinds, at), 1nat,
{
    if factor(kinds, at).tree is Some {
        let first = primary(kinds, at);
        lemma_primary_accepts(kinds, at);
        let operand = choose|operand: Notation| reads_as(kinds, at, first, operand, 2);
        lemma_factor_tail_accepts(kinds, at, first.position, operand);
    }
}

/// Whatever `term_tail` accepts after a term is, with that term, a notation
/// that may stand as a term.
pub proof fn lemma_term_tail_accepts(
    kinds: Seq<SpecTokenKind>,
    start: nat,
    at: nat,
    left: Notation,
)
    requires
        left.fits(0),
        written_at(kinds, start, left.kinds()),
        at == start + left.kinds().len(),
    ensures
        term_tail(kinds, at, left.tree()).tree is Some ==> exists|notation: Notation|
            reads_as(kinds, start, term_tail(kinds, at, left.tree()), notation, 0),
    decreases tokens_left(kinds, at), 0nat,
{
    let parsed = term_tail(kinds, at, left.tree());
    if parsed.tree is Some {
        if at < kinds.len() && is_additive(kinds[at as int]) {
            let next = (at + 1) as nat;
            let right = factor(kinds, next);
            lemma_factor_accepts(kinds, next);
            let operand = choose|operand: Notation| reads_as(kinds, next, right, operand, 1);
            lemma_operation_written(kinds, start, left, operand);
            let joined = Notation::Binary {
                operator: BinaryOperator::of_kind(kinds[at as int]).unwrap(),
                left: Box::new(left),
                right: Box::new(operand),
            };
            lemma_term_tail_accepts(kinds, start, right.position, joined);
        } else {
            assert(reads_as(kinds, start, parsed, left, 0));
        }
    }
}

/// Whatever `term` accepts is a notation that may stand as a term.
pub proof fn lemma_term_accepts(kinds: Seq<SpecTokenKind>, at: nat)
    ensures
        term(kinds, at).tree is Some ==> exists|notation: Notation|
            reads_as(kinds, at, term(kinds, at), notation, 0),
    decreases tokens_left(kinds, at), 2nat,
{
    if term(kinds, at).tree is Some {
        let first = factor(kinds, at);
        lemma_factor_accepts(kinds, at);
        let operand = choose|operand: Notation| reads_as(kinds, at, first, operand, 1);
        lemma_term_tail_accepts(kinds, at, first.position, operand);
    }
}

/// Whatever `expression` accepts is a notation that may stand as an
/// expression.
pub proof fn lemma_expression_accepts(kinds: Seq<SpecTokenKind>, at: nat)
    ensures
        expression(kinds, at).tree is Some ==> exists|notation: Notation|
            reads_as(kinds, at, expression(kinds, at), notation, 0),
    decreases tokens_left(kinds, at), 3nat,
{
    lemma_term_accepts(kinds, at);
}

/// Whether `notation` is what `program` has read of `kinds`: it fits as an
/// expression, stands for the tree that the parse gave, and the tokens that
/// the parse consumed are those of the notation, followed by `EndOfFile`.
pub open spec fn program_read(kinds: Seq<SpecTokenKind>, notation: Notation) -> bool {
    &&& notation.fits(0)
    &&& program(kinds, 0).tree == Some(notation.tree())
    &&& program(kinds, 0).position == notation.kinds().len() + 1
    &&& kinds.take(program(kinds, 0).position as int) == notation.kinds().push(
        SpecTokenKind::EndOfFile,
    )
}

/// The parser accepts nothing but what is written by the usual rules of
/// precedence: where `program` gives a tree, the tokens that it consumed are
/// those of a notation that fits as an expression and stands for that tree,
/// followed by `EndOfFile`.
pub proof fn lemma_program_accepts(kinds: Seq<SpecTokenKind>)
    ensures
        program(kinds, 0).tree is Some ==> exists|notation: Notation|
            program_read(kinds, notation),
{
    if program(kinds, 0).tree is Some {
        let body = expression(kinds, 0);
        lemma_expression_accepts(kinds, 0);
        let notation = choose|notation: Notation| reads_as(kinds, 0, body, notation, 0);
        assert(kinds.take((body.position + 1) as int) == part_at(
            kinds,
            0,
            notation.kinds().len(),
        ).push(kinds[body.position as int]));
        assert(program_read(kinds, notation));
    }
}

/// The grammar is unambiguous: two notations that are written with the same
/// tokens by the usual rules stand for the same tree.
pub proof fn lemma_unambiguous(first: Notation, second: Notation)
    requires
        first.fits(0),
        second.fits(0),
        first.kinds() == second.kinds(),
    ensures
        first.tree() == second.tree(),
{
    lemma_program_reads(first);
    lemma_program_reads(second);
}

impl Notation {
    /// What the notation amounts to in the arithmetic of all integers: a
    /// number is read in decimal, parentheses only group, and an operator is
    /// applied to what its operands amount to.
    pub open spec fn value(self) -> int
        decreases self,
    {
        match self {
            Notation::Number(digits) => decimal_value(digits) as int,
            Notation::Group(inner) => inner.value(),
            Notation::Binary { operator, left, right } => apply(
                operator,
                left.value(),
                right.value(),
            ),
        }
    }
}

/// A notation amounts to what its tree does.
pub proof fn lemma_value_of_tree(notation: Notation)
    ensures
        notation.value() == arithmetic(notation.tree()),
    decreases notation,
{
    match notation {
        Notation::Number(digits) => {},
        Notation::Group(inner) => {
            lemma_value_of_tree(*inner);
        },
        Notation::Binary { operator, left, right } => {
            lemma_value_of_tree(*left);
            lemma_value_of_tree(*right);
        },
    }
}

/// Parsing and then evaluating computes infix arithmetic. Of the tokens of a
/// notation that is written by the usual rules (`*` and `/` bind tighter than
/// `+` and `-`, and operators of one strength group to the left), followed by
/// `EndOfFile`, the parser gives a tree, and the value of that tree is what
/// the notation amounts to, unless a fault keeps it from having one.
pub proof fn lemma_parse_then_evaluate(notation: Notation)
    requires
        notation.fits(0),
    ensures
        program(notation.kinds().push(SpecTokenKind::EndOfFile), 0).tree matches Some(tree) && {
            &&& value_of(tree) is Ok <==> faultless(tree)
            &&& value_of(tree) is Ok ==> value_of(tree) == Ok::<int, EvalError>(notation.value())
        },
{
    lemma_program_reads(notation);
    lemma_value_is_arithmetic(notation.tree());
    lemma_value_of_tree(notation);
}

} // verus!
