//! Expressions as source text: the text of a notation, the source text of a
//! tree, and the law that the text lexes and parses back to the tree.

use vstd::prelude::*;
use vstd::string::StringExecFns;
use crate::ast::{BinaryOperator, Expression, SpecExpression};
use crate::grammar::{kinds_of, program};
use crate::lexer::{
    digits_end, kind_at, token_at, tokens_from, tokens_of, SpecToken, SpecTokenKind,
};
use crate::notation::{
    lemma_program_reads, lemma_written_parts, part_at, written_at, Notation,
};
use crate::text::{is_digit, is_numeral, is_white_space};

verus! {

impl Notation {
    /// Whether every number in the notation is written as one or more digits.
    pub open spec fn numerals(self) -> bool
        decreases self,
    {
        match self {
            Notation::Number(digits) => is_numeral(digits),
            Notation::Group(inner) => inner.numerals(),
            Notation::Binary { left, right, .. } => left.numerals() && right.numerals(),
        }
    }

    /// The notation as source text: parentheses hug what they hold, and one
    /// space stands on either side of an operator.
    pub open spec fn text(self) -> Seq<char>
        decreases self,
    {
        match self {
            Notation::Number(digits) => digits,
            Notation::Group(inner) => seq!['('] + inner.text() + seq![')'],
            Notation::Binary { operator, left, right } => left.text() + seq![' ']
                + operator.kind().text() + seq![' '] + right.text(),
        }
    }
}

impl SpecExpression {
    /// The notation of the tree that has no parentheses but those that the
    /// place it stands in calls for: a term (`level` 0), a factor (1) or a
    /// primary (2).
    pub open spec fn notation(self, level: nat) -> Notation
        decreases self,
    {
        match self {
            SpecExpression::IntegerLiteral(digits) => Notation::Number(digits),
            SpecExpression::Binary { operator, left, right } => {
                let strength: nat = if operator.is_multiplicative() {
                    1
                } else {
                    0
                };
                let bare = Notation::Binary {
                    operator,
                    left: Box::new(left.notation(strength)),
                    right: Box::new(right.notation(strength + 1)),
                };
                if level > strength {
                    Notation::Group(Box::new(bare))
                } else {
                    bare
                }
            },
        }
    }

    /// The tree as source text, with no more parentheses than it needs.
    pub open spec fn source(self) -> Seq<char> {
        self.notation(0).text()
    }
}

/// The notation of a tree fits the place it was made for, stands for the
/// tree, and has numerals where the tree has them.
pub proof fn lemma_notation_fits(tree: SpecExpression, level: nat)
    requires
        level <= 2,
    ensures
        tree.notation(level).fits(level),
        tree.notation(level).tree() == tree,
        tree.well_formed() ==> tree.notation(level).numerals(),
    decreases tree,
{
    match tree {
        SpecExpression::IntegerLiteral(digits) => {},
        SpecExpression::Binary { operator, left, right } => {
            let strength: nat = if operator.is_multiplicative() {
                1
            } else {
                0
            };
            lemma_notation_fits(*left, strength);
            lemma_notation_fits(*right, strength + 1);
            let bare = Notation::Binary {
                operator,
                left: Box::new(left.notation(strength)),
                right: Box::new(right.notation(strength + 1)),
            };
            assert(bare.fits(strength));
            assert(bare.fits(0));
            assert(bare.tree() == tree);
            assert(tree.well_formed() ==> bare.numerals());
        },
    }
}

/// Whether `kind`, if it is a number, is one or more digits.
pub open spec fn is_well_written(kind: SpecTokenKind) -> bool {
    kind matches SpecTokenKind::Number(digits) ==> is_numeral(digits)
}

/// Whether every number among `kinds` is one or more digits.
pub open spec fn all_numerals(kinds: Seq<SpecTokenKind>) -> bool {
    forall|i: int| 0 <= i < kinds.len() ==> is_well_written(#[trigger] kinds[i])
}

/// A notation has numerals for its numbers exactly if its tokens have, and
/// exactly if the tree that it stands for is well formed.
pub proof fn lemma_numerals_of_kinds(notation: Notation)
    ensures
        notation.numerals() <==> all_numerals(notation.kinds()),
        notation.numerals() <==> notation.tree().well_formed(),
    decreases notation,
{
    let kinds = notation.kinds();
    match notation {
        Notation::Number(digits) => {
            assert(kinds[0] == SpecTokenKind::Number(digits));
        },
        Notation::Group(inner) => {
            lemma_numerals_of_kinds(*inner);
            let within = inner.kinds();
            if all_numerals(kinds) {
                assert forall|i: int| 0 <= i < within.len() implies is_well_written(
                    #[trigger] within[i],
                ) by {
                    assert(within[i] == kinds[i + 1]);
                }
            }
            if all_numerals(within) {
                assert forall|i: int| 0 <= i < kinds.len() implies is_well_written(
                    #[trigger] kinds[i],
                ) by {
                    if 0 < i <= within.len() {
                        assert(kinds[i] == within[i - 1]);
                    }
                }
            }
        },
        Notation::Binary { operator, left, right } => {
            lemma_numerals_of_kinds(*left);
            lemma_numerals_of_kinds(*right);
            let first = left.kinds();
            let second = right.kinds();
            let shift = first.len() + 1;
            assert(!(operator.kind() is Number));
            if all_numerals(kinds) {
                assert forall|i: int| 0 <= i < first.len() implies is_well_written(
                    #[trigger] first[i],
                ) by {
                    assert(first[i] == kinds[i]);
                }
                assert forall|i: int| 0 <= i < second.len() implies is_well_written(
                    #[trigger] second[i],
                ) by {
                    assert(second[i] == kinds[i + shift]);
                }
            }
            if all_numerals(first) && all_numerals(second) {
                assert forall|i: int| 0 <= i < kinds.len() implies is_well_written(
                    #[trigger] kinds[i],
                ) by {
                    if i < first.len() {
                        assert(kinds[i] == first[i]);
                    } else if i >= shift {
                        assert(kinds[i] == second[i - shift]);
                    }
                }
            }
        },
    }
}

/// A digit is neither white space nor an operator nor a parenthesis.
pub proof fn lemma_digit_is_only_digit(c: char)
    requires
        is_digit(c),
    ensures
        !is_white_space(c),
        c != '+' && c != '-' && c != '*' && c != '/' && c != '(' && c != ')',
{
}

/// A run of digits that ends before a character that is no digit, or at the
/// end of the source, ends where `digits_end` says.
pub proof fn lemma_digits_run(source: Seq<char>, from: int, to: int)
    requires
        0 <= from <= to <= source.len(),
        forall|i: int| from <= i < to ==> is_digit(#[trigger] source[i]),
        to < source.len() ==> !is_digit(source[to]),
    ensures
        digits_end(source, from) == to,
    decreases to - from,
{
    if from < to {
        lemma_digits_run(source, from + 1, to);
    }
}

/// The kinds of two runs of tokens, one after the other.
pub proof fn lemma_kinds_of_concat(first: Seq<SpecToken>, second: Seq<SpecToken>)
    ensures
        kinds_of(first + second) == kinds_of(first) + kinds_of(second),
{
    assert(kinds_of(first + second) =~= kinds_of(first) + kinds_of(second));
}

/// White space before a token does not change the tokens.
pub proof fn lemma_space_is_skipped(source: Seq<char>, at: int)
    requires
        0 <= at < source.len(),
        is_white_space(source[at]),
    ensures
        tokens_from(source, at) == tokens_from(source, at + 1),
{
}

/// Where a character that is a token by itself stands, the lexer yields that
/// token and goes on after it.
pub proof fn lemma_lexer_reads_symbol(source: Seq<char>, at: int, kind: SpecTokenKind)
    requires
        0 <= at < source.len(),
        kind is Plus || kind is Minus || kind is Star || kind is Slash || kind is ParenLeft
            || kind is ParenRight,
        kind.text() == seq![source[at]],
    ensures
        kinds_of(tokens_from(source, at)) == seq![kind] + kinds_of(tokens_from(source, at + 1)),
{
    let c = source[at];
    assert(kind.text()[0] == c);
    assert(!is_white_space(c));
    assert(!is_digit(c));
    assert(kind_at(source, at) == kind);
    lemma_kinds_of_concat(seq![token_at(source, at)], tokens_from(source, at + 1));
    assert(kinds_of(seq![token_at(source, at)]) == seq![kind]);
}

/// Where the digits of a number stand in a source, and no digit follows
/// them, the lexer yields the number and goes on after it.
pub proof fn lemma_lexer_reads_number(source: Seq<char>, at: nat, digits: Seq<char>)
    requires
        is_numeral(digits),
        written_at(source, at, digits),
        at + digits.len() < source.len() ==> !is_digit(source[(at + digits.len()) as int]),
    ensures
        kinds_of(tokens_from(source, at as int)) == seq![SpecTokenKind::Number(digits)] + kinds_of(
            tokens_from(source, (at + digits.len()) as int),
        ),
{
    let start = at as int;
    let end = start + digits.len();
    assert forall|i: int| start <= i < end implies is_digit(#[trigger] source[i]) by {
        assert(source[i] == part_at(source, at, digits.len())[i - start]);
    }
    lemma_digit_is_only_digit(source[start]);
    lemma_digits_run(source, start + 1, end);
    assert(kind_at(source, start) == SpecTokenKind::Number(digits));
    lemma_kinds_of_concat(seq![token_at(source, start)], tokens_from(source, end));
    assert(kinds_of(seq![token_at(source, start)]) == seq![SpecTokenKind::Number(digits)]);
}

/// Where `opening`, `inner` and `closing` stand one after the other, each of
/// them stands at its place.
pub proof fn lemma_written_between<A>(
    whole: Seq<A>,
    at: nat,
    opening: A,
    inner: Seq<A>,
    closing: A,
)
    requires
        written_at(whole, at, seq![opening] + inner + seq![closing]),
    ensures
        at + inner.len() + 2 <= whole.len(),
        whole[at as int] == opening,
        written_at(whole, at + 1, inner),
        whole[(at + 1 + inner.len()) as int] == closing,
{
    lemma_written_parts(whole, at, seq![opening] + inner, seq![closing]);
    lemma_written_parts(whole, at, seq![opening], inner);
    let end = (at + 1 + inner.len()) as nat;
    assert(whole[at as int] == part_at(whole, at, 1)[0]);
    assert(whole[end as int] == part_at(whole, end, 1)[0]);
}

/// Where two operands stand with an operator between them, a space on
/// either side of it, each of the five stands at its place.
pub proof fn lemma_written_operation(
    source: Seq<char>,
    at: nat,
    left: Seq<char>,
    sign: char,
    right: Seq<char>,
)
    requires
        written_at(source, at, left + seq![' '] + seq![sign] + seq![' '] + right),
    ensures
        at + left.len() + 3 + right.len() <= source.len(),
        written_at(source, at, left),
        source[(at + left.len()) as int] == ' ',
        source[(at + left.len() + 1) as int] == sign,
        source[(at + left.len() + 2) as int] == ' ',
        written_at(source, at + left.len() + 3, right),
{
    let space = seq![' '];
    let symbol = seq![sign];
    lemma_written_parts(source, at, left + space + symbol + space, right);
    lemma_written_parts(source, at, left + space + symbol, space);
    lemma_written_parts(source, at, left + space, symbol);
    lemma_written_parts(source, at, left, space);
    let gap = (at + left.len()) as nat;
    assert(source[gap as int] == part_at(source, gap, 1)[0]);
    assert(source[(gap + 1) as int] == part_at(source, (gap + 1) as nat, 1)[0]);
    assert(source[(gap + 2) as int] == part_at(source, (gap + 2) as nat, 1)[0]);
}

/// Where the text of a notation stands in a source, and no digit follows it,
/// the lexer yields the tokens of the notation and goes on after the text.
pub proof fn lemma_lexer_reads(source: Seq<char>, at: nat, notation: Notation)
    requires
        notation.numerals(),
        written_at(source, at, notation.text()),
        at + notation.text().len() < source.len() ==> !is_digit(
            source[(at + notation.text().len()) as int],
        ),
    ensures
        kinds_of(tokens_from(source, at as int)) == notation.kinds() + kinds_of(
            tokens_from(source, (at + notation.text().len()) as int),
        ),
    decreases notation,
{
    match notation {
        Notation::Number(digits) => {
            lemma_lexer_reads_number(source, at, digits);
        },
        Notation::Group(inner) => {
            lemma_written_between(source, at, '(', inner.text(), ')');
            let end = (at + 1 + inner.text().len()) as int;
            lemma_lexer_reads_symbol(source, at as int, SpecTokenKind::ParenLeft);
            lemma_lexer_reads(source, at + 1, *inner);
            lemma_lexer_reads_symbol(source, end, SpecTokenKind::ParenRight);
            assert(notation.text().len() == inner.text().len() + 2);
            assert(notation.kinds() + kinds_of(tokens_from(source, end + 1)) == seq![
                SpecTokenKind::ParenLeft,
            ] + (inner.kinds() + (seq![SpecTokenKind::ParenRight] + kinds_of(
                tokens_from(source, end + 1),
            ))));
        },
        Notation::Binary { operator, left, right } => {
            let sign = operator.kind().text()[0];
            assert(operator.kind().text() == seq![sign]);
            lemma_written_operation(source, at, left.text(), sign, right.text());
            let gap = (at + left.text().len()) as int;
            lemma_lexer_reads(source, at, *left);
            lemma_space_is_skipped(source, gap);
            lemma_lexer_reads_symbol(source, gap + 1, operator.kind());
            lemma_space_is_skipped(source, gap + 2);
            lemma_lexer_reads(source, (gap + 3) as nat, *right);
            let end = gap + 3 + right.text().len();
            assert(notation.text().len() == left.text().len() + 3 + right.text().len());
            assert(notation.kinds() + kinds_of(tokens_from(source, end)) == left.kinds() + (seq![
                operator.kind(),
            ] + (right.kinds() + kinds_of(tokens_from(source, end)))));
        },
    }
}

/// Lexing the text of a notation gives back the tokens that it is written
/// with, and `EndOfFile` after them.
pub proof fn lemma_lexing_text(notation: Notation)
    requires
        notation.numerals(),
    ensures
        kinds_of(tokens_of(notation.text())) == notation.kinds().push(SpecTokenKind::EndOfFile),
{
    let source = notation.text();
    assert(part_at(source, 0, source.len()) == source);
    lemma_lexer_reads(source, 0, notation);
    assert(kinds_of(tokens_from(source, source.len() as int)) == seq![SpecTokenKind::EndOfFile]);
}

/// The text of a notation that is written by the usual rules, with or
/// without parentheses that it could do without, lexes and parses to the
/// tree that the notation stands for, and the parse consumes every token.
pub proof fn lemma_text_parses(notation: Notation)
    requires
        notation.fits(0),
        notation.numerals(),
    ensures
        program(kinds_of(tokens_of(notation.text())), 0).tree == Some(notation.tree()),
        program(kinds_of(tokens_of(notation.text())), 0).position == tokens_of(
            notation.text(),
        ).len(),
{
    lemma_lexing_text(notation);
    lemma_program_reads(notation);
}

/// Round trip: the source text of a tree whose literals are numerals lexes
/// and parses back to the same tree, and the parse consumes every token.
pub proof fn lemma_round_trip(tree: SpecExpression)
    requires
        tree.well_formed(),
    ensures
        program(kinds_of(tokens_of(tree.source())), 0).tree == Some(tree),
        program(kinds_of(tokens_of(tree.source())), 0).position == tokens_of(tree.source()).len(),
{
    lemma_notation_fits(tree, 0);
    lemma_text_parses(tree.notation(0));
}

/// The character that an operator is written as.
fn symbol_of(operator: BinaryOperator) -> (symbol: char)
    ensures
        operator.kind().text() == seq![symbol],
{
    match operator {
        BinaryOperator::Plus => '+',
        BinaryOperator::Minus => '-',
        BinaryOperator::Times => '*',
        BinaryOperator::Divided => '/',
    }
}

/// Appends to `out` the source text of `expr` for a place that asks for a
/// term (`level` 0), a factor (1) or a primary (2).
fn write_source(expr: &Expression, level: u8, out: &mut String)
    requires
        level <= 2,
    ensures
        final(out)@ == old(out)@ + expr@.notation(level as nat).text(),
    decreases expr,
{
    match expr {
        Expression::IntegerLiteral(digits) => {
            out.append(digits.as_str());
        },
        Expression::Binary { operator, left, right } => {
            let strength: u8 = match operator {
                BinaryOperator::Times | BinaryOperator::Divided => 1,
                _ => 0,
            };
            let ghost bare = Notation::Binary {
                operator: *operator,
                left: Box::new(left@.notation(strength as nat)),
                right: Box::new(right@.notation((strength + 1) as nat)),
            };
            let ghost before = out@;
            if level > strength {
                out.push('(');
            }
            let ghost opened = out@;
            write_source(left, strength, out);
            out.push(' ');
            out.push(symbol_of(*operator));
            out.push(' ');
            write_source(right, strength + 1, out);
            assert(out@ == opened + bare.text());
            if level > strength {
                out.push(')');
                assert(out@ == before + Notation::Group(Box::new(bare)).text());
            }
        },
    }
}

/// The source text of `expr`, with one space on either side of each operator
/// and no parentheses but those that precedence and grouping to the left
/// call for.
pub fn to_source(expr: &Expression) -> (text: String)
    ensures
        text@ == expr@.source(),
{
    let mut text = String::new();
    write_source(expr, 0, &mut text);
    text
}

} // verus!
