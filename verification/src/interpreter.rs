//! One line of input from source text to value: lexing, the check for
//! characters that start no token, parsing and evaluation, with the first
//! failure ending the line.

use vstd::prelude::*;
use vstd::string::StringExecFns;
use crate::ast::Expression;
use crate::diagnostics::{
    diagnostic, render_diagnostic, unrecognized_token, unrecognized_token_message,
};
use crate::eval::{evaluate, lemma_well_formed_has_no_invalid_literal, value_of, EvalError};
use crate::grammar::{kinds_of, lemma_program_advances, program};
use crate::lexer::{
    lemma_end_of_file_once, lemma_token_ranges, lex, tokens_of, LexerState, SpecToken,
    SpecTokenKind, Token, TokenKind,
};
use crate::notation::{lemma_program_accepts, program_read, Notation};
use crate::parser::{ParseError, Parser};
use crate::rendering::{is_well_written, lemma_numerals_of_kinds};

verus! {

/// Why a line has no value.
#[derive(Debug, PartialEq, Eq)]
pub enum Failure {
    /// The line holds a character that starts no token. `offender` is the
    /// first token of that kind, and `character` the character it holds.
    Unrecognized { offender: Token, character: char },
    /// The tokens break the grammar. `offender` is the token at which the
    /// parse failed: the last one that the parser consumed.
    Syntax { error: ParseError, offender: Token },
    /// The expression cannot be evaluated.
    Fault(EvalError),
}

impl Failure {
    /// What is shown for the failure of a line with the given source: for a
    /// character that starts no token and for a breach of the grammar the
    /// diagnostic that points at the offending token, for a fault in the
    /// evaluation its message.
    pub open spec fn description(self, source: Seq<char>) -> Seq<char> {
        match self {
            Failure::Unrecognized { offender, character } => diagnostic(
                source,
                offender.start as nat,
                unrecognized_token(character),
            ),
            Failure::Syntax { error, offender } => diagnostic(
                source,
                offender.start as nat,
                error.text(),
            ),
            Failure::Fault(error) => error.text(),
        }
    }

    /// What is shown for the failure of the line `source`.
    pub fn describe(&self, source: &str) -> (text: String)
        ensures
            text@ == self.description(source@),
    {
        match self {
            Failure::Unrecognized { offender, character } => {
                let message = unrecognized_token_message(*character);
                render_diagnostic(source, offender.start, message.as_str())
            },
            Failure::Syntax { error, offender } => render_diagnostic(
                source,
                offender.start,
                error.message(),
            ),
            Failure::Fault(error) => String::from_str(error.message()),
        }
    }
}

/// What a line amounts to: its tokens, its tree and its value.
#[derive(Debug, PartialEq, Eq)]
pub struct Report {
    pub tokens: Vec<Token>,
    pub tree: Expression,
    pub value: i32,
}

/// The index of the first token at or after index `from` that holds a
/// character that starts no token, or the number of tokens if there is none.
pub open spec fn first_invalid(tokens: Seq<SpecToken>, from: int) -> int
    decreases tokens.len() - from,
{
    if 0 <= from < tokens.len() && !(tokens[from].kind is Invalid) {
        first_invalid(tokens, from + 1)
    } else {
        from
    }
}

/// What a line comes to. The first token that holds a character that starts
/// no token ends the line, whatever follows it; else a breach of the grammar
/// does, at the last token that the parser consumed; else a fault in the
/// evaluation.
pub open spec fn outcome_of(source: Seq<char>, outcome: Result<Report, Failure>) -> bool {
    let tokens = tokens_of(source);
    let first = first_invalid(tokens, 0);
    let parsed = program(kinds_of(tokens), 0);
    match outcome {
        Err(Failure::Unrecognized { offender, character }) => {
            &&& 0 <= first < tokens.len()
            &&& offender@ == tokens[first]
            &&& offender@.kind == SpecTokenKind::Invalid(character)
        },
        Err(Failure::Syntax { error, offender }) => {
            &&& first == tokens.len()
            &&& parsed.tree is None
            &&& 1 <= parsed.position <= tokens.len()
            &&& offender@ == tokens[parsed.position - 1]
        },
        Err(Failure::Fault(error)) => {
            &&& first == tokens.len()
            &&& parsed.tree matches Some(tree)
            &&& value_of(tree) == Err::<int, EvalError>(error)
            &&& !(error is InvalidLiteral)
        },
        Ok(report) => {
            &&& first == tokens.len()
            &&& report.tokens.deep_view() == tokens
            &&& parsed.tree == Some(report.tree@)
            &&& value_of(report.tree@) == Ok::<int, EvalError>(report.value as int)
        },
    }
}

/// What the parser makes of the tokens of a source is well formed: every
/// literal is one or more digits, so that no evaluation of it fails for an
/// invalid literal.
pub proof fn lemma_parsed_source_is_well_formed(source: Seq<char>)
    ensures
        program(kinds_of(tokens_of(source)), 0).tree matches Some(tree) ==> {
            &&& tree.well_formed()
            &&& value_of(tree) != Err::<int, EvalError>(EvalError::InvalidLiteral)
        },
{
    let tokens = tokens_of(source);
    let kinds = kinds_of(tokens);
    let parsed = program(kinds, 0);
    if parsed.tree is Some {
        lemma_program_accepts(kinds);
        let notation = choose|notation: Notation| program_read(kinds, notation);
        let written = notation.kinds();
        assert forall|i: int| 0 <= i < written.len() implies is_well_written(
            #[trigger] written[i],
        ) by {
            assert(written[i] == written.push(SpecTokenKind::EndOfFile)[i]);
            assert(kinds.take(parsed.position as int)[i] == kinds[i]);
            assert(kinds[i] == tokens[i].kind);
            lemma_token_ranges(source, 0, i);
        }
        lemma_numerals_of_kinds(notation);
        lemma_well_formed_has_no_invalid_literal(notation.tree());
    }
}

/// The index of the first of `tokens` that holds a character that starts no
/// token, with that character.
fn find_invalid(tokens: &Vec<Token>) -> (found: Option<(usize, char)>)
    ensures
        match found {
            Some((i, character)) => {
                &&& i < tokens.len()
                &&& i == first_invalid(tokens.deep_view(), 0)
                &&& tokens[i as int].kind == TokenKind::Invalid(character)
            },
            None => first_invalid(tokens.deep_view(), 0) == tokens.len(),
        },
{
    let mut i: usize = 0;
    assert(tokens.deep_view().len() == tokens.len());
    while i < tokens.len()
        invariant
            i <= tokens.len(),
            tokens.deep_view().len() == tokens.len(),
            first_invalid(tokens.deep_view(), i as int) == first_invalid(tokens.deep_view(), 0),
        decreases tokens.len() - i,
    {
        assert(tokens.deep_view()[i as int] == tokens[i as int]@);
        match &tokens[i].kind {
            TokenKind::Invalid(character) => {
                return Some((i, *character));
            },
            _ => {},
        }
        i = i + 1;
    }
    None
}

/// Takes one line from source text to value.
pub fn interpret(source: &str) -> (outcome: Result<Report, Failure>)
    ensures
        outcome_of(source@, outcome),
{
    let tokens = lex(source);
    if let Some((i, character)) = find_invalid(&tokens) {
        assert(tokens.deep_view()[i as int] == tokens[i as int]@);
        return Err(Failure::Unrecognized { offender: tokens[i].clone(), character });
    }
    let copy = tokens.clone();
    assert(copy.deep_view() == tokens.deep_view());
    let mut parser = Parser::new(copy);
    let tree = match parser.parse() {
        Ok(tree) => tree,
        Err(error) => {
            proof {
                lemma_end_of_file_once(LexerState::initial(source@), 0);
                lemma_program_advances(kinds_of(tokens_of(source@)), 0);
            }
            let at = parser.position();
            assert(tokens.deep_view()[at - 1] == tokens[at - 1]@);
            return Err(Failure::Syntax { error, offender: tokens[at - 1].clone() });
        },
    };
    proof {
        lemma_parsed_source_is_well_formed(source@);
    }
    match evaluate(tree.clone()) {
        Ok(value) => Ok(Report { tokens, tree, value }),
        Err(error) => Err(Failure::Fault(error)),
    }
}

} // verus!
