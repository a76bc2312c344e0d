//! The recursive-descent parser: one function for each rule of the grammar,
//! over a sequence of tokens with one token of lookahead.

use vstd::prelude::*;
use crate::ast::{BinaryOperator, Expression, SpecExpression};
use crate::grammar::{
    expression, factor, factor_tail, kinds_of, primary, program, term, term_tail, tokens_left,
    Parsed,
};
use crate::grammar::{lemma_factor_advances, lemma_primary_advances};
use crate::lexer::{SpecToken, SpecTokenKind, Token, TokenKind};

verus! {

/// Why a parse failed.
#[derive(Clone, Copy, Debug, PartialEq, Eq, Structural)]
pub enum ParseError {
    /// The tokens break the grammar.
    Syntax,
}

impl ParseError {
    /// The message for the error.
    pub open spec fn text(self) -> Seq<char> {
        "syntax error"@
    }

    /// The message for the error.
    pub fn message(&self) -> (message: &'static str)
        ensures
            message@ == self.text(),
    {
        "syntax error"
    }
}

/// The tree that a parser's result holds, if it holds one.
pub open spec fn tree_of(result: Result<Expression, ParseError>) -> Option<SpecExpression> {
    match result {
        Ok(tree) => Some(tree@),
        Err(_) => None,
    }
}

/// What a parser is at any moment: its tokens and how many it has consumed.
pub struct ParserState {
    pub tokens: Seq<SpecToken>,
    pub position: nat,
}

impl ParserState {
    /// The kinds of the tokens, which are all that the grammar looks at.
    pub open spec fn kinds(self) -> Seq<SpecTokenKind> {
        kinds_of(self.tokens)
    }

    /// The state in which a parse that started in `self` leaves the parser.
    pub open spec fn moved_by(self, parsed: Parsed) -> ParserState {
        ParserState { tokens: self.tokens, position: parsed.position }
    }
}

/// The parser.
pub struct Parser {
    tokens: Vec<Token>,
    position: usize,
}

impl View for Parser {
    type V = ParserState;

    closed spec fn view(&self) -> ParserState {
        ParserState { tokens: self.tokens.deep_view(), position: self.position as nat }
    }
}

impl Parser {
    /// A parser at the start of `tokens`.
    pub fn new(tokens: Vec<Token>) -> (parser: Parser)
        ensures
            parser@.tokens == tokens.deep_view(),
            parser@.position == 0,
    {
        Parser { tokens, position: 0 }
    }

    /// The number of tokens consumed so far. After a failed parse the token
    /// before this position, if there is one, is the last one consumed.
    pub fn position(&self) -> (position: usize)
        ensures
            position == self@.position,
    {
        self.position
    }

    /// The kind of the next token, which stays where it is; `None` when all
    /// tokens have been consumed.
    pub fn peek_kind(&mut self) -> (kind: Option<&TokenKind>)
        ensures
            final(self)@ == old(self)@,
            match kind {
                Some(k) => {
                    &&& old(self)@.position < old(self)@.tokens.len()
                    &&& k@ == old(self)@.kinds()[old(self)@.position as int]
                },
                None => old(self)@.position >= old(self)@.tokens.len(),
            },
    {
        if self.position < self.tokens.len() {
            Some(&self.tokens[self.position].kind)
        } else {
            None
        }
    }

    /// Parses a whole input: one expression, then `EndOfFile`. The token after
    /// the expression is consumed whatever it is.
    pub fn parse(&mut self) -> (result: Result<Expression, ParseError>)
        ensures
            tree_of(result) == program(old(self)@.kinds(), old(self)@.position).tree,
            final(self)@ == old(self)@.moved_by(program(old(self)@.kinds(), old(self)@.position)),
    {
        let body = match self.parse_expression() {
            Ok(body) => body,
            Err(error) => {
                return Err(error);
            },
        };
        if self.position < self.tokens.len() {
            let at = self.position;
            self.position = at + 1;
            match &self.tokens[at].kind {
                TokenKind::EndOfFile => Ok(body),
                _ => Err(ParseError::Syntax),
            }
        } else {
            Err(ParseError::Syntax)
        }
    }

    /// Parses `expression := term`.
    pub fn parse_expression(&mut self) -> (result: Result<Expression, ParseError>)
        ensures
            tree_of(result) == expression(old(self)@.kinds(), old(self)@.position).tree,
            final(self)@ == old(self)@.moved_by(
                expression(old(self)@.kinds(), old(self)@.position),
            ),
        decreases tokens_left(old(self)@.kinds(), old(self)@.position), 3nat,
    {
        self.parse_term()
    }

    /// Parses `term := factor ( ('+' | '-') factor )*`, folding to the left.
    pub fn parse_term(&mut self) -> (result: Result<Expression, ParseError>)
        ensures
            tree_of(result) == term(old(self)@.kinds(), old(self)@.position).tree,
            final(self)@ == old(self)@.moved_by(term(old(self)@.kinds(), old(self)@.position)),
        decreases tokens_left(old(self)@.kinds(), old(self)@.position), 2nat,
    {
        let ghost kinds = self@.kinds();
        let ghost start = self@.position;
        proof {
            lemma_factor_advances(kinds, start);
        }
        let mut left = match self.parse_factor() {
            Ok(first) => first,
            Err(error) => {
                return Err(error);
            },
        };
        loop
            invariant
                self@.tokens == old(self)@.tokens,
                kinds == old(self)@.kinds(),
                start == old(self)@.position,
                start < self@.position,
                term(kinds, start) == term_tail(kinds, self@.position, left@),
            decreases tokens_left(kinds, self@.position),
        {
            let operator = match self.peek_kind() {
                Some(kind) => match BinaryOperator::from_token_kind(kind) {
                    Some(BinaryOperator::Plus) => BinaryOperator::Plus,
                    Some(BinaryOperator::Minus) => BinaryOperator::Minus,
                    _ => {
                        return Ok(left);
                    },
                },
                None => {
                    return Ok(left);
                },
            };
            let ghost at = self@.position;
            assert(self.position < self.tokens.len()) by {
                assert(self.tokens.deep_view().len() == self.tokens.len());
            }
            self.position = self.position + 1;
            proof {
                lemma_factor_advances(kinds, at + 1);
            }
            let right = match self.parse_factor() {
                Ok(right) => right,
                Err(error) => {
                    return Err(error);
                },
            };
            left = Expression::Binary { operator, left: Box::new(left), right: Box::new(right) };
        }
    }

    /// Parses `factor := primary ( ('*' | '/') primary )*`, folding to the left.
    pub fn parse_factor(&mut self) -> (result: Result<Expression, ParseError>)
        ensures
            tree_of(result) == factor(old(self)@.kinds(), old(self)@.position).tree,
            final(self)@ == old(self)@.moved_by(factor(old(self)@.kinds(), old(self)@.position)),
        decreases tokens_left(old(self)@.kinds(), old(self)@.position), 1nat,
    {
        let ghost kinds = self@.kinds();
        let ghost start = self@.position;
        proof {
            lemma_primary_advances(kinds, start);
        }
        let mut left = match self.parse_primary() {
            Ok(first) => first,
            Err(error) => {
                return Err(error);
            },
        };
        loop
            invariant
                self@.tokens == old(self)@.tokens,
                kinds == old(self)@.kinds(),
                start == old(self)@.position,
                start < self@.position,
                factor(kinds, start) == factor_tail(kinds, self@.position, left@),
            decreases tokens_left(kinds, self@.position),
        {
            let operator = match self.peek_kind() {
                Some(kind) => match BinaryOperator::from_token_kind(kind) {
                    Some(BinaryOperator::Times) => BinaryOperator::Times,
                    Some(BinaryOperator::Divided) => BinaryOperator::Divided,
                    _ => {
                        return Ok(left);
                    },
                },
                None => {
                    return Ok(left);
                },
            };
            let ghost at = self@.position;
            assert(self.position < self.tokens.len()) by {
                assert(self.tokens.deep_view().len() == self.tokens.len());
            }
            self.position = self.position + 1;
            proof {
                lemma_primary_advances(kinds, at + 1);
            }
            let right = match self.parse_primary() {
                Ok(right) => right,
                Err(error) => {
                    return Err(error);
                },
            };
            left = Expression::Binary { operator, left: Box::new(left), right: Box::new(right) };
        }
    }

    /// Parses `primary := Number | '(' expression ')'`. The next token is
    /// consumed whatever it is, and so is the token after a parenthesised
    /// expression.
    pub fn parse_primary(&mut self) -> (result: Result<Expression, ParseError>)
        ensures
            tree_of(result) == primary(old(self)@.kinds(), old(self)@.position).tree,
            final(self)@ == old(self)@.moved_by(primary(old(self)@.kinds(), old(self)@.position)),
        decreases tokens_left(old(self)@.kinds(), old(self)@.position), 0nat,
    {
        if self.position >= self.tokens.len() {
            return Err(ParseError::Syntax);
        }
        let at = self.position;
        self.position = at + 1;
        match &self.tokens[at].kind {
            TokenKind::ParenLeft => {
                let body = match self.parse_expression() {
                    Ok(body) => body,
                    Err(error) => {
                        return Err(error);
                    },
                };
                if self.position < self.tokens.len() {
                    let closing = self.position;
                    self.position = closing + 1;
                    match &self.tokens[closing].kind {
                        TokenKind::ParenRight => Ok(body),
                        _ => Err(ParseError::Syntax),
                    }
                } else {
                    Err(ParseError::Syntax)
                }
            },
            TokenKind::Number(digits) => Ok(Expression::IntegerLiteral(digits.clone())),
            _ => Err(ParseError::Syntax),
        }
    }
}

} // verus!
