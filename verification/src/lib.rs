//! A front end for a small language of arithmetic expressions: a line such
//! as `1 + 2 * 3` is cut into tokens, parsed into a tree by precedence, and
//! evaluated to a number; a line that cannot be is answered with a diagnostic
//! that points into it.
//!
//! The stages, in the order in which a line passes through them:
//!
//! - [`lexer`]: tokens with their byte ranges, handed out one per request;
//! - [`parser`]: recursive descent over the tokens, by the rules that
//!   [`grammar`] states as functions on token kinds;
//! - [`eval`]: a walk over the tree in checked 32-bit arithmetic;
//! - [`diagnostics`]: from a byte offset to line, column and excerpt;
//! - [`interpreter`]: all of the above for one line.
//!
//! [`notation`] and [`rendering`] hold what ties the stages together: which
//! sequences of tokens the parser accepts and what it makes of them, and that
//! the source text of a tree parses back to the tree.

pub mod ast;
pub mod diagnostics;
pub mod eval;
pub mod grammar;
pub mod interpreter;
pub mod lexer;
pub mod notation;
pub mod parser;
pub mod rendering;
pub mod repl;
pub mod text;
