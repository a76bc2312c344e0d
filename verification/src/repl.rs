//! The colors of the terminal output.

use vstd::prelude::*;

verus! {

/// Specialized foreground colors for terminal text.
///
/// There are two kinds of text, normal and colored. Normal text has the
/// terminal's own color and weight. Colored text is always bold and has one
/// of the colors of this enum.
#[derive(Clone, Copy, Debug, PartialEq, Eq, Structural)]
pub enum Color {
    Red,
    Green,
    White,
}

impl Color {
    /// The ANSI escape sequence that switches to bold text of the color.
    pub open spec fn escape_code(self) -> Seq<char> {
        match self {
            Color::Red => "\x1b[1;31m"@,
            Color::Green => "\x1b[1;32m"@,
            Color::White => "\x1b[1;37m"@,
        }
    }

    /// The ANSI escape sequence that switches to bold text of the color.
    pub fn as_ansi_escape_code(&self) -> (code: &'static str)
        ensures
            code@ == self.escape_code(),
    {
        match self {
            Color::Red => "\x1b[1;31m",
            Color::Green => "\x1b[1;32m",
            Color::White => "\x1b[1;37m",
        }
    }
}

/// The ANSI escape sequence that switches back to normal text.
pub open spec fn reset_code() -> Seq<char> {
    "\x1b[0m"@
}

/// The ANSI escape sequence that switches back to normal text.
pub fn reset_escape_code() -> (code: &'static str)
    ensures
        code@ == reset_code(),
{
    "\x1b[0m"
}

} // verus!
