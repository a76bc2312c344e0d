//! Diagnostics: from a byte offset in the source to a line and a column, and
//! to the captioned excerpt with a caret under the offending column.

use vstd::prelude::*;
use vstd::string::StringExecFns;
use crate::repl::{reset_code, reset_escape_code, Color};
use crate::text::{
    byte_len, byte_offset, characters, decimal, decimal_text, right_aligned, spaces,
};
use crate::text::{lemma_byte_offset_monotone, lemma_byte_offset_step};

verus! {

/// The index of the first character at or after index `from` that starts at
/// or after byte `offset`, or the length of `source` if there is none.
pub open spec fn character_at(source: Seq<char>, offset: nat, from: int) -> int
    decreases source.len() - from,
{
    if 0 <= from < source.len() && byte_offset(source, from) < offset {
        character_at(source, offset, from + 1)
    } else {
        from
    }
}

/// The number of characters of `source` that start before byte `offset`.
pub open spec fn characters_before(source: Seq<char>, offset: nat) -> int {
    character_at(source, offset, 0)
}

/// The index at which the line that holds character index `k` starts: just
/// after the last line feed before `k`, or 0.
pub open spec fn line_start(source: Seq<char>, k: int) -> int
    decreases k,
{
    if k <= 0 {
        0
    } else if source[k - 1] == '\n' {
        k
    } else {
        line_start(source, k - 1)
    }
}

/// The number of line feeds before character index `k`.
pub open spec fn lines_before(source: Seq<char>, k: int) -> nat
    decreases k,
{
    if k <= 0 {
        0
    } else if source[k - 1] == '\n' {
        lines_before(source, k - 1) + 1
    } else {
        lines_before(source, k - 1)
    }
}

/// The index of the first line feed at or after character index `k`, or the
/// length of `source` if there is none.
pub open spec fn line_end(source: Seq<char>, k: int) -> int
    decreases source.len() - k,
{
    if 0 <= k < source.len() && source[k] != '\n' {
        line_end(source, k + 1)
    } else {
        k
    }
}

/// The text of the line that holds character index `k`, without its line
/// ending: a line feed, or a carriage return and a line feed.
pub open spec fn line_text(source: Seq<char>, k: int) -> Seq<char> {
    let start = line_start(source, k);
    let end = line_end(source, k);
    if start < end < source.len() && source[end - 1] == '\r' {
        source.subrange(start, end - 1)
    } else {
        source.subrange(start, end)
    }
}

/// A place in a source: the index of its line and, within the line, the
/// index of its column in characters. Both count from 0.
#[derive(Clone, Copy, Debug, PartialEq, Eq, Structural)]
pub struct Location {
    pub line_index: usize,
    pub column_index: usize,
}

/// The place of byte `offset` in `source`.
pub open spec fn location_of(source: Seq<char>, offset: nat) -> (int, int) {
    let k = characters_before(source, offset);
    (lines_before(source, k) as int, k - line_start(source, k))
}

/// A line starts at or before each of its characters, and no line feed lies
/// between; the number of line feeds before an index is at most the index.
pub proof fn lemma_line_start(source: Seq<char>, k: int)
    requires
        0 <= k <= source.len(),
    ensures
        0 <= line_start(source, k) <= k,
        lines_before(source, k) <= k,
        forall|i: int| line_start(source, k) <= i < k ==> #[trigger] source[i] != '\n',
    decreases k,
{
    if k > 0 {
        lemma_line_start(source, k - 1);
    }
}

/// A line ends at or after each of its characters.
pub proof fn lemma_line_end(source: Seq<char>, k: int)
    requires
        0 <= k <= source.len(),
    ensures
        k <= line_end(source, k) <= source.len(),
        forall|i: int| k <= i < line_end(source, k) ==> #[trigger] source[i] != '\n',
        line_end(source, k) < source.len() ==> source[line_end(source, k)] == '\n',
    decreases source.len() - k,
{
    if k < source.len() && source[k] != '\n' {
        lemma_line_end(source, k + 1);
    }
}

/// The index of the first of `chars` that starts at or after byte `offset`,
/// with the place of that index.
fn scan_to(chars: &Vec<char>, offset: usize) -> (found: (usize, Location))
    requires
        byte_len(chars@) <= usize::MAX,
    ensures
        found.0 == characters_before(chars@, offset as nat),
        found.0 <= chars.len(),
        found.1.line_index == lines_before(chars@, found.0 as int),
        found.1.column_index == found.0 - line_start(chars@, found.0 as int),
{
    let mut k: usize = 0;
    let mut start: usize = 0;
    let mut line_index: usize = 0;
    let mut column_index: usize = 0;
    proof {
        lemma_byte_offset_monotone(chars@, 0, 0);
    }
    while k < chars.len() && start < offset
        invariant
            k <= chars.len(),
            byte_len(chars@) <= usize::MAX,
            start == byte_offset(chars@, k as int),
            character_at(chars@, offset as nat, k as int) == characters_before(
                chars@,
                offset as nat,
            ),
            line_index == lines_before(chars@, k as int),
            column_index == k - line_start(chars@, k as int),
        decreases chars.len() - k,
    {
        proof {
            lemma_byte_offset_step(chars@, k as int);
            lemma_byte_offset_monotone(chars@, k as int + 1, chars@.len() as int);
            lemma_line_start(chars@, k as int);
        }
        let c = chars[k];
        start = start + c.len_utf8();
        k = k + 1;
        if c == '\n' {
            line_index = line_index + 1;
            column_index = 0;
        } else {
            column_index = column_index + 1;
        }
    }
    (k, Location { line_index, column_index })
}

/// The line and the column of the character that starts at byte `offset` of
/// `source`. An offset inside a character counts as the start of the next
/// one, and an offset past the end as the end.
pub fn locate(source: &str, offset: usize) -> (location: Location)
    ensures
        (location.line_index as int, location.column_index as int) == location_of(
            source@,
            offset as nat,
        ),
{
    let chars = characters(source);
    scan_to(&chars, offset).1
}

/// The message for a character that starts no token.
pub open spec fn unrecognized_token(c: char) -> Seq<char> {
    "unrecognized token '"@ + seq![c] + "'"@
}

/// The first line of a diagnostic: in bold white the name of the source, the
/// line and the column, both counted from 1; in bold red the label; in bold
/// white the message.
pub open spec fn caption(line: nat, column: nat, message: Seq<char>) -> Seq<char> {
    Color::White.escape_code() + "stdin:"@ + decimal(line + 1) + ":"@ + decimal(column + 1) + ":"@
        + Color::Red.escape_code() + " error:"@ + Color::White.escape_code() + " "@ + message
        + "\n"@
}

/// The second line of a diagnostic: in normal text the number of the line,
/// right-aligned in five columns, a bar, and the line itself.
pub open spec fn excerpt(line: nat, text: Seq<char>) -> Seq<char> {
    reset_code() + right_aligned(decimal(line + 1), 5) + " | "@ + text + "\n"@
}

/// The third line of a diagnostic: an empty gutter, a bar, and a bold green
/// caret under the column; then the count of errors.
pub open spec fn pointer(column: nat) -> Seq<char> {
    "      | "@ + spaces(column) + Color::Green.escape_code() + "^"@ + reset_code()
        + "\n1 error generated.\n"@
}

/// The diagnostic for `message` at byte `offset` of `source`.
pub open spec fn diagnostic(source: Seq<char>, offset: nat, message: Seq<char>) -> Seq<char> {
    let k = characters_before(source, offset);
    let line = lines_before(source, k);
    let column = (k - line_start(source, k)) as nat;
    caption(line, column, message) + excerpt(line, line_text(source, k)) + pointer(column)
}

/// Appends `count` spaces to `out`.
fn push_spaces(out: &mut String, count: usize)
    ensures
        final(out)@ == old(out)@ + spaces(count as nat),
{
    let mut i: usize = 0;
    assert(out@ == old(out)@ + spaces(0));
    while i < count
        invariant
            i <= count,
            out@ == old(out)@ + spaces(i as nat),
        decreases count - i,
    {
        out.push(' ');
        i = i + 1;
        assert(out@ == old(out)@ + spaces(i as nat));
    }
}

/// Appends the characters of `chars` from index `from` up to `to` to `out`.
fn push_range(out: &mut String, chars: &Vec<char>, from: usize, to: usize)
    requires
        from <= to <= chars.len(),
    ensures
        final(out)@ == old(out)@ + chars@.subrange(from as int, to as int),
{
    let mut i: usize = from;
    assert(out@ == old(out)@ + chars@.subrange(from as int, from as int));
    while i < to
        invariant
            from <= i <= to <= chars.len(),
            out@ == old(out)@ + chars@.subrange(from as int, i as int),
        decreases to - i,
    {
        out.push(chars[i]);
        i = i + 1;
        assert(out@ == old(out)@ + chars@.subrange(from as int, i as int));
    }
}

/// The message for the character `c` that starts no token.
pub fn unrecognized_token_message(c: char) -> (message: String)
    ensures
        message@ == unrecognized_token(c),
{
    let mut message = String::new();
    message.append("unrecognized token '");
    message.push(c);
    message.append("'");
    assert(message@ == unrecognized_token(c));
    message
}

/// Appends the first line of a diagnostic to `out`.
fn push_caption(out: &mut String, location: Location, message: &str)
    ensures
        final(out)@ == old(out)@ + caption(
            location.line_index as nat,
            location.column_index as nat,
            message@,
        ),
{
    let line = decimal_text(location.line_index as u128 + 1);
    let column = decimal_text(location.column_index as u128 + 1);
    let mut text = String::new();
    text.append(Color::White.as_ansi_escape_code());
    text.append("stdin:");
    text.append(line.as_str());
    text.append(":");
    text.append(column.as_str());
    text.append(":");
    text.append(Color::Red.as_ansi_escape_code());
    text.append(" error:");
    text.append(Color::White.as_ansi_escape_code());
    text.append(" ");
    text.append(message);
    text.append("\n");
    assert(text@ == caption(location.line_index as nat, location.column_index as nat, message@));
    out.append(text.as_str());
}

/// Appends the second line of a diagnostic to `out`: the line of the source
/// that `chars` holds from index `from` up to `to`, with its number.
fn push_excerpt(out: &mut String, line_index: usize, chars: &Vec<char>, from: usize, to: usize)
    requires
        from <= to <= chars.len(),
    ensures
        final(out)@ == old(out)@ + excerpt(
            line_index as nat,
            chars@.subrange(from as int, to as int),
        ),
{
    let line = decimal_text(line_index as u128 + 1);
    let width = line.as_str().unicode_len();
    let mut text = String::new();
    text.append(reset_escape_code());
    if width < 5 {
        push_spaces(&mut text, 5 - width);
    }
    text.append(line.as_str());
    assert(text@ == reset_code() + right_aligned(decimal(line_index as nat + 1), 5));
    text.append(" | ");
    push_range(&mut text, chars, from, to);
    text.append("\n");
    assert(text@ == excerpt(line_index as nat, chars@.subrange(from as int, to as int)));
    out.append(text.as_str());
}

/// Appends the third line of a diagnostic to `out`, and the count of errors.
fn push_pointer(out: &mut String, column_index: usize)
    ensures
        final(out)@ == old(out)@ + pointer(column_index as nat),
{
    let mut text = String::new();
    text.append("      | ");
    push_spaces(&mut text, column_index);
    text.append(Color::Green.as_ansi_escape_code());
    text.append("^");
    text.append(reset_escape_code());
    text.append("\n1 error generated.\n");
    assert(text@ == pointer(column_index as nat));
    out.append(text.as_str());
}

/// Renders the diagnostic for `message` at byte `offset` of `source`: a
/// caption with the place, the line of the source with its number, and a
/// caret under the column. Where `offset` lies at the very end of a source
/// that is empty or ends in a line feed, the line shown is empty.
pub fn render_diagnostic(source: &str, offset: usize, message: &str) -> (text: String)
    ensures
        text@ == diagnostic(source@, offset as nat, message@),
{
    let chars = characters(source);
    let (k, location) = scan_to(&chars, offset);
    proof {
        lemma_line_start(chars@, k as int);
        lemma_line_end(chars@, k as int);
    }
    let begin = k - location.column_index;
    let mut end = k;
    while end < chars.len() && chars[end] != '\n'
        invariant
            k <= end <= chars.len(),
            line_end(chars@, end as int) == line_end(chars@, k as int),
        decreases chars.len() - end,
    {
        end = end + 1;
    }
    let stop = if begin < end && end < chars.len() && chars[end - 1] == '\r' {
        end - 1
    } else {
        end
    };
    assert(chars@.subrange(begin as int, stop as int) == line_text(chars@, k as int));
    let mut text = String::new();
    push_caption(&mut text, location, message);
    push_excerpt(&mut text, location.line_index, &chars, begin, stop);
    push_pointer(&mut text, location.column_index);
    text
}

} // verus!
