//! Tokens and the lexer that cuts a source line into them.

use vstd::prelude::*;
use vstd::string::StringExecFns;
use vstd::utf8::encode_utf8;
use crate::text::{byte_len, byte_offset, characters, is_digit, is_numeral, is_white_space};
use crate::text::{lemma_byte_len_concat, lemma_byte_offset_monotone, lemma_byte_offset_step};

verus! {

/// The kinds of token in an arithmetic expression.
#[derive(Debug, PartialEq, Eq)]
pub enum TokenKind {
    Plus,
    Minus,
    Star,
    Slash,
    ParenLeft,
    ParenRight,
    /// A maximal run of ASCII digits, kept as written.
    Number(String),
    /// The end of the input; it follows the last token of every source.
    EndOfFile,
    /// A character that starts no token.
    Invalid(char),
}

/// The mathematical value of a `TokenKind`: the digits of a number are a
/// sequence of characters.
pub enum SpecTokenKind {
    Plus,
    Minus,
    Star,
    Slash,
    ParenLeft,
    ParenRight,
    Number(Seq<char>),
    EndOfFile,
    Invalid(char),
}

impl View for TokenKind {
    type V = SpecTokenKind;

    open spec fn view(&self) -> SpecTokenKind {
        match self {
            TokenKind::Plus => SpecTokenKind::Plus,
            TokenKind::Minus => SpecTokenKind::Minus,
            TokenKind::Star => SpecTokenKind::Star,
            TokenKind::Slash => SpecTokenKind::Slash,
            TokenKind::ParenLeft => SpecTokenKind::ParenLeft,
            TokenKind::ParenRight => SpecTokenKind::ParenRight,
            TokenKind::Number(digits) => SpecTokenKind::Number(digits@),
            TokenKind::EndOfFile => SpecTokenKind::EndOfFile,
            TokenKind::Invalid(c) => SpecTokenKind::Invalid(*c),
        }
    }
}

impl SpecTokenKind {
    /// How the kind is shown: an operator or a parenthesis as its character,
    /// a number as its digits, the end of input as `<eof>`, and a character
    /// that starts no token as `<invalid 'c'>`.
    pub open spec fn text(self) -> Seq<char> {
        match self {
            SpecTokenKind::Plus => seq!['+'],
            SpecTokenKind::Minus => seq!['-'],
            SpecTokenKind::Star => seq!['*'],
            SpecTokenKind::Slash => seq!['/'],
            SpecTokenKind::ParenLeft => seq!['('],
            SpecTokenKind::ParenRight => seq![')'],
            SpecTokenKind::Number(digits) => digits,
            SpecTokenKind::EndOfFile => "<eof>"@,
            SpecTokenKind::Invalid(c) => "<invalid '"@ + seq![c] + "'>"@,
        }
    }

    /// The characters of the source that a token of the kind is cut from:
    /// none for `EndOfFile`, the character itself for `Invalid`.
    pub open spec fn lexeme(self) -> Seq<char> {
        match self {
            SpecTokenKind::EndOfFile => Seq::empty(),
            SpecTokenKind::Invalid(c) => seq![c],
            _ => self.text(),
        }
    }
}

impl TokenKind {
    /// How the kind is shown.
    pub fn to_text(&self) -> (text: String)
        ensures
            text@ == self@.text(),
    {
        let mut text = String::new();
        match self {
            TokenKind::Plus => text.push('+'),
            TokenKind::Minus => text.push('-'),
            TokenKind::Star => text.push('*'),
            TokenKind::Slash => text.push('/'),
            TokenKind::ParenLeft => text.push('('),
            TokenKind::ParenRight => text.push(')'),
            TokenKind::Number(digits) => text.append(digits.as_str()),
            TokenKind::EndOfFile => text.append("<eof>"),
            TokenKind::Invalid(c) => {
                text.append("<invalid '");
                text.push(*c);
                text.append("'>");
            },
        }
        assert(text@ == self@.text());
        text
    }
}

/// The smallest unit of lexical meaning: a kind and the half-open range of
/// bytes `[start, end)` that it occupies in the source.
#[derive(Debug, PartialEq, Eq)]
pub struct Token {
    pub kind: TokenKind,
    pub start: usize,
    pub end: usize,
}

/// The mathematical value of a `Token`.
pub struct SpecToken {
    pub kind: SpecTokenKind,
    pub start: nat,
    pub end: nat,
}

impl View for Token {
    type V = SpecToken;

    open spec fn view(&self) -> SpecToken {
        SpecToken { kind: self.kind@, start: self.start as nat, end: self.end as nat }
    }
}

impl Clone for TokenKind {
    fn clone(&self) -> (copy: TokenKind)
        ensures
            copy == *self,
    {
        match self {
            TokenKind::Plus => TokenKind::Plus,
            TokenKind::Minus => TokenKind::Minus,
            TokenKind::Star => TokenKind::Star,
            TokenKind::Slash => TokenKind::Slash,
            TokenKind::ParenLeft => TokenKind::ParenLeft,
            TokenKind::ParenRight => TokenKind::ParenRight,
            TokenKind::Number(digits) => TokenKind::Number(digits.clone()),
            TokenKind::EndOfFile => TokenKind::EndOfFile,
            TokenKind::Invalid(c) => TokenKind::Invalid(*c),
        }
    }
}

impl Clone for Token {
    fn clone(&self) -> (copy: Token)
        ensures
            copy == *self,
    {
        Token { kind: self.kind.clone(), start: self.start, end: self.end }
    }
}

impl DeepView for Token {
    type V = SpecToken;

    open spec fn deep_view(&self) -> SpecToken {
        self@
    }
}

impl Token {
    /// A token of the given kind that occupies the bytes `[start, end)`.
    pub fn new(kind: TokenKind, start: usize, end: usize) -> (token: Token)
        ensures
            token.kind == kind,
            token.start == start,
            token.end == end,
    {
        Token { kind, start, end }
    }

    /// How the token is shown: as its kind is.
    pub fn to_text(&self) -> (text: String)
        ensures
            text@ == self@.kind.text(),
    {
        self.kind.to_text()
    }
}

/// The index of the first character at or after `i` that is not white space,
/// or the length of `source` if only white space follows.
pub open spec fn skip_white_space(source: Seq<char>, i: int) -> int
    decreases source.len() - i,
{
    if 0 <= i < source.len() && is_white_space(source[i]) {
        skip_white_space(source, i + 1)
    } else {
        i
    }
}

/// The index of the first character at or after `i` that is not a digit, or
/// the length of `source` if only digits follow.
pub open spec fn digits_end(source: Seq<char>, i: int) -> int
    decreases source.len() - i,
{
    if 0 <= i < source.len() && is_digit(source[i]) {
        digits_end(source, i + 1)
    } else {
        i
    }
}

/// The index just after the token that starts with the character at `i`: a
/// number runs to the end of its digits, every other token is one character.
pub open spec fn token_end(source: Seq<char>, i: int) -> int {
    if is_digit(source[i]) {
        digits_end(source, i + 1)
    } else {
        i + 1
    }
}

/// The kind of the token that starts with the character at `i`.
pub open spec fn kind_at(source: Seq<char>, i: int) -> SpecTokenKind {
    let c = source[i];
    if c == '+' {
        SpecTokenKind::Plus
    } else if c == '-' {
        SpecTokenKind::Minus
    } else if c == '*' {
        SpecTokenKind::Star
    } else if c == '/' {
        SpecTokenKind::Slash
    } else if c == '(' {
        SpecTokenKind::ParenLeft
    } else if c == ')' {
        SpecTokenKind::ParenRight
    } else if is_digit(c) {
        SpecTokenKind::Number(source.subrange(i, token_end(source, i)))
    } else {
        SpecTokenKind::Invalid(c)
    }
}

/// The token that starts with the character at `i`, with its byte range.
pub open spec fn token_at(source: Seq<char>, i: int) -> SpecToken {
    SpecToken {
        kind: kind_at(source, i),
        start: byte_offset(source, i),
        end: byte_offset(source, token_end(source, i)),
    }
}

/// The token that ends every source: empty, and placed at the end of input.
pub open spec fn end_of_file(source: Seq<char>) -> SpecToken {
    SpecToken { kind: SpecTokenKind::EndOfFile, start: byte_len(source), end: byte_len(source) }
}

/// The tokens of `source` from character index `i` on, `EndOfFile` included.
pub open spec fn tokens_from(source: Seq<char>, i: int) -> Seq<SpecToken>
    decreases source.len() - i,
{
    let start = skip_white_space(source, i);
    if 0 <= start < source.len() {
        proof {
            lemma_skip_white_space(source, i);
            lemma_digits_end(source, start + 1);
        }
        seq![token_at(source, start)] + tokens_from(source, token_end(source, start))
    } else {
        seq![end_of_file(source)]
    }
}

/// The tokens of a whole source.
pub open spec fn tokens_of(source: Seq<char>) -> Seq<SpecToken> {
    tokens_from(source, 0)
}

/// `skip_white_space` stops at the first character that is not white space.
pub proof fn lemma_skip_white_space(source: Seq<char>, i: int)
    ensures
        i <= skip_white_space(source, i),
        0 <= i <= source.len() ==> skip_white_space(source, i) <= source.len(),
        forall|k: int|
            i <= k < skip_white_space(source, i) ==> is_white_space(#[trigger] source[k]),
        0 <= skip_white_space(source, i) < source.len() ==> !is_white_space(
            source[skip_white_space(source, i)],
        ),
    decreases source.len() - i,
{
    if 0 <= i < source.len() && is_white_space(source[i]) {
        lemma_skip_white_space(source, i + 1);
    }
}

/// `digits_end` stops at the first character that is not a digit.
pub proof fn lemma_digits_end(source: Seq<char>, i: int)
    ensures
        i <= digits_end(source, i),
        0 <= i <= source.len() ==> digits_end(source, i) <= source.len(),
        forall|k: int| i <= k < digits_end(source, i) ==> is_digit(#[trigger] source[k]),
        0 <= digits_end(source, i) < source.len() ==> !is_digit(source[digits_end(source, i)]),
    decreases source.len() - i,
{
    if 0 <= i < source.len() && is_digit(source[i]) {
        lemma_digits_end(source, i + 1);
    }
}

/// What a lexer is at any moment: the characters of its source, how many of
/// them it has consumed, and whether it has handed out `EndOfFile`.
pub struct LexerState {
    pub source: Seq<char>,
    pub position: int,
    pub exhausted: bool,
}

impl LexerState {
    /// The state of a lexer that has consumed nothing of `source`.
    pub open spec fn initial(source: Seq<char>) -> LexerState {
        LexerState { source, position: 0, exhausted: false }
    }

    /// The states that a lexer can be in: it is exhausted only at the end.
    pub open spec fn well_formed(self) -> bool {
        &&& 0 <= self.position <= self.source.len()
        &&& self.exhausted ==> self.position == self.source.len()
    }

    /// The index at which the next token starts, past any white space.
    pub open spec fn token_start(self) -> int {
        skip_white_space(self.source, self.position)
    }

    /// What the next request yields: the token at `token_start`; at the end
    /// of the source `EndOfFile`, once; after that nothing.
    pub open spec fn next_token(self) -> Option<SpecToken> {
        if self.token_start() < self.source.len() {
            Some(token_at(self.source, self.token_start()))
        } else if self.exhausted {
            None
        } else {
            Some(end_of_file(self.source))
        }
    }

    /// The state after the next request.
    pub open spec fn advance(self) -> LexerState {
        if self.token_start() < self.source.len() {
            LexerState { position: token_end(self.source, self.token_start()), ..self }
        } else {
            LexerState { position: self.token_start(), exhausted: true, ..self }
        }
    }

    /// The state after `n` requests.
    pub open spec fn after(self, n: nat) -> LexerState
        decreases n,
    {
        if n == 0 {
            self
        } else {
            self.advance().after((n - 1) as nat)
        }
    }

    /// All the tokens that are still to come.
    pub open spec fn remaining(self) -> Seq<SpecToken> {
        if self.exhausted {
            Seq::empty()
        } else {
            tokens_from(self.source, self.position)
        }
    }
}

/// How far a lexer has read: the index of the next character and the byte
/// offset at which that character starts.
struct Cursor {
    index: usize,
    offset: usize,
}

/// Whether a lexer has handed out `EndOfFile` yet.
enum Phase {
    Scanning,
    Exhausted,
}

/// The lexer: it hands out the tokens of a source one per request, then
/// `EndOfFile` once, then nothing.
pub struct Lexer {
    chars: Vec<char>,
    cursor: Cursor,
    phase: Phase,
}

impl View for Lexer {
    type V = LexerState;

    closed spec fn view(&self) -> LexerState {
        LexerState {
            source: self.chars@,
            position: self.cursor.index as int,
            exhausted: self.phase is Exhausted,
        }
    }
}

impl Lexer {
    #[verifier::type_invariant]
    spec fn consistent(self) -> bool {
        &&& self@.well_formed()
        &&& self.cursor.offset == byte_offset(self.chars@, self.cursor.index as int)
        &&& byte_len(self.chars@) <= usize::MAX
    }

    /// A lexer over `source` that has consumed nothing yet.
    pub fn from_source(source: &str) -> (lexer: Lexer)
        ensures
            lexer@ == LexerState::initial(source@),
    {
        let chars = characters(source);
        proof {
            lemma_byte_offset_monotone(chars@, 0, 0);
        }
        Lexer { chars, cursor: Cursor { index: 0, offset: 0 }, phase: Phase::Scanning }
    }

    /// Consumes one character, if any is left, and keeps the offset in step.
    fn next_char(&mut self) -> (c: Option<char>)
        ensures
            final(self)@.source == old(self)@.source,
            final(self)@.exhausted == old(self)@.exhausted,
            match c {
                Some(ch) => {
                    &&& old(self)@.position < old(self)@.source.len()
                    &&& ch == old(self)@.source[old(self)@.position]
                    &&& final(self)@.position == old(self)@.position + 1
                },
                None => {
                    &&& old(self)@.position == old(self)@.source.len()
                    &&& final(self)@ == old(self)@
                },
            },
            final(self).cursor.offset == byte_offset(final(self)@.source, final(self)@.position),
    {
        proof {
            use_type_invariant(&*self);
        }
        if self.cursor.index < self.chars.len() {
            let c = self.chars[self.cursor.index];
            proof {
                lemma_byte_offset_step(self.chars@, self.cursor.index as int);
                lemma_byte_offset_monotone(
                    self.chars@,
                    self.cursor.index as int + 1,
                    self.chars@.len() as int,
                );
            }
            self.cursor = Cursor {
                index: self.cursor.index + 1,
                offset: self.cursor.offset + c.len_utf8(),
            };
            Some(c)
        } else {
            None
        }
    }

    /// Consumes one character if one is left and `accepts` holds of it, and
    /// keeps the offset in step.
    fn next_char_if<F: FnOnce(&char) -> bool>(&mut self, accepts: F) -> (c: Option<char>)
        requires
            forall|ch: char| #[trigger] accepts.requires((&ch,)),
        ensures
            final(self)@.source == old(self)@.source,
            final(self)@.exhausted == old(self)@.exhausted,
            match c {
                Some(ch) => {
                    &&& old(self)@.position < old(self)@.source.len()
                    &&& ch == old(self)@.source[old(self)@.position]
                    &&& accepts.ensures((&ch,), true)
                    &&& final(self)@.position == old(self)@.position + 1
                },
                None => {
                    &&& final(self)@ == old(self)@
                    &&& old(self)@.position < old(self)@.source.len() ==> accepts.ensures(
                        (&old(self)@.source[old(self)@.position],),
                        false,
                    )
                },
            },
            final(self).cursor.offset == byte_offset(final(self)@.source, final(self)@.position),
    {
        proof {
            use_type_invariant(&*self);
        }
        if self.cursor.index < self.chars.len() {
            let c = self.chars[self.cursor.index];
            if accepts(&c) {
                self.next_char()
            } else {
                None
            }
        } else {
            None
        }
    }

    /// Skips all white space at the front of what is left.
    fn skip_whitespace(&mut self)
        ensures
            final(self)@.source == old(self)@.source,
            final(self)@.exhausted == old(self)@.exhausted,
            final(self)@.position == old(self)@.token_start(),
            final(self).cursor.offset == byte_offset(final(self)@.source, final(self)@.position),
    {
        proof {
            use_type_invariant(&*self);
        }
        loop
            invariant
                self@.source == old(self)@.source,
                self@.exhausted == old(self)@.exhausted,
                self@.well_formed(),
                skip_white_space(self@.source, self@.position) == old(self)@.token_start(),
                self.cursor.offset == byte_offset(self@.source, self@.position),
            ensures
                self@.position == old(self)@.token_start(),
            decreases self@.source.len() - self@.position,
        {
            let is_space = |c: &char| -> (b: bool)
                ensures
                    b == is_white_space(*c),
                {
                    c.is_whitespace()
                };
            let skipped = self.next_char_if(is_space);
            proof {
                use_type_invariant(&*self);
            }
            if skipped.is_none() {
                break ;
            }
        }
    }

    /// Reads the rest of a number whose first digit, `first`, has just been
    /// consumed and started at byte `start`.
    fn lex_number(&mut self, first: char, start: usize) -> (token: Token)
        requires
            0 < old(self)@.position <= old(self)@.source.len(),
            first == old(self)@.source[old(self)@.position - 1],
            is_digit(first),
            start == byte_offset(old(self)@.source, old(self)@.position - 1),
        ensures
            final(self)@.source == old(self)@.source,
            final(self)@.exhausted == old(self)@.exhausted,
            final(self)@.position == token_end(old(self)@.source, old(self)@.position - 1),
            token@ == token_at(old(self)@.source, old(self)@.position - 1),
    {
        proof {
            use_type_invariant(&*self);
        }
        let ghost begin = self@.position - 1;
        let mut digits = String::new();
        digits.push(first);
        assert(digits@ == self@.source.subrange(begin, begin + 1));
        loop
            invariant
                self@.source == old(self)@.source,
                self@.exhausted == old(self)@.exhausted,
                self@.well_formed(),
                begin == old(self)@.position - 1,
                0 <= begin < self@.position,
                digits_end(self@.source, self@.position) == digits_end(self@.source, begin + 1),
                digits@ == self@.source.subrange(begin, self@.position),
                self.cursor.offset == byte_offset(self@.source, self@.position),
            ensures
                self@.position == digits_end(self@.source, begin + 1),
            decreases self@.source.len() - self@.position,
        {
            let is_numeral = |c: &char| -> (b: bool)
                ensures
                    b == is_digit(*c),
                {
                    c.is_ascii_digit()
                };
            let ghost before = self@.position;
            let digit = self.next_char_if(is_numeral);
            proof {
                use_type_invariant(&*self);
            }
            match digit {
                Some(digit) => {
                    digits.push(digit);
                    assert(digits@ == self@.source.subrange(begin, before + 1));
                },
                None => {
                    break ;
                },
            }
        }
        Token::new(TokenKind::Number(digits), start, self.cursor.offset)
    }

    /// Hands out the next token: the one that starts after any white space;
    /// at the end of the source `EndOfFile`, once; after that `None`.
    pub fn next(&mut self) -> (token: Option<Token>)
        ensures
            old(self)@.well_formed(),
            final(self)@.well_formed(),
            final(self)@ == old(self)@.advance(),
            match token {
                Some(t) => old(self)@.next_token() == Some(t@),
                None => old(self)@.next_token().is_none(),
            },
    {
        proof {
            use_type_invariant(&*self);
        }
        self.skip_whitespace();
        let start = self.cursor.offset;
        proof {
            use_type_invariant(&*self);
            lemma_skip_white_space(old(self)@.source, old(self)@.position);
            lemma_byte_offset_monotone(self@.source, self@.position, self@.source.len() as int);
        }
        let token = match self.next_char() {
            Some('+') => Some(Token::new(TokenKind::Plus, start, self.cursor.offset)),
            Some('-') => Some(Token::new(TokenKind::Minus, start, self.cursor.offset)),
            Some('*') => Some(Token::new(TokenKind::Star, start, self.cursor.offset)),
            Some('/') => Some(Token::new(TokenKind::Slash, start, self.cursor.offset)),
            Some('(') => Some(Token::new(TokenKind::ParenLeft, start, self.cursor.offset)),
            Some(')') => Some(Token::new(TokenKind::ParenRight, start, self.cursor.offset)),
            Some(first) => {
                if first.is_ascii_digit() {
                    Some(self.lex_number(first, start))
                } else {
                    Some(Token::new(TokenKind::Invalid(first), start, self.cursor.offset))
                }
            },
            None => {
                match self.phase {
                    Phase::Exhausted => None,
                    Phase::Scanning => {
                        self.phase = Phase::Exhausted;
                        Some(Token::new(TokenKind::EndOfFile, start, start))
                    },
                }
            },
        };
        proof {
            use_type_invariant(&*self);
        }
        token
    }
}

impl Clone for Lexer {
    /// A second lexer in the same state; the two advance independently.
    fn clone(&self) -> (copy: Lexer)
        ensures
            copy@ == self@,
    {
        proof {
            use_type_invariant(self);
        }
        let chars = self.chars.clone();
        assert(chars@ == self.chars@);
        Lexer {
            chars,
            cursor: Cursor { index: self.cursor.index, offset: self.cursor.offset },
            phase: match self.phase {
                Phase::Scanning => Phase::Scanning,
                Phase::Exhausted => Phase::Exhausted,
            },
        }
    }
}

/// Whether `token` lies in `source`: its range is in bounds, and the bytes of
/// the source in that range are the UTF-8 encoding of the characters that
/// the token was cut from.
pub open spec fn lies_in(source: Seq<char>, token: SpecToken) -> bool {
    &&& token.start <= token.end <= byte_len(source)
    &&& encode_utf8(source).subrange(token.start as int, token.end as int) == encode_utf8(
        token.kind.lexeme(),
    )
}

/// The bytes of a run of characters lie in the encoding of the source at the
/// byte offsets of its ends.
pub proof fn lemma_bytes_of_run(source: Seq<char>, from: int, to: int)
    requires
        0 <= from <= to <= source.len(),
    ensures
        byte_offset(source, from) <= byte_offset(source, to) <= byte_len(source),
        encode_utf8(source).subrange(
            byte_offset(source, from) as int,
            byte_offset(source, to) as int,
        ) == encode_utf8(source.subrange(from, to)),
{
    let head = source.take(from);
    let run = source.subrange(from, to);
    let tail = source.skip(to);
    assert(source.take(to) == head + run);
    assert(source == source.take(to) + tail);
    lemma_byte_len_concat(head, run);
    lemma_byte_len_concat(source.take(to), tail);
    assert(encode_utf8(source).subrange(
        encode_utf8(head).len() as int,
        (encode_utf8(head).len() + encode_utf8(run).len()) as int,
    ) == encode_utf8(run));
}

/// The token that starts with a character that is not white space is not
/// empty and lies in the source, from that character to where it ends.
pub proof fn lemma_token_at(source: Seq<char>, i: int)
    requires
        0 <= i < source.len(),
    ensures
        i < token_end(source, i) <= source.len(),
        token_at(source, i).kind.lexeme() == source.subrange(i, token_end(source, i)),
        !(token_at(source, i).kind is EndOfFile),
        token_at(source, i).start < token_at(source, i).end,
        lies_in(source, token_at(source, i)),
        token_at(source, i).kind matches SpecTokenKind::Number(digits) ==> is_numeral(digits),
{
    lemma_digits_end(source, i + 1);
    let end = token_end(source, i);
    lemma_bytes_of_run(source, i, end);
    lemma_byte_offset_monotone(source, i, end);
    if !is_digit(source[i]) {
        assert(source.subrange(i, i + 1) == seq![source[i]]);
    }
}

/// Every token lies in the source, and the tokens follow one another: the
/// token with index `k` of those from character `i` on starts no earlier
/// than that character, is empty only if it is `EndOfFile`, and ends before
/// the next one starts. If it is a number, it is one or more digits.
pub proof fn lemma_token_ranges(source: Seq<char>, i: int, k: int)
    requires
        0 <= i <= source.len(),
        0 <= k < tokens_from(source, i).len(),
    ensures
        lies_in(source, tokens_from(source, i)[k]),
        byte_offset(source, i) <= tokens_from(source, i)[k].start,
        tokens_from(source, i)[k].kind is EndOfFile <==> k + 1 == tokens_from(source, i).len(),
        tokens_from(source, i)[k].kind is EndOfFile ==> tokens_from(source, i)[k].start
            == byte_len(source),
        !(tokens_from(source, i)[k].kind is EndOfFile) ==> tokens_from(source, i)[k].start
            < tokens_from(source, i)[k].end,
        k + 1 < tokens_from(source, i).len() ==> tokens_from(source, i)[k].end <= tokens_from(
            source,
            i,
        )[k + 1].start,
        tokens_from(source, i)[k].kind matches SpecTokenKind::Number(digits) ==> is_numeral(digits),
    decreases k,
{
    lemma_skip_white_space(source, i);
    let start = skip_white_space(source, i);
    lemma_byte_offset_monotone(source, i, start);
    if start < source.len() {
        lemma_token_at(source, start);
        let end = token_end(source, start);
        let rest = tokens_from(source, end);
        assert(tokens_from(source, i) == seq![token_at(source, start)] + rest);
        lemma_byte_offset_monotone(source, start, end);
        if k == 0 {
            lemma_token_ranges_first(source, end);
        } else {
            lemma_token_ranges(source, end, k - 1);
            lemma_byte_offset_monotone(source, i, end);
        }
    } else {
        assert(encode_utf8(source).subrange(byte_len(source) as int, byte_len(source) as int)
            == encode_utf8(Seq::<char>::empty()));
    }
}

/// There is always a first token, and it starts no earlier than the
/// character that lexing starts from.
proof fn lemma_token_ranges_first(source: Seq<char>, i: int)
    requires
        0 <= i <= source.len(),
    ensures
        tokens_from(source, i).len() >= 1,
        byte_offset(source, i) <= tokens_from(source, i)[0].start,
{
    lemma_skip_white_space(source, i);
    let start = skip_white_space(source, i);
    lemma_byte_offset_monotone(source, i, start);
    if start < source.len() {
        lemma_digits_end(source, start + 1);
    } else {
        lemma_byte_offset_monotone(source, i, source.len() as int);
    }
}

/// One request splits off the first of the remaining tokens, and brings the
/// lexer closer to exhaustion.
pub proof fn lemma_remaining_unfolds(state: LexerState)
    requires
        state.well_formed(),
    ensures
        state.advance().well_formed(),
        state.advance().source == state.source,
        state.next_token().is_none() <==> state.exhausted,
        match state.next_token() {
            Some(token) => {
                &&& state.remaining() == seq![token] + state.advance().remaining()
                &&& token.kind is EndOfFile <==> state.advance().exhausted
                &&& state.advance().position > state.position || state.advance().exhausted
            },
            None => state.remaining() == Seq::<SpecToken>::empty() && state.advance() == state,
        },
{
    lemma_skip_white_space(state.source, state.position);
    let start = state.token_start();
    if start < state.source.len() {
        lemma_digits_end(state.source, start + 1);
    } else if !state.exhausted {
        assert(state.remaining() == seq![end_of_file(state.source)] + Seq::<SpecToken>::empty());
    }
}

/// Once a lexer is exhausted it stays so: every further request yields nothing
/// and leaves the state as it is.
pub proof fn lemma_exhausted_stays(state: LexerState, requests: nat)
    requires
        state.well_formed(),
        state.exhausted,
    ensures
        state.after(requests) == state,
        state.after(requests).next_token().is_none(),
    decreases requests,
{
    lemma_remaining_unfolds(state);
    if requests > 0 {
        lemma_exhausted_stays(state, (requests - 1) as nat);
    }
}

/// `EndOfFile` is handed out exactly once. Of a lexer that has not handed it
/// out yet, the requests yield the remaining tokens in order; the last of
/// them, and no other, is `EndOfFile`; every later request yields nothing.
pub proof fn lemma_end_of_file_once(state: LexerState, request: nat)
    requires
        state.well_formed(),
        !state.exhausted,
    ensures
        state.remaining().len() >= 1,
        request < state.remaining().len() ==> state.after(request).next_token() == Some(
            state.remaining()[request as int],
        ),
        request + 1 < state.remaining().len() ==> !(state.remaining()[request as int].kind
            is EndOfFile),
        request + 1 == state.remaining().len() ==> state.remaining()[request as int].kind
            is EndOfFile,
        request >= state.remaining().len() ==> state.after(request).next_token().is_none(),
    decreases request,
{
    lemma_remaining_unfolds(state);
    let next = state.advance();
    if next.exhausted {
        assert(state.remaining() == seq![state.next_token().unwrap()]);
        if request > 0 {
            lemma_exhausted_stays(next, (request - 1) as nat);
        }
    } else {
        lemma_remaining_unfolds(next);
        if request > 0 {
            lemma_end_of_file_once(next, (request - 1) as nat);
        }
    }
}

/// Lexing depends on the source alone: two lexers that start on the same
/// source yield the same tokens, byte ranges included, request by request,
/// and they are the tokens that `lex` collects.
pub proof fn lemma_lexing_repeatable(
    source: Seq<char>,
    first: LexerState,
    second: LexerState,
    request: nat,
)
    requires
        first == LexerState::initial(source),
        second == LexerState::initial(source),
    ensures
        first.after(request).next_token() == second.after(request).next_token(),
        first.remaining() == second.remaining(),
        first.remaining() == tokens_of(source),
{
}

/// Cuts `source` into its tokens; the last of them is `EndOfFile`.
pub fn lex(source: &str) -> (tokens: Vec<Token>)
    ensures
        tokens.deep_view() == tokens_of(source@),
{
    let mut lexer = Lexer::from_source(source);
    let mut tokens: Vec<Token> = Vec::new();
    assert(tokens.deep_view() + lexer@.remaining() == tokens_of(source@));
    loop
        invariant
            lexer@.source == source@,
            tokens.deep_view() + lexer@.remaining() == tokens_of(source@),
        ensures
            tokens.deep_view() == tokens_of(source@),
        decreases
            lexer@.source.len() - lexer@.position + (if lexer@.exhausted { 0int } else { 1int }),
    {
        let ghost before = lexer@;
        let ghost collected = tokens.deep_view();
        let next = lexer.next();
        proof {
            lemma_remaining_unfolds(before);
        }
        match next {
            Some(token) => {
                tokens.push(token);
                assert(tokens.deep_view() == collected.push(token@));
                assert(collected.push(token@) + lexer@.remaining() == collected + (seq![token@]
                    + lexer@.remaining()));
            },
            None => {
                assert(collected + Seq::<SpecToken>::empty() == collected);
                break ;
            },
        }
    }
    tokens
}

} // verus!
