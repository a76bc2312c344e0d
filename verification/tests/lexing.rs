use minsk::lexer::{lex, Lexer, Token, TokenKind};

fn number(digits: &str) -> TokenKind {
    TokenKind::Number(digits.to_string())
}

fn kinds(source: &str) -> Vec<TokenKind> {
    lex(source).into_iter().map(|token| token.kind).collect()
}

#[test]
fn lexes_the_precedence_example() {
    assert_eq!(
        kinds("1 + 2 * 3"),
        vec![
            number("1"),
            TokenKind::Plus,
            number("2"),
            TokenKind::Star,
            number("3"),
            TokenKind::EndOfFile,
        ]
    );
}

#[test]
fn lexes_every_symbol() {
    assert_eq!(
        kinds("+-*/()"),
        vec![
            TokenKind::Plus,
            TokenKind::Minus,
            TokenKind::Star,
            TokenKind::Slash,
            TokenKind::ParenLeft,
            TokenKind::ParenRight,
            TokenKind::EndOfFile,
        ]
    );
}

#[test]
fn tokens_carry_their_byte_ranges() {
    assert_eq!(
        lex("12 + (345)"),
        vec![
            Token::new(number("12"), 0, 2),
            Token::new(TokenKind::Plus, 3, 4),
            Token::new(TokenKind::ParenLeft, 5, 6),
            Token::new(number("345"), 6, 9),
            Token::new(TokenKind::ParenRight, 9, 10),
            Token::new(TokenKind::EndOfFile, 10, 10),
        ]
    );
}

#[test]
fn a_number_is_a_maximal_run_of_digits() {
    assert_eq!(
        lex("007+8"),
        vec![
            Token::new(number("007"), 0, 3),
            Token::new(TokenKind::Plus, 3, 4),
            Token::new(number("8"), 4, 5),
            Token::new(TokenKind::EndOfFile, 5, 5),
        ]
    );
}

#[test]
fn a_number_too_large_for_any_integer_is_still_one_token() {
    assert_eq!(
        lex("123456789012345678901234567890"),
        vec![
            Token::new(number("123456789012345678901234567890"), 0, 30),
            Token::new(TokenKind::EndOfFile, 30, 30),
        ]
    );
}

#[test]
fn an_unrecognized_character_becomes_an_invalid_token() {
    assert_eq!(
        lex("1 @ 2"),
        vec![
            Token::new(number("1"), 0, 1),
            Token::new(TokenKind::Invalid('@'), 2, 3),
            Token::new(number("2"), 4, 5),
            Token::new(TokenKind::EndOfFile, 5, 5),
        ]
    );
}

#[test]
fn scanning_goes_on_after_an_invalid_token() {
    assert_eq!(
        kinds("a1b"),
        vec![
            TokenKind::Invalid('a'),
            number("1"),
            TokenKind::Invalid('b'),
            TokenKind::EndOfFile,
        ]
    );
}

#[test]
fn offsets_count_bytes_not_characters() {
    // 'é' takes two bytes, '€' three and '𝄞' four.
    assert_eq!(
        lex("é1€2𝄞3"),
        vec![
            Token::new(TokenKind::Invalid('é'), 0, 2),
            Token::new(number("1"), 2, 3),
            Token::new(TokenKind::Invalid('€'), 3, 6),
            Token::new(number("2"), 6, 7),
            Token::new(TokenKind::Invalid('𝄞'), 7, 11),
            Token::new(number("3"), 11, 12),
            Token::new(TokenKind::EndOfFile, 12, 12),
        ]
    );
}

#[test]
fn digits_of_other_scripts_are_not_digits() {
    // U+0663 is ARABIC-INDIC DIGIT THREE.
    assert_eq!(
        lex("\u{663}"),
        vec![
            Token::new(TokenKind::Invalid('\u{663}'), 0, 2),
            Token::new(TokenKind::EndOfFile, 2, 2),
        ]
    );
}

#[test]
fn white_space_separates_and_is_dropped() {
    assert_eq!(
        lex(" \t1\n\r+\u{a0}\u{3000}2 "),
        vec![
            Token::new(number("1"), 2, 3),
            Token::new(TokenKind::Plus, 5, 6),
            Token::new(number("2"), 11, 12),
            Token::new(TokenKind::EndOfFile, 13, 13),
        ]
    );
}

#[test]
fn white_space_splits_a_number() {
    assert_eq!(kinds("1 2"), vec![number("1"), number("2"), TokenKind::EndOfFile]);
}

#[test]
fn a_zero_width_space_is_not_white_space() {
    assert_eq!(
        lex("\u{200b}"),
        vec![
            Token::new(TokenKind::Invalid('\u{200b}'), 0, 3),
            Token::new(TokenKind::EndOfFile, 3, 3),
        ]
    );
}

#[test]
fn an_empty_source_has_only_end_of_file() {
    assert_eq!(lex(""), vec![Token::new(TokenKind::EndOfFile, 0, 0)]);
}

#[test]
fn end_of_file_sits_at_the_end_of_the_input() {
    assert_eq!(lex("   "), vec![Token::new(TokenKind::EndOfFile, 3, 3)]);
}

#[test]
fn end_of_file_comes_once() {
    let mut lexer = Lexer::from_source("7");
    assert_eq!(lexer.next(), Some(Token::new(number("7"), 0, 1)));
    assert_eq!(lexer.next(), Some(Token::new(TokenKind::EndOfFile, 1, 1)));
    for _ in 0..10 {
        assert_eq!(lexer.next(), None);
    }
}

#[test]
fn end_of_file_comes_once_for_an_empty_source() {
    let mut lexer = Lexer::from_source("");
    assert_eq!(lexer.next(), Some(Token::new(TokenKind::EndOfFile, 0, 0)));
    assert_eq!(lexer.next(), None);
    assert_eq!(lexer.next(), None);
}

#[test]
fn the_requests_yield_what_lex_collects() {
    let source = "(1 + 23) * 4 ? 5";
    let mut lexer = Lexer::from_source(source);
    let mut tokens = Vec::new();
    while let Some(token) = lexer.next() {
        tokens.push(token);
    }
    assert_eq!(tokens, lex(source));
    let ends = tokens.iter().filter(|token| token.kind == TokenKind::EndOfFile).count();
    assert_eq!(ends, 1);
    assert_eq!(tokens.last().map(|token| &token.kind), Some(&TokenKind::EndOfFile));
}

#[test]
fn lexing_twice_gives_the_same_tokens() {
    let source = "12 * (3 - 4) / x";
    assert_eq!(lex(source), lex(source));
    let mut first = Lexer::from_source(source);
    let mut second = Lexer::from_source(source);
    for _ in 0..12 {
        assert_eq!(first.next(), second.next());
    }
}

#[test]
fn a_cloned_lexer_goes_its_own_way() {
    let mut lexer = Lexer::from_source("1 + 2");
    assert_eq!(lexer.next(), Some(Token::new(number("1"), 0, 1)));
    let mut copy = lexer.clone();
    assert_eq!(lexer.next(), Some(Token::new(TokenKind::Plus, 2, 3)));
    assert_eq!(lexer.next(), Some(Token::new(number("2"), 4, 5)));
    assert_eq!(copy.next(), Some(Token::new(TokenKind::Plus, 2, 3)));
    assert_eq!(copy.next(), Some(Token::new(number("2"), 4, 5)));
    assert_eq!(copy.next(), Some(Token::new(TokenKind::EndOfFile, 5, 5)));
    assert_eq!(copy.next(), None);
    assert_eq!(lexer.next(), Some(Token::new(TokenKind::EndOfFile, 5, 5)));
}

#[test]
fn a_token_is_made_of_its_parts() {
    let token = Token::new(TokenKind::Star, 3, 4);
    assert_eq!(token.kind, TokenKind::Star);
    assert_eq!(token.start, 3);
    assert_eq!(token.end, 4);
    assert_eq!(token.clone(), token);
}

#[test]
fn kinds_are_shown_as_they_are_written() {
    assert_eq!(TokenKind::Plus.to_text(), "+");
    assert_eq!(TokenKind::Minus.to_text(), "-");
    assert_eq!(TokenKind::Star.to_text(), "*");
    assert_eq!(TokenKind::Slash.to_text(), "/");
    assert_eq!(TokenKind::ParenLeft.to_text(), "(");
    assert_eq!(TokenKind::ParenRight.to_text(), ")");
    assert_eq!(number("042").to_text(), "042");
    assert_eq!(TokenKind::EndOfFile.to_text(), "<eof>");
    assert_eq!(TokenKind::Invalid('@').to_text(), "<invalid '@'>");
    assert_eq!(Token::new(TokenKind::Invalid('é'), 0, 2).to_text(), "<invalid 'é'>");
}

fn every_character() -> impl Iterator<Item = char> {
    (0..=0x10FFFFu32).filter_map(char::from_u32)
}

#[test]
fn exactly_the_unicode_white_space_is_dropped() {
    for c in every_character() {
        let listed = matches!(
            c as u32,
            0x0009..=0x000D
                | 0x0020
                | 0x0085
                | 0x00A0
                | 0x1680
                | 0x2000..=0x200A
                | 0x2028
                | 0x2029
                | 0x202F
                | 0x205F
                | 0x3000
        );
        let dropped = lex(&c.to_string()).len() == 1;
        assert_eq!(dropped, listed, "U+{:04X}", c as u32);
    }
}

#[test]
fn exactly_the_ten_ascii_digits_make_numbers() {
    for c in every_character() {
        let tokens = lex(&c.to_string());
        let made_a_number = matches!(tokens[0].kind, TokenKind::Number(_));
        assert_eq!(made_a_number, ('0'..='9').contains(&c), "U+{:04X}", c as u32);
    }
}

#[test]
fn every_character_is_as_wide_as_its_encoding() {
    for c in every_character() {
        let width = match c as u32 {
            0..=0x7F => 1,
            0x80..=0x7FF => 2,
            0x800..=0xFFFF => 3,
            _ => 4,
        };
        let text = c.to_string();
        assert_eq!(text.len(), width);
        let tokens = lex(&text);
        let end_of_file = tokens.last().expect("there is always a last token");
        assert_eq!((end_of_file.start, end_of_file.end), (width, width), "U+{:04X}", c as u32);
        if tokens.len() == 2 {
            assert_eq!((tokens[0].start, tokens[0].end), (0, width), "U+{:04X}", c as u32);
        }
    }
}
