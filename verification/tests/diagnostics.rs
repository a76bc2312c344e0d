use minsk::diagnostics::{locate, render_diagnostic, unrecognized_token_message, Location};
use minsk::lexer::{lex, TokenKind};
use minsk::repl::{reset_escape_code, Color};
use minsk::text::{characters, decimal_text};

fn place(line_index: usize, column_index: usize) -> Location {
    Location { line_index, column_index }
}

#[test]
fn the_invalid_character_is_found_in_the_third_column() {
    let source = "1 @ 2";
    let tokens = lex(source);
    let offender = tokens
        .iter()
        .find(|token| matches!(token.kind, TokenKind::Invalid(_)))
        .expect("the source holds an invalid token");
    assert_eq!(offender.kind, TokenKind::Invalid('@'));
    assert_eq!(offender.start, 2);
    assert_eq!(locate(source, offender.start), place(0, 2));
    let text = render_diagnostic(source, offender.start, &unrecognized_token_message('@'));
    assert!(text.contains("stdin:1:3:"));
}

#[test]
fn the_diagnostic_is_rendered_to_the_letter() {
    assert_eq!(
        render_diagnostic("1 @ 2", 2, "unrecognized token '@'"),
        concat_all(&[
            "\x1b[1;37mstdin:1:3:",
            "\x1b[1;31m error:",
            "\x1b[1;37m unrecognized token '@'\n",
            "\x1b[0m    1 | 1 @ 2\n",
            "      |   \x1b[1;32m^\x1b[0m\n",
            "1 error generated.\n",
        ])
    );
}

fn concat_all(parts: &[&str]) -> String {
    let mut text = String::new();
    for part in parts {
        text.push_str(part);
    }
    text
}

#[test]
fn the_caret_stands_under_the_first_column() {
    assert_eq!(
        render_diagnostic("?", 0, "unexpected"),
        concat_all(&[
            "\x1b[1;37mstdin:1:1:\x1b[1;31m error:\x1b[1;37m unexpected\n",
            "\x1b[0m    1 | ?\n",
            "      | \x1b[1;32m^\x1b[0m\n1 error generated.\n",
        ])
    );
}

#[test]
fn lines_are_counted_from_the_line_feeds() {
    let source = "1 +\n2 *\n  $ 3\n4";
    assert_eq!(locate(source, 0), place(0, 0));
    assert_eq!(locate(source, 3), place(0, 3));
    assert_eq!(locate(source, 4), place(1, 0));
    assert_eq!(locate(source, 10), place(2, 2));
    assert_eq!(locate(source, 14), place(3, 0));
    assert_eq!(
        render_diagnostic(source, 10, "unrecognized token '$'"),
        concat_all(&[
            "\x1b[1;37mstdin:3:3:\x1b[1;31m error:\x1b[1;37m unrecognized token '$'\n",
            "\x1b[0m    3 |   $ 3\n",
            "      |   \x1b[1;32m^\x1b[0m\n1 error generated.\n",
        ])
    );
}

#[test]
fn the_line_feed_belongs_to_the_line_it_ends() {
    assert_eq!(locate("ab\ncd", 2), place(0, 2));
    assert_eq!(
        render_diagnostic("ab\ncd", 2, "m"),
        concat_all(&[
            "\x1b[1;37mstdin:1:3:\x1b[1;31m error:\x1b[1;37m m\n",
            "\x1b[0m    1 | ab\n",
            "      |   \x1b[1;32m^\x1b[0m\n1 error generated.\n",
        ])
    );
}

#[test]
fn columns_count_characters_not_bytes() {
    let source = "é€𝄞@";
    assert_eq!(locate(source, 9), place(0, 3));
    assert_eq!(
        render_diagnostic(source, 9, "unrecognized token '@'"),
        concat_all(&[
            "\x1b[1;37mstdin:1:4:\x1b[1;31m error:\x1b[1;37m unrecognized token '@'\n",
            "\x1b[0m    1 | é€𝄞@\n",
            "      |    \x1b[1;32m^\x1b[0m\n1 error generated.\n",
        ])
    );
}

#[test]
fn an_offset_inside_a_character_counts_as_the_next_one() {
    assert_eq!(locate("é1", 1), place(0, 1));
    assert_eq!(locate("é1", 2), place(0, 1));
    assert_eq!(locate("é1", 3), place(0, 2));
}

#[test]
fn an_offset_past_the_end_counts_as_the_end() {
    assert_eq!(locate("12", 2), place(0, 2));
    assert_eq!(locate("12", 200), place(0, 2));
    assert_eq!(locate("12\n", 200), place(1, 0));
    assert_eq!(locate("", 0), place(0, 0));
    assert_eq!(locate("", 5), place(0, 0));
}

#[test]
fn the_line_after_the_last_line_feed_is_empty() {
    assert_eq!(
        render_diagnostic("12\n", 3, "m"),
        concat_all(&[
            "\x1b[1;37mstdin:2:1:\x1b[1;31m error:\x1b[1;37m m\n",
            "\x1b[0m    2 | \n",
            "      | \x1b[1;32m^\x1b[0m\n1 error generated.\n",
        ])
    );
    assert_eq!(
        render_diagnostic("", 0, "m"),
        concat_all(&[
            "\x1b[1;37mstdin:1:1:\x1b[1;31m error:\x1b[1;37m m\n",
            "\x1b[0m    1 | \n",
            "      | \x1b[1;32m^\x1b[0m\n1 error generated.\n",
        ])
    );
}

#[test]
fn a_carriage_return_before_the_line_feed_is_not_shown() {
    assert_eq!(
        render_diagnostic("1 #\r\n2", 2, "m"),
        concat_all(&[
            "\x1b[1;37mstdin:1:3:\x1b[1;31m error:\x1b[1;37m m\n",
            "\x1b[0m    1 | 1 #\n",
            "      |   \x1b[1;32m^\x1b[0m\n1 error generated.\n",
        ])
    );
}

#[test]
fn a_carriage_return_at_the_end_of_the_source_is_shown() {
    assert_eq!(
        render_diagnostic("1 #\r", 2, "m"),
        concat_all(&[
            "\x1b[1;37mstdin:1:3:\x1b[1;31m error:\x1b[1;37m m\n",
            "\x1b[0m    1 | 1 #\r\n",
            "      |   \x1b[1;32m^\x1b[0m\n1 error generated.\n",
        ])
    );
}

#[test]
fn the_line_number_is_right_aligned_in_five_columns() {
    let mut source = "\n".repeat(122);
    source.push('!');
    let text = render_diagnostic(&source, 122, "m");
    assert!(text.starts_with("\x1b[1;37mstdin:123:1:"));
    assert!(text.contains("\x1b[0m  123 | !\n"));

    let mut source = "\n".repeat(123455);
    source.push('!');
    let text = render_diagnostic(&source, 123455, "m");
    assert!(text.starts_with("\x1b[1;37mstdin:123456:1:"));
    assert!(text.contains("\x1b[0m123456 | !\n"));
}

#[test]
fn the_message_names_the_character() {
    assert_eq!(unrecognized_token_message('@'), "unrecognized token '@'");
    assert_eq!(unrecognized_token_message('é'), "unrecognized token 'é'");
    assert_eq!(unrecognized_token_message('\''), "unrecognized token '''");
}

#[test]
fn numbers_are_written_in_decimal() {
    assert_eq!(decimal_text(0), "0");
    assert_eq!(decimal_text(7), "7");
    assert_eq!(decimal_text(10), "10");
    assert_eq!(decimal_text(1234567890), "1234567890");
    assert_eq!(decimal_text(u128::MAX), "340282366920938463463374607431768211455");
}

#[test]
fn a_source_is_taken_apart_into_its_characters() {
    assert_eq!(characters(""), Vec::<char>::new());
    assert_eq!(characters("1 é"), vec!['1', ' ', 'é']);
}

#[test]
fn the_colors_are_bold_ansi_colors() {
    assert_eq!(Color::Red.as_ansi_escape_code(), "\x1b[1;31m");
    assert_eq!(Color::Green.as_ansi_escape_code(), "\x1b[1;32m");
    assert_eq!(Color::White.as_ansi_escape_code(), "\x1b[1;37m");
    assert_eq!(reset_escape_code(), "\x1b[0m");
}

/// The diagnostic as the formatting machinery of the standard library
/// composes it, for the places whose line `str::lines` finds.
fn formatted_by_hand(source: &str, offset: usize, message: &str) -> Option<String> {
    let mut line_index = 0;
    let mut column_index = 0;
    for (index, c) in source.char_indices() {
        if index >= offset {
            break;
        }
        column_index += 1;
        if c == '\n' {
            line_index += 1;
            column_index = 0;
        }
    }
    let line = source.lines().nth(line_index)?;
    let mut text = String::new();
    text.push_str(&format!("\x1b[1;37mstdin:{}:{}:", line_index + 1, column_index + 1));
    text.push_str("\x1b[1;31m error:");
    text.push_str(&format!("\x1b[1;37m {message}\n"));
    text.push_str(&format!("\x1b[0m{:5} | {line}\n", line_index + 1));
    text.push_str("      | ");
    for _ in 0..column_index {
        text.push(' ');
    }
    text.push_str("\x1b[1;32m^");
    text.push_str("\x1b[0m\n1 error generated.\n");
    Some(text)
}

#[test]
fn the_diagnostic_agrees_with_formatting_by_hand() {
    let sources = [
        "1 @ 2",
        "1 +\n2 *\n  $ 3\n4",
        "é€𝄞@\r\n\r\n12\r",
        "\n\n\n\n\n\n\n\n\n\n\n\n?",
        "a\rb\n\rc",
        "x\n",
    ];
    let mut compared = 0;
    for source in sources {
        for offset in 0..=source.len() + 1 {
            if let Some(expected) = formatted_by_hand(source, offset, "unrecognized token") {
                assert_eq!(render_diagnostic(source, offset, "unrecognized token"), expected);
                compared += 1;
            }
        }
    }
    assert!(compared > 60);
}
