use tom_syntax::lexer::{tokenize, Token};
use tom_syntax::syntax_kind::SyntaxKind;
use tom_syntax::syntax_kind::SyntaxKind::{
    BARE_KEY_LIKE, BASIC_LINE_STRING, BASIC_MULTILINE_STRING, COLON, COMMA, COMMENT, DATE_TIME,
    DOT, EQ, ERROR, FALSE, FLOAT, INT, LITERAL_LINE_STRING, LITERAL_MULTILINE_STRING, L_BRACK,
    L_CURLY, PLUS, R_BRACK, R_CURLY, TRUE, WHITESPACE,
};
use tom_syntax::text::TextRange;

fn lex(text: &str) -> Vec<(SyntaxKind, usize, usize)> {
    tokenize(text).iter().map(|t| (t.kind, t.range.start, t.range.end)).collect()
}

fn kinds(text: &str) -> Vec<SyntaxKind> {
    tokenize(text).iter().map(|t| t.kind).collect()
}

#[test]
fn empty_text_has_no_token() {
    assert_eq!(lex(""), vec![]);
}

#[test]
fn tokens_of_a_simple_entry() {
    assert_eq!(
        lex("a = 1\n"),
        vec![
            (BARE_KEY_LIKE, 0, 1),
            (WHITESPACE, 1, 2),
            (EQ, 2, 3),
            (WHITESPACE, 3, 4),
            (INT, 4, 5),
            (WHITESPACE, 5, 6),
        ]
    );
}

#[test]
fn every_punctuation_byte_is_a_token() {
    assert_eq!(
        kinds(".,[]{}=:+"),
        vec![DOT, COMMA, L_BRACK, R_BRACK, L_CURLY, R_CURLY, EQ, COLON, PLUS]
    );
}

#[test]
fn whitespace_runs_are_one_token() {
    assert_eq!(lex(" \t\r\n\n  "), vec![(WHITESPACE, 0, 7)]);
}

#[test]
fn comment_ends_before_the_line_feed() {
    assert_eq!(lex("# hi [x]\nk"), vec![(COMMENT, 0, 8), (WHITESPACE, 8, 9), (BARE_KEY_LIKE, 9, 10)]);
    assert_eq!(lex("#"), vec![(COMMENT, 0, 1)]);
    assert_eq!(lex("# to the end"), vec![(COMMENT, 0, 12)]);
}

#[test]
fn words_are_classified_by_what_they_spell() {
    assert_eq!(kinds("true"), vec![TRUE]);
    assert_eq!(kinds("false"), vec![FALSE]);
    assert_eq!(kinds("truex"), vec![BARE_KEY_LIKE]);
    assert_eq!(kinds("True"), vec![BARE_KEY_LIKE]);
    assert_eq!(kinds("92"), vec![INT]);
    assert_eq!(kinds("-92"), vec![INT]);
    assert_eq!(kinds("1_000"), vec![INT]);
    assert_eq!(kinds("0x1F"), vec![INT]);
    assert_eq!(kinds("0o17"), vec![INT]);
    assert_eq!(kinds("0b10"), vec![INT]);
    assert_eq!(kinds("1e5"), vec![FLOAT]);
    assert_eq!(kinds("inf"), vec![FLOAT]);
    assert_eq!(kinds("-nan"), vec![FLOAT]);
    assert_eq!(kinds("1914-08-26"), vec![DATE_TIME]);
    assert_eq!(kinds("1979-05-27T07"), vec![DATE_TIME]);
    assert_eq!(kinds("1914-08-2"), vec![FLOAT]);
    assert_eq!(kinds("foo-bar_9"), vec![BARE_KEY_LIKE]);
    assert_eq!(kinds("-"), vec![BARE_KEY_LIKE]);
    assert_eq!(kinds("_"), vec![BARE_KEY_LIKE]);
    assert_eq!(kinds("info"), vec![BARE_KEY_LIKE]);
}

#[test]
fn a_number_goes_on_through_a_point_before_a_digit() {
    assert_eq!(lex("8.5"), vec![(FLOAT, 0, 3)]);
    assert_eq!(lex("-0.25e-3 "), vec![(FLOAT, 0, 8), (WHITESPACE, 8, 9)]);
    assert_eq!(lex("6.626e+34"), vec![(FLOAT, 0, 9)]);
    assert_eq!(lex("1e+5"), vec![(FLOAT, 0, 4)]);
    assert_eq!(lex("3.x"), vec![(INT, 0, 1), (DOT, 1, 2), (BARE_KEY_LIKE, 2, 3)]);
    assert_eq!(lex("3."), vec![(INT, 0, 1), (DOT, 1, 2)]);
    assert_eq!(lex("a.5"), vec![(BARE_KEY_LIKE, 0, 1), (DOT, 1, 2), (INT, 2, 3)]);
    assert_eq!(lex("1+5"), vec![(INT, 0, 1), (INT, 1, 3)]);
}

#[test]
fn a_plus_before_a_number_is_its_sign() {
    assert_eq!(lex("+1"), vec![(INT, 0, 2)]);
    assert_eq!(lex("+1.5"), vec![(FLOAT, 0, 4)]);
    assert_eq!(lex("+inf"), vec![(FLOAT, 0, 4)]);
    assert_eq!(lex("+nan,"), vec![(FLOAT, 0, 4), (COMMA, 4, 5)]);
    assert_eq!(lex("+"), vec![(PLUS, 0, 1)]);
    assert_eq!(lex("+a"), vec![(PLUS, 0, 1), (BARE_KEY_LIKE, 1, 2)]);
    assert_eq!(lex("+-1"), vec![(PLUS, 0, 1), (INT, 1, 3)]);
    assert_eq!(lex("+ 1"), vec![(PLUS, 0, 1), (WHITESPACE, 1, 2), (INT, 2, 3)]);
    assert_eq!(lex("+true"), vec![(PLUS, 0, 1), (TRUE, 1, 5)]);
    assert_eq!(lex("+1979-05-27"), vec![(PLUS, 0, 1), (DATE_TIME, 1, 11)]);
}

#[test]
fn dates_and_times_go_on_through_their_colons() {
    assert_eq!(lex("1979-05-27T07:32:00Z"), vec![(DATE_TIME, 0, 20)]);
    assert_eq!(lex("1979-05-27T07:32:00-08:00"), vec![(DATE_TIME, 0, 25)]);
    assert_eq!(lex("1979-05-27T00:32:00.999999+07:00 "), vec![(DATE_TIME, 0, 32), (WHITESPACE, 32, 33)]);
    assert_eq!(lex("1979-05-27t07:32:00"), vec![(DATE_TIME, 0, 19)]);
    assert_eq!(lex("07:32:00"), vec![(DATE_TIME, 0, 8)]);
    assert_eq!(lex("07:32:00.5"), vec![(DATE_TIME, 0, 10)]);
    assert_eq!(lex("1979-05-27 07:32:00"), vec![(DATE_TIME, 0, 10), (WHITESPACE, 10, 11), (DATE_TIME, 11, 19)]);
    assert_eq!(lex("7:32"), vec![(INT, 0, 1), (COLON, 1, 2), (INT, 2, 4)]);
    assert_eq!(lex("07:x"), vec![(INT, 0, 2), (COLON, 2, 3), (BARE_KEY_LIKE, 3, 4)]);
}

#[test]
fn single_line_strings() {
    assert_eq!(lex("\"hi\""), vec![(BASIC_LINE_STRING, 0, 4)]);
    assert_eq!(lex("'hi'"), vec![(LITERAL_LINE_STRING, 0, 4)]);
    assert_eq!(lex("\"\""), vec![(BASIC_LINE_STRING, 0, 2)]);
    assert_eq!(lex("''x"), vec![(LITERAL_LINE_STRING, 0, 2), (BARE_KEY_LIKE, 2, 3)]);
}

#[test]
fn an_escaped_quote_does_not_end_a_basic_string() {
    assert_eq!(lex(r#""a\"b" c"#), vec![(BASIC_LINE_STRING, 0, 6), (WHITESPACE, 6, 7), (BARE_KEY_LIKE, 7, 8)]);
    assert_eq!(lex(r#""a\\" c"#), vec![(BASIC_LINE_STRING, 0, 5), (WHITESPACE, 5, 6), (BARE_KEY_LIKE, 6, 7)]);
}

#[test]
fn a_backslash_escapes_nothing_in_a_literal_string() {
    assert_eq!(lex(r"'a\' c"), vec![(LITERAL_LINE_STRING, 0, 4), (WHITESPACE, 4, 5), (BARE_KEY_LIKE, 5, 6)]);
}

#[test]
fn an_open_single_line_string_ends_with_its_line() {
    assert_eq!(lex("\"abc\nd"), vec![(BASIC_LINE_STRING, 0, 4), (WHITESPACE, 4, 5), (BARE_KEY_LIKE, 5, 6)]);
    assert_eq!(lex("'abc"), vec![(LITERAL_LINE_STRING, 0, 4)]);
    assert_eq!(lex("\"ab\\\nc"), vec![(BASIC_LINE_STRING, 0, 4), (WHITESPACE, 4, 5), (BARE_KEY_LIKE, 5, 6)]);
}

#[test]
fn multi_line_strings_run_to_the_closing_quotes() {
    assert_eq!(lex("\"\"\"a\nb\"\"\" x"), vec![(BASIC_MULTILINE_STRING, 0, 9), (WHITESPACE, 9, 10), (BARE_KEY_LIKE, 10, 11)]);
    assert_eq!(lex("'''a\nb''' x"), vec![(LITERAL_MULTILINE_STRING, 0, 9), (WHITESPACE, 9, 10), (BARE_KEY_LIKE, 10, 11)]);
    assert_eq!(lex("\"\"\"\"\"\""), vec![(BASIC_MULTILINE_STRING, 0, 6)]);
}

#[test]
fn quotes_inside_a_multi_line_string_do_not_end_it() {
    assert_eq!(lex("\"\"\"a\"b\"\"c\"\"\""), vec![(BASIC_MULTILINE_STRING, 0, 12)]);
    assert_eq!(lex("'''a'b''c'''"), vec![(LITERAL_MULTILINE_STRING, 0, 12)]);
    assert_eq!(lex("\"\"\"a\\\"\"\"b\"\"\""), vec![(BASIC_MULTILINE_STRING, 0, 12)]);
}

#[test]
fn an_open_multi_line_string_runs_to_the_end_of_the_text() {
    assert_eq!(lex("\"\"\"abc\n= 1\n"), vec![(BASIC_MULTILINE_STRING, 0, 11)]);
    assert_eq!(lex("'''"), vec![(LITERAL_MULTILINE_STRING, 0, 3)]);
    assert_eq!(lex("'''a''"), vec![(LITERAL_MULTILINE_STRING, 0, 6)]);
}

#[test]
fn any_other_character_is_an_error_token_of_its_own() {
    assert_eq!(lex("!"), vec![(ERROR, 0, 1)]);
    assert_eq!(lex("a@b"), vec![(BARE_KEY_LIKE, 0, 1), (ERROR, 1, 2), (BARE_KEY_LIKE, 2, 3)]);
    assert_eq!(lex("\u{e9}\u{20ac}\u{1f600}x"), vec![(ERROR, 0, 2), (ERROR, 2, 5), (ERROR, 5, 9), (BARE_KEY_LIKE, 9, 10)]);
    assert_eq!(lex("\0"), vec![(ERROR, 0, 1)]);
}

#[test]
fn tokens_cover_the_text_without_gaps() {
    for text in ["", "a = 1", "[[x]]\n# c\n'''", "\u{e9} = \"\u{20ac}\" # \u{1f600}\n", "\"\\", "a.b = {c = [1, 2]}"] {
        let tokens = tokenize(text);
        let mut at = 0;
        for token in tokens.iter() {
            assert_eq!(token.range.start, at);
            assert!(token.range.start < token.range.end);
            assert!(text.is_char_boundary(token.range.end));
            at = token.range.end;
        }
        assert_eq!(at, text.len());
    }
}

#[test]
fn only_whitespace_and_comments_are_trivia() {
    assert!(!Token { kind: WHITESPACE, range: TextRange::new(0, 1) }.is_significant());
    assert!(!Token { kind: COMMENT, range: TextRange::new(0, 1) }.is_significant());
    assert!(Token { kind: ERROR, range: TextRange::new(0, 1) }.is_significant());
    assert!(Token { kind: BARE_KEY_LIKE, range: TextRange::new(0, 1) }.is_significant());
    assert!(SyntaxKind::WHITESPACE.is_trivia());
    assert!(!SyntaxKind::NEWLINE.is_trivia());
}
