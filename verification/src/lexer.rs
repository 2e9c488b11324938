//! The tokenizer: cuts the text into tokens that cover it without gaps.
//!
//! The first byte of a token decides its class, and the token is the
//! longest of its class:
//!
//! - whitespace: a run of spaces, tabs, line feeds and carriage returns;
//! - a comment: from `#` up to the line feed;
//! - punctuation: one of `. , [ ] { } = : +`;
//! - a word: a run of ASCII letters, digits, `_` and `-`. By what it spells
//!   it is `true` or `false`, a date, an integer, a float, or else a word
//!   that can only be a key. A date or a time goes on through `:`, `.` and
//!   `+`, and a number through `.` and the `+` of an exponent, where a digit
//!   follows; a `+` before a number is its sign;
//! - a string: in single or in double quotes, on one line or, in three
//!   quotes, on many. In double quotes a backslash hides the byte after it.
//!   A string on one line that is not closed ends with its line, and one on
//!   many lines with the text;
//! - any other character, alone, as an `ERROR` token.
//!
//! Whatever spells a literal can still stand as a key: the grammar relabels
//! it there.

use vstd::prelude::*;
use vstd::string::StringSliceAdditionalSpecFns;
use vstd::utf8::*;
use crate::syntax_kind::SyntaxKind;
use crate::text::{is_cut, TextRange};

verus! {

// The bytes that the tokenizer tells apart, by their names.
pub const SPACE: u8 = 32;
pub const TAB: u8 = 9;
pub const LF: u8 = 10;
pub const CR: u8 = 13;
pub const DIGIT_0: u8 = 48;
pub const DIGIT_9: u8 = 57;
pub const UPPER_A: u8 = 65;
pub const UPPER_Z: u8 = 90;
pub const LOWER_A: u8 = 97;
pub const LOWER_Z: u8 = 122;
pub const UNDERSCORE: u8 = 95;
pub const MINUS: u8 = 45;
pub const DOT: u8 = 46;
pub const COMMA: u8 = 44;
pub const L_BRACK: u8 = 91;
pub const R_BRACK: u8 = 93;
pub const L_CURLY: u8 = 123;
pub const R_CURLY: u8 = 125;
pub const EQUALS: u8 = 61;
pub const COLON: u8 = 58;
pub const PLUS: u8 = 43;
pub const HASH: u8 = 35;
pub const DOUBLE_QUOTE: u8 = 34;
pub const SINGLE_QUOTE: u8 = 39;
pub const BACKSLASH: u8 = 92;
pub const LOWER_T: u8 = 116;
pub const LOWER_R: u8 = 114;
pub const LOWER_U: u8 = 117;
pub const LOWER_E: u8 = 101;
pub const UPPER_E: u8 = 69;
pub const LOWER_F: u8 = 102;
pub const LOWER_L: u8 = 108;
pub const LOWER_S: u8 = 115;
pub const LOWER_I: u8 = 105;
pub const LOWER_N: u8 = 110;
pub const LOWER_X: u8 = 120;
pub const LOWER_O: u8 = 111;
pub const LOWER_B: u8 = 98;

/// A token: its kind and the bytes of the text it covers.
#[derive(Clone, Copy, PartialEq, Eq, Debug, Structural)]
pub struct Token {
    pub kind: SyntaxKind,
    pub range: TextRange,
}

impl Token {
    /// A token is significant unless it is whitespace or a comment.
    pub open spec fn spec_is_significant(self) -> bool {
        !self.kind.spec_is_trivia()
    }

    /// Whether the grammar sees this token.
    #[verifier::when_used_as_spec(spec_is_significant)]
    pub fn is_significant(self) -> (r: bool)
        ensures
            r == self.spec_is_significant(),
    {
        !self.kind.is_trivia()
    }
}

/// Space, tab, line feed and carriage return.
pub open spec fn is_ws(b: u8) -> bool {
    b == SPACE || b == TAB || b == LF || b == CR
}

/// The decimal digits.
pub open spec fn is_digit(b: u8) -> bool {
    DIGIT_0 <= b <= DIGIT_9
}

/// The bytes of a bare key: ASCII letters and digits, `_` and `-`.
pub open spec fn is_word(b: u8) -> bool {
    is_digit(b) || (UPPER_A <= b <= UPPER_Z) || (LOWER_A <= b <= LOWER_Z) || b == UNDERSCORE || b == MINUS
}

/// The kind of a punctuation byte.
pub open spec fn punct_kind(b: u8) -> Option<SyntaxKind> {
    if b == DOT {
        Some(SyntaxKind::DOT)
    } else if b == COMMA {
        Some(SyntaxKind::COMMA)
    } else if b == L_BRACK {
        Some(SyntaxKind::L_BRACK)
    } else if b == R_BRACK {
        Some(SyntaxKind::R_BRACK)
    } else if b == L_CURLY {
        Some(SyntaxKind::L_CURLY)
    } else if b == R_CURLY {
        Some(SyntaxKind::R_CURLY)
    } else if b == EQUALS {
        Some(SyntaxKind::EQ)
    } else if b == COLON {
        Some(SyntaxKind::COLON)
    } else if b == PLUS {
        Some(SyntaxKind::PLUS)
    } else {
        None
    }
}

/// The end of the longest run of whitespace that starts at `i`.
pub open spec fn ws_end(s: Seq<u8>, i: int) -> int
    decreases s.len() - i,
{
    if 0 <= i < s.len() && is_ws(s[i]) {
        ws_end(s, i + 1)
    } else {
        i
    }
}

/// The end of the longest run of bare-key bytes that starts at `i`.
pub open spec fn word_end(s: Seq<u8>, i: int) -> int
    decreases s.len() - i,
{
    if 0 <= i < s.len() && is_word(s[i]) {
        word_end(s, i + 1)
    } else {
        i
    }
}

/// The position of the first line feed at or after `i`, or the end of the text.
pub open spec fn line_end(s: Seq<u8>, i: int) -> int
    decreases s.len() - i,
{
    if 0 <= i < s.len() && s[i] != LF {
        line_end(s, i + 1)
    } else {
        i
    }
}

/// The end of the run of UTF-8 continuation bytes that starts at `i`.
pub open spec fn char_end(s: Seq<u8>, i: int) -> int
    decreases s.len() - i,
{
    if 0 <= i < s.len() && is_continuation_byte(s[i]) {
        char_end(s, i + 1)
    } else {
        i
    }
}

/// Three quotes `q` in a row at `i`.
pub open spec fn at_triple(s: Seq<u8>, i: int, q: u8) -> bool {
    0 <= i && i + 3 <= s.len() && s[i] == q && s[i + 1] == q && s[i + 2] == q
}

/// The end of a single-line string with quote `q` whose body starts at `j`:
/// just after the closing quote, or, where the line or the text ends first,
/// there. With `esc`, a backslash hides the byte after it.
pub open spec fn line_string_end(s: Seq<u8>, j: int, q: u8, esc: bool) -> int
    decreases s.len() - j,
{
    if j < 0 || j >= s.len() {
        j
    } else if s[j] == LF {
        j
    } else if s[j] == q {
        j + 1
    } else if esc && s[j] == BACKSLASH && j + 1 < s.len() && s[j + 1] != LF {
        line_string_end(s, j + 2, q, esc)
    } else {
        line_string_end(s, j + 1, q, esc)
    }
}

/// The end of a multi-line string with quote `q` whose body starts at `j`:
/// just after the first three quotes in a row, or the end of the text where
/// there are none. With `esc`, a backslash hides the byte after it.
pub open spec fn multiline_string_end(s: Seq<u8>, j: int, q: u8, esc: bool) -> int
    decreases s.len() - j,
{
    if j < 0 || j >= s.len() {
        j
    } else if at_triple(s, j, q) {
        j + 3
    } else if esc && s[j] == BACKSLASH && j + 1 < s.len() {
        multiline_string_end(s, j + 2, q, esc)
    } else {
        multiline_string_end(s, j + 1, q, esc)
    }
}

/// All of `s[i..e]` are digits or `_`.
pub open spec fn all_digits(s: Seq<u8>, i: int, e: int) -> bool {
    forall|j: int| i <= j < e ==> is_digit(#[trigger] s[j]) || s[j] == UNDERSCORE
}

/// `s[i..e]` begins with a date, `dddd-dd-dd`.
pub open spec fn date_shaped(s: Seq<u8>, i: int, e: int) -> bool {
    &&& e - i >= 10
    &&& is_digit(s[i]) && is_digit(s[i + 1]) && is_digit(s[i + 2]) && is_digit(s[i + 3])
    &&& s[i + 4] == MINUS
    &&& is_digit(s[i + 5]) && is_digit(s[i + 6])
    &&& s[i + 7] == MINUS
    &&& is_digit(s[i + 8]) && is_digit(s[i + 9])
}

/// `s[i..e]` spells `true`.
pub open spec fn spells_true(s: Seq<u8>, i: int, e: int) -> bool {
    e - i == 4 && s[i] == LOWER_T && s[i + 1] == LOWER_R && s[i + 2] == LOWER_U && s[i + 3] == LOWER_E
}

/// `s[i..e]` spells `false`.
pub open spec fn spells_false(s: Seq<u8>, i: int, e: int) -> bool {
    e - i == 5 && s[i] == LOWER_F && s[i + 1] == LOWER_A && s[i + 2] == LOWER_L && s[i + 3] == LOWER_S && s[i
        + 4] == LOWER_E
}

/// `s[i..e]` spells `inf` or `nan`.
pub open spec fn spells_inf_or_nan(s: Seq<u8>, i: int, e: int) -> bool {
    e - i == 3 && ((s[i] == LOWER_I && s[i + 1] == LOWER_N && s[i + 2] == LOWER_F) || (s[i] == LOWER_N && s[i
        + 1] == LOWER_A && s[i + 2] == LOWER_N))
}

/// `s[i..e]` begins with `0x`, `0o` or `0b`.
pub open spec fn has_radix_prefix(s: Seq<u8>, i: int, e: int) -> bool {
    e - i >= 2 && s[i] == DIGIT_0 && (s[i + 1] == LOWER_X || s[i + 1] == LOWER_O || s[i + 1] == LOWER_B)
}

/// The kind of the run of bare-key bytes `s[i..e]`, by what it spells: a
/// boolean, a date, an integer, a float, or else a run that can only be a key.
/// A number may begin with `-`; a run that begins like a number and is neither
/// a date nor an integer counts as a float.
pub open spec fn word_kind(s: Seq<u8>, i: int, e: int) -> SyntaxKind {
    let d = if s[i] == MINUS { i + 1 } else { i };
    if spells_true(s, i, e) {
        SyntaxKind::TRUE
    } else if spells_false(s, i, e) {
        SyntaxKind::FALSE
    } else if d < e && is_digit(s[d]) {
        if d == i && date_shaped(s, i, e) {
            SyntaxKind::DATE_TIME
        } else if all_digits(s, d, e) || has_radix_prefix(s, d, e) {
            SyntaxKind::INT
        } else {
            SyntaxKind::FLOAT
        }
    } else if spells_inf_or_nan(s, d, e) {
        SyntaxKind::FLOAT
    } else {
        SyntaxKind::BARE_KEY_LIKE
    }
}

/// Whether the byte at `e` carries a literal on: it is followed by a digit
/// and is a `.`, or, in a date, a `:` or a `+`, or, in a number, the `+` of
/// an exponent, right after an `e`.
pub open spec fn joins(s: Seq<u8>, e: int, date: bool) -> bool {
    &&& 0 < e && e + 1 < s.len()
    &&& is_digit(s[e + 1])
    &&& (s[e] == DOT || (date && (s[e] == COLON || s[e] == PLUS)) || (!date && s[e] == PLUS && (
    s[e - 1] == LOWER_E || s[e - 1] == UPPER_E)))
}

/// Where a number or a date that has come as far as `e` ends: as long as a
/// byte carries it on, it takes that byte and the run of bare-key bytes
/// after it.
pub open spec fn more_end(s: Seq<u8>, e: int, date: bool) -> int
    decreases s.len() - e,
{
    if joins(s, e, date) {
        proof {
            lemma_word_end(s, e + 2);
        }
        more_end(s, word_end(s, e + 2), date)
    } else {
        e
    }
}

/// `s[i..e]` are two digits, and a `:` and a digit follow: a time begins.
pub open spec fn time_shaped(s: Seq<u8>, i: int, e: int) -> bool {
    e - i == 2 && is_digit(s[i]) && is_digit(s[i + 1]) && e + 1 < s.len() && s[e] == COLON
        && is_digit(s[e + 1])
}

/// The token that begins with the run of bare-key bytes `s[i..w]`. A date
/// or a time goes on through `:`, `.` and `+`, a number through `.` and the
/// `+` of an exponent, each where a digit follows; a number that goes on is
/// a float. Any other run is the token.
pub open spec fn literal_at(s: Seq<u8>, i: int, w: int) -> (SyntaxKind, int) {
    let kind = word_kind(s, i, w);
    if kind == SyntaxKind::DATE_TIME || time_shaped(s, i, w) {
        (SyntaxKind::DATE_TIME, more_end(s, w, true))
    } else if kind == SyntaxKind::INT || kind == SyntaxKind::FLOAT {
        (
            if more_end(s, w, false) > w {
                SyntaxKind::FLOAT
            } else {
                kind
            },
            more_end(s, w, false),
        )
    } else {
        (kind, w)
    }
}

/// A `+` at `i` is the sign of a number: a run of bare-key bytes follows that
/// spells a number without a sign of its own.
pub open spec fn plus_number(s: Seq<u8>, i: int) -> bool {
    let w = word_end(s, i + 1);
    &&& w > i + 1
    &&& s[i + 1] != MINUS
    &&& !time_shaped(s, i + 1, w)
    &&& (word_kind(s, i + 1, w) == SyntaxKind::INT || word_kind(s, i + 1, w) == SyntaxKind::FLOAT)
}

/// The token that starts at `i`: its kind and where it ends. The first byte
/// decides the class, and the token is the longest of that class:
/// a run of whitespace; a comment, up to the end of its line; a number with
/// the sign `+`; one punctuation byte; a run of bare-key bytes, with what a
/// number or a date adds to it; a quoted string; or, for any other
/// character, that one character as an error.
#[verifier::opaque]
pub open spec fn token_at(s: Seq<u8>, i: int) -> (SyntaxKind, int)
    recommends
        0 <= i < s.len(),
{
    let b = s[i];
    if is_ws(b) {
        (SyntaxKind::WHITESPACE, ws_end(s, i + 1))
    } else if b == HASH {
        (SyntaxKind::COMMENT, line_end(s, i + 1))
    } else if b == PLUS && plus_number(s, i) {
        literal_at(s, i + 1, word_end(s, i + 1))
    } else if punct_kind(b) is Some {
        (punct_kind(b)->0, i + 1)
    } else if is_word(b) {
        literal_at(s, i, word_end(s, i + 1))
    } else if b == DOUBLE_QUOTE {
        if at_triple(s, i, b) {
            (SyntaxKind::BASIC_MULTILINE_STRING, multiline_string_end(s, i + 3, b, true))
        } else {
            (SyntaxKind::BASIC_LINE_STRING, line_string_end(s, i + 1, b, true))
        }
    } else if b == SINGLE_QUOTE {
        if at_triple(s, i, b) {
            (SyntaxKind::LITERAL_MULTILINE_STRING, multiline_string_end(s, i + 3, b, false))
        } else {
            (SyntaxKind::LITERAL_LINE_STRING, line_string_end(s, i + 1, b, false))
        }
    } else {
        (SyntaxKind::ERROR, char_end(s, i + 1))
    }
}

/// A run of whitespace ends inside the text, after whitespace.
pub proof fn lemma_ws_end(s: Seq<u8>, i: int)
    requires
        0 <= i <= s.len(),
    ensures
        i <= ws_end(s, i) <= s.len(),
        ws_end(s, i) > i ==> is_ws(s[ws_end(s, i) - 1]),
    decreases s.len() - i,
{
    if i < s.len() && is_ws(s[i]) {
        lemma_ws_end(s, i + 1);
    }
}

/// A run of bare-key bytes ends inside the text, after such a byte.
pub proof fn lemma_word_end(s: Seq<u8>, i: int)
    requires
        0 <= i <= s.len(),
    ensures
        i <= word_end(s, i) <= s.len(),
        word_end(s, i) > i ==> is_word(s[word_end(s, i) - 1]),
    decreases s.len() - i,
{
    if i < s.len() && is_word(s[i]) {
        lemma_word_end(s, i + 1);
    }
}

/// What a number or a date adds ends inside the text, after an ASCII byte.
pub proof fn lemma_more_end(s: Seq<u8>, e: int, date: bool)
    requires
        0 < e <= s.len(),
        s[e - 1] < 0x80,
    ensures
        e <= more_end(s, e, date) <= s.len(),
        s[more_end(s, e, date) - 1] < 0x80,
    decreases s.len() - e,
{
    if joins(s, e, date) {
        lemma_word_end(s, e + 2);
        lemma_more_end(s, word_end(s, e + 2), date);
    }
}

/// A line ends inside the text, at a line feed or at the end of the text.
pub proof fn lemma_line_end(s: Seq<u8>, i: int)
    requires
        0 <= i <= s.len(),
    ensures
        i <= line_end(s, i) <= s.len(),
        line_end(s, i) < s.len() ==> s[line_end(s, i)] == LF,
    decreases s.len() - i,
{
    if i < s.len() && s[i] != LF {
        lemma_line_end(s, i + 1);
    }
}

/// A character ends inside the text, before a byte that continues none.
pub proof fn lemma_char_end(s: Seq<u8>, i: int)
    requires
        0 <= i <= s.len(),
    ensures
        i <= char_end(s, i) <= s.len(),
        char_end(s, i) < s.len() ==> !is_continuation_byte(s[char_end(s, i)]),
    decreases s.len() - i,
{
    if i < s.len() && is_continuation_byte(s[i]) {
        lemma_char_end(s, i + 1);
    }
}

/// A single-line string ends inside the text: at its end, at a line feed, or
/// after a quote.
pub proof fn lemma_line_string_end(s: Seq<u8>, j: int, q: u8, esc: bool)
    requires
        0 <= j <= s.len(),
    ensures
        j <= line_string_end(s, j, q, esc) <= s.len(),
        ({
            let e = line_string_end(s, j, q, esc);
            e == s.len() || s[e] == LF || (e > j && s[e - 1] == q)
        }),
    decreases s.len() - j,
{
    if j >= s.len() || s[j] == LF || s[j] == q {
    } else if esc && s[j] == BACKSLASH && j + 1 < s.len() && s[j + 1] != LF {
        lemma_line_string_end(s, j + 2, q, esc);
    } else {
        lemma_line_string_end(s, j + 1, q, esc);
    }
}

/// A multi-line string ends inside the text: at its end, or after a quote.
pub proof fn lemma_multiline_string_end(s: Seq<u8>, j: int, q: u8, esc: bool)
    requires
        0 <= j <= s.len(),
    ensures
        j <= multiline_string_end(s, j, q, esc) <= s.len(),
        ({
            let e = multiline_string_end(s, j, q, esc);
            e == s.len() || (e > j && s[e - 1] == q)
        }),
    decreases s.len() - j,
{
    if j >= s.len() || at_triple(s, j, q) {
    } else if esc && s[j] == BACKSLASH && j + 1 < s.len() {
        lemma_multiline_string_end(s, j + 2, q, esc);
    } else {
        lemma_multiline_string_end(s, j + 1, q, esc);
    }
}

/// Every token holds at least one byte, stays inside the text, and ends where
/// the text may be cut.
pub proof fn lemma_token_at(s: Seq<u8>, i: int)
    requires
        0 <= i < s.len(),
    ensures
        i < token_at(s, i).1 <= s.len(),
        is_cut(s, token_at(s, i).1),
{
    reveal(token_at);
    lemma_ws_end(s, i + 1);
    lemma_word_end(s, i + 1);
    if word_end(s, i + 1) > i + 1 || is_word(s[i]) {
        lemma_more_end(s, word_end(s, i + 1), true);
        lemma_more_end(s, word_end(s, i + 1), false);
    }
    lemma_line_end(s, i + 1);
    lemma_char_end(s, i + 1);
    lemma_line_string_end(s, i + 1, s[i], true);
    lemma_line_string_end(s, i + 1, s[i], false);
    if at_triple(s, i, s[i]) {
        lemma_multiline_string_end(s, i + 3, s[i], true);
        lemma_multiline_string_end(s, i + 3, s[i], false);
    }
}

/// The tokens of `s[i..]`, in order.
pub open spec fn tokens_from(s: Seq<u8>, i: int) -> Seq<Token>
    decreases s.len() - i,
{
    if 0 <= i < s.len() {
        let (kind, end) = token_at(s, i);
        proof {
            lemma_token_at(s, i);
        }
        seq![Token { kind, range: TextRange { start: i as usize, end: end as usize } }]
            + tokens_from(s, end)
    } else {
        seq![]
    }
}

/// The tokens of the text `s`.
pub open spec fn spec_tokenize(s: Seq<u8>) -> Seq<Token> {
    tokens_from(s, 0)
}

/// The tokens cover `from..to` in order, without gap or overlap, and none of
/// them is empty.
pub open spec fn tiles(tokens: Seq<Token>, from: int, to: int) -> bool {
    &&& from <= to
    &&& tokens.len() == 0 ==> from == to
    &&& tokens.len() > 0 ==> tokens[0].range.start == from && tokens[tokens.len() - 1].range.end
        == to
    &&& forall|k: int|
        0 <= k < tokens.len() ==> (#[trigger] tokens[k]).range.start < tokens[k].range.end
    &&& forall|j: int, k: int|
        0 <= j && k == j + 1 && k < tokens.len() ==> (#[trigger] tokens[j]).range.end == (
        #[trigger] tokens[k]).range.start
}

/// Each token is the one that `token_at` finds where it starts.
pub open spec fn each_is_token_at(tokens: Seq<Token>, s: Seq<u8>) -> bool {
    forall|k: int|
        0 <= k < tokens.len() ==> {
            let t = #[trigger] tokens[k];
            &&& 0 <= t.range.start < s.len()
            &&& token_at(s, t.range.start as int) == (t.kind, t.range.end as int)
        }
}

/// The tokens of `s[i..]` cover `i..s.len()`, and each is the longest token
/// of its class at its place.
pub proof fn lemma_tokens_from(s: Seq<u8>, i: int)
    requires
        0 <= i <= s.len() <= usize::MAX,
    ensures
        tiles(tokens_from(s, i), i, s.len() as int),
        each_is_token_at(tokens_from(s, i), s),
        forall|k: int|
            0 <= k < tokens_from(s, i).len() ==> is_cut(
                s,
                (#[trigger] tokens_from(s, i)[k]).range.end as int,
            ),
    decreases s.len() - i,
{
    if i < s.len() {
        let (kind, end) = token_at(s, i);
        lemma_token_at(s, i);
        lemma_tokens_from(s, end);
        let first = Token { kind, range: TextRange { start: i as usize, end: end as usize } };
        let rest = tokens_from(s, end);
        let all = tokens_from(s, i);
        assert(all == seq![first] + rest);
        assert forall|k: int| 0 <= k < all.len() implies {
            &&& (#[trigger] all[k]).range.start < all[k].range.end
            &&& is_cut(s, all[k].range.end as int)
            &&& 0 <= all[k].range.start < s.len()
            &&& token_at(s, all[k].range.start as int) == (all[k].kind, all[k].range.end as int)
        } by {
            if k > 0 {
                assert(all[k] == rest[k - 1]);
            }
        }
        assert forall|j: int, k: int| 0 <= j && k == j + 1 && k < all.len() implies (
        #[trigger] all[j]).range.end == (#[trigger] all[k]).range.start by {
            assert(all[k] == rest[j]);
            if j > 0 {
                assert(all[j] == rest[j - 1]);
            }
        }
        if rest.len() > 0 {
            assert(all[all.len() - 1] == rest[rest.len() - 1]);
        }
    }
}

fn ws_byte(b: u8) -> (r: bool)
    ensures
        r == is_ws(b),
{
    b == SPACE || b == TAB || b == LF || b == CR
}

fn digit_byte(b: u8) -> (r: bool)
    ensures
        r == is_digit(b),
{
    DIGIT_0 <= b && b <= DIGIT_9
}

fn word_byte(b: u8) -> (r: bool)
    ensures
        r == is_word(b),
{
    digit_byte(b) || (UPPER_A <= b && b <= UPPER_Z) || (LOWER_A <= b && b <= LOWER_Z) || b
        == UNDERSCORE || b == MINUS
}

fn punct_of(b: u8) -> (r: Option<SyntaxKind>)
    ensures
        r == punct_kind(b),
{
    if b == DOT {
        Some(SyntaxKind::DOT)
    } else if b == COMMA {
        Some(SyntaxKind::COMMA)
    } else if b == L_BRACK {
        Some(SyntaxKind::L_BRACK)
    } else if b == R_BRACK {
        Some(SyntaxKind::R_BRACK)
    } else if b == L_CURLY {
        Some(SyntaxKind::L_CURLY)
    } else if b == R_CURLY {
        Some(SyntaxKind::R_CURLY)
    } else if b == EQUALS {
        Some(SyntaxKind::EQ)
    } else if b == COLON {
        Some(SyntaxKind::COLON)
    } else if b == PLUS {
        Some(SyntaxKind::PLUS)
    } else {
        None
    }
}

fn scan_ws(bytes: &[u8], start: usize) -> (end: usize)
    requires
        start <= bytes.len(),
    ensures
        end as int == ws_end(bytes@, start as int),
        start <= end <= bytes.len(),
{
    let mut j = start;
    while j < bytes.len() && ws_byte(bytes[j])
        invariant
            start <= j <= bytes.len(),
            ws_end(bytes@, j as int) == ws_end(bytes@, start as int),
        decreases bytes.len() - j,
    {
        j += 1;
    }
    j
}

fn scan_word(bytes: &[u8], start: usize) -> (end: usize)
    requires
        start <= bytes.len(),
    ensures
        end as int == word_end(bytes@, start as int),
        start <= end <= bytes.len(),
{
    let mut j = start;
    while j < bytes.len() && word_byte(bytes[j])
        invariant
            start <= j <= bytes.len(),
            word_end(bytes@, j as int) == word_end(bytes@, start as int),
        decreases bytes.len() - j,
    {
        j += 1;
    }
    j
}

fn scan_line(bytes: &[u8], start: usize) -> (end: usize)
    requires
        start <= bytes.len(),
    ensures
        end as int == line_end(bytes@, start as int),
        start <= end <= bytes.len(),
{
    let mut j = start;
    while j < bytes.len() && bytes[j] != LF
        invariant
            start <= j <= bytes.len(),
            line_end(bytes@, j as int) == line_end(bytes@, start as int),
        decreases bytes.len() - j,
    {
        j += 1;
    }
    j
}

fn scan_char(bytes: &[u8], start: usize) -> (end: usize)
    requires
        start <= bytes.len(),
    ensures
        end as int == char_end(bytes@, start as int),
        start <= end <= bytes.len(),
{
    let mut j = start;
    while j < bytes.len() && 0x80 <= bytes[j] && bytes[j] <= 0xbf
        invariant
            start <= j <= bytes.len(),
            char_end(bytes@, j as int) == char_end(bytes@, start as int),
        decreases bytes.len() - j,
    {
        j += 1;
    }
    j
}

fn triple_at(bytes: &[u8], i: usize, q: u8) -> (r: bool)
    requires
        i <= bytes.len(),
    ensures
        r == at_triple(bytes@, i as int, q),
{
    bytes.len() - i >= 3 && bytes[i] == q && bytes[i + 1] == q && bytes[i + 2] == q
}

fn scan_line_string(bytes: &[u8], start: usize, q: u8, esc: bool) -> (end: usize)
    requires
        start <= bytes.len(),
    ensures
        end as int == line_string_end(bytes@, start as int, q, esc),
        start <= end <= bytes.len(),
{
    let mut j = start;
    loop
        invariant
            start <= j <= bytes.len(),
            line_string_end(bytes@, j as int, q, esc) == line_string_end(
                bytes@,
                start as int,
                q,
                esc,
            ),
        decreases bytes.len() - j,
    {
        if j >= bytes.len() || bytes[j] == LF {
            return j;
        } else if bytes[j] == q {
            return j + 1;
        } else if esc && bytes[j] == BACKSLASH && j + 1 < bytes.len() && bytes[j + 1] != LF {
            j += 2;
        } else {
            j += 1;
        }
    }
}

fn scan_multiline_string(bytes: &[u8], start: usize, q: u8, esc: bool) -> (end: usize)
    requires
        start <= bytes.len(),
    ensures
        end as int == multiline_string_end(bytes@, start as int, q, esc),
        start <= end <= bytes.len(),
{
    let mut j = start;
    loop
        invariant
            start <= j <= bytes.len(),
            multiline_string_end(bytes@, j as int, q, esc) == multiline_string_end(
                bytes@,
                start as int,
                q,
                esc,
            ),
        decreases bytes.len() - j,
    {
        if j >= bytes.len() {
            return j;
        } else if triple_at(bytes, j, q) {
            return j + 3;
        } else if esc && bytes[j] == BACKSLASH && j + 1 < bytes.len() {
            j += 2;
        } else {
            j += 1;
        }
    }
}

fn only_digits(bytes: &[u8], i: usize, e: usize) -> (r: bool)
    requires
        i <= e <= bytes.len(),
    ensures
        r == all_digits(bytes@, i as int, e as int),
{
    let mut j = i;
    while j < e
        invariant
            i <= j <= e <= bytes.len(),
            all_digits(bytes@, i as int, j as int),
        decreases e - j,
    {
        if !(digit_byte(bytes[j]) || bytes[j] == UNDERSCORE) {
            return false;
        }
        j += 1;
    }
    true
}

fn is_date_shaped(bytes: &[u8], i: usize, e: usize) -> (r: bool)
    requires
        i <= e <= bytes.len(),
    ensures
        r == date_shaped(bytes@, i as int, e as int),
{
    e - i >= 10 && digit_byte(bytes[i]) && digit_byte(bytes[i + 1]) && digit_byte(bytes[i + 2])
        && digit_byte(bytes[i + 3]) && bytes[i + 4] == MINUS && digit_byte(bytes[i + 5])
        && digit_byte(bytes[i + 6]) && bytes[i + 7] == MINUS && digit_byte(bytes[i + 8])
        && digit_byte(bytes[i + 9])
}

fn classify_word(bytes: &[u8], i: usize, e: usize) -> (k: SyntaxKind)
    requires
        i < e <= bytes.len(),
    ensures
        k == word_kind(bytes@, i as int, e as int),
{
    let d = if bytes[i] == MINUS { i + 1 } else { i };
    if e - i == 4 && bytes[i] == LOWER_T && bytes[i + 1] == LOWER_R && bytes[i + 2] == LOWER_U
        && bytes[i + 3] == LOWER_E {
        SyntaxKind::TRUE
    } else if e - i == 5 && bytes[i] == LOWER_F && bytes[i + 1] == LOWER_A && bytes[i + 2]
        == LOWER_L && bytes[i + 3] == LOWER_S && bytes[i + 4] == LOWER_E {
        SyntaxKind::FALSE
    } else if d < e && digit_byte(bytes[d]) {
        if d == i && is_date_shaped(bytes, i, e) {
            SyntaxKind::DATE_TIME
        } else if only_digits(bytes, d, e) || (e - d >= 2 && bytes[d] == DIGIT_0 && (bytes[d + 1]
            == LOWER_X || bytes[d + 1] == LOWER_O || bytes[d + 1] == LOWER_B)) {
            SyntaxKind::INT
        } else {
            SyntaxKind::FLOAT
        }
    } else if e - d == 3 && ((bytes[d] == LOWER_I && bytes[d + 1] == LOWER_N && bytes[d + 2]
        == LOWER_F) || (bytes[d] == LOWER_N && bytes[d + 1] == LOWER_A && bytes[d + 2]
        == LOWER_N)) {
        SyntaxKind::FLOAT
    } else {
        SyntaxKind::BARE_KEY_LIKE
    }
}

fn scan_more(bytes: &[u8], from: usize, date: bool) -> (end: usize)
    requires
        0 < from <= bytes.len(),
    ensures
        end as int == more_end(bytes@, from as int, date),
        from <= end <= bytes.len(),
{
    let mut e = from;
    loop
        invariant
            0 < from <= e <= bytes.len(),
            more_end(bytes@, e as int, date) == more_end(bytes@, from as int, date),
        ensures
            e as int == more_end(bytes@, from as int, date),
            from <= e <= bytes.len(),
        decreases bytes.len() - e,
    {
        if bytes.len() - e < 2 || !digit_byte(bytes[e + 1]) {
            break ;
        }
        let b = bytes[e];
        let carries = b == DOT || (date && (b == COLON || b == PLUS)) || (!date && b == PLUS && (
        bytes[e - 1] == LOWER_E || bytes[e - 1] == UPPER_E));
        if !carries {
            break ;
        }
        e = scan_word(bytes, e + 2);
    }
    e
}

fn scan_literal(bytes: &[u8], i: usize, w: usize) -> (r: (SyntaxKind, usize))
    requires
        i < w <= bytes.len(),
    ensures
        (r.0, r.1 as int) == literal_at(bytes@, i as int, w as int),
        w <= r.1 <= bytes.len(),
{
    let kind = classify_word(bytes, i, w);
    let timed = w - i == 2 && digit_byte(bytes[i]) && digit_byte(bytes[i + 1]) && bytes.len() - w
        >= 2 && bytes[w] == COLON && digit_byte(bytes[w + 1]);
    if kind == SyntaxKind::DATE_TIME || timed {
        (SyntaxKind::DATE_TIME, scan_more(bytes, w, true))
    } else if kind == SyntaxKind::INT || kind == SyntaxKind::FLOAT {
        let end = scan_more(bytes, w, false);
        (
            if end > w {
                SyntaxKind::FLOAT
            } else {
                kind
            },
            end,
        )
    } else {
        (kind, w)
    }
}

fn signs_number(bytes: &[u8], i: usize) -> (r: bool)
    requires
        i < bytes.len(),
    ensures
        r == plus_number(bytes@, i as int),
{
    let w = scan_word(bytes, i + 1);
    if w > i + 1 && bytes[i + 1] != MINUS {
        let timed = w - (i + 1) == 2 && digit_byte(bytes[i + 1]) && digit_byte(bytes[i + 2])
            && bytes.len() - w >= 2 && bytes[w] == COLON && digit_byte(bytes[w + 1]);
        let kind = classify_word(bytes, i + 1, w);
        !timed && (kind == SyntaxKind::INT || kind == SyntaxKind::FLOAT)
    } else {
        false
    }
}

fn scan_token(bytes: &[u8], i: usize) -> (r: (SyntaxKind, usize))
    requires
        i < bytes.len(),
    ensures
        (r.0, r.1 as int) == token_at(bytes@, i as int),
        i < r.1 <= bytes.len(),
{
    proof {
        reveal(token_at);
        lemma_token_at(bytes@, i as int);
    }
    let b = bytes[i];
    if ws_byte(b) {
        (SyntaxKind::WHITESPACE, scan_ws(bytes, i + 1))
    } else if b == HASH {
        (SyntaxKind::COMMENT, scan_line(bytes, i + 1))
    } else if b == PLUS && signs_number(bytes, i) {
        scan_literal(bytes, i + 1, scan_word(bytes, i + 1))
    } else if let Some(kind) = punct_of(b) {
        (kind, i + 1)
    } else if word_byte(b) {
        scan_literal(bytes, i, scan_word(bytes, i + 1))
    } else if b == DOUBLE_QUOTE {
        if triple_at(bytes, i, b) {
            (SyntaxKind::BASIC_MULTILINE_STRING, scan_multiline_string(bytes, i + 3, b, true))
        } else {
            (SyntaxKind::BASIC_LINE_STRING, scan_line_string(bytes, i + 1, b, true))
        }
    } else if b == SINGLE_QUOTE {
        if triple_at(bytes, i, b) {
            (SyntaxKind::LITERAL_MULTILINE_STRING, scan_multiline_string(bytes, i + 3, b, false))
        } else {
            (SyntaxKind::LITERAL_LINE_STRING, scan_line_string(bytes, i + 1, b, false))
        }
    } else {
        (SyntaxKind::ERROR, scan_char(bytes, i + 1))
    }
}

/// Cuts `text` into its tokens. Every byte of the text belongs to exactly one
/// token, and a character that starts no token becomes an `ERROR` token of
/// its own, so that no text is ever refused.
pub fn tokenize(text: &str) -> (tokens: Vec<Token>)
    ensures
        tokens@ == spec_tokenize(text.spec_bytes()),
        tiles(tokens@, 0, text.spec_bytes().len() as int),
        each_is_token_at(tokens@, text.spec_bytes()),
        forall|k: int|
            0 <= k < tokens.len() ==> is_char_boundary(
                text.spec_bytes(),
                (#[trigger] tokens[k]).range.end as int,
            ),
{
    let bytes = text.as_bytes();
    let n = bytes.len();
    let mut tokens: Vec<Token> = Vec::new();
    let mut pos: usize = 0;
    while pos < n
        invariant
            n == bytes@.len(),
            pos <= n,
            tokens@ + tokens_from(bytes@, pos as int) == tokens_from(bytes@, 0),
        decreases n - pos,
    {
        let (kind, end) = scan_token(bytes, pos);
        let token = Token { kind, range: TextRange { start: pos, end } };
        proof {
            let rest = tokens_from(bytes@, end as int);
            assert(tokens_from(bytes@, pos as int) == seq![token] + rest);
            assert(tokens@.push(token) + rest =~= tokens@ + (seq![token] + rest));
        }
        tokens.push(token);
        pos = end;
    }
    proof {
        assert(tokens@ + tokens_from(bytes@, pos as int) =~= tokens@);
        lemma_tokens_from(bytes@, 0);
        encode_utf8_valid_utf8(text@);
        assert forall|k: int| 0 <= k < tokens.len() implies is_char_boundary(
            bytes@,
            (#[trigger] tokens[k]).range.end as int,
        ) by {
            crate::text::lemma_cut_is_boundary(bytes@, tokens[k].range.end as int);
        }
    }
    tokens
}

/// The tokens of a tiling lie inside what they tile.
pub proof fn lemma_tiles_fit(tokens: Seq<Token>, from: int, to: int, k: int)
    requires
        tiles(tokens, from, to),
        0 <= k < tokens.len(),
    ensures
        from <= tokens[k].range.start < tokens[k].range.end <= to,
    decreases tokens.len() - k, k,
{
    if k + 1 < tokens.len() {
        lemma_tiles_fit(tokens, from, to, k + 1);
        assert(tokens[k].range.end == tokens[k + 1].range.start);
    }
    if k > 0 {
        lemma_tiles_start(tokens, from, to, k - 1);
        assert(tokens[k - 1].range.end == tokens[k].range.start);
    }
}

proof fn lemma_tiles_start(tokens: Seq<Token>, from: int, to: int, k: int)
    requires
        tiles(tokens, from, to),
        0 <= k < tokens.len(),
    ensures
        from <= tokens[k].range.start,
    decreases k,
{
    if k > 0 {
        lemma_tiles_start(tokens, from, to, k - 1);
        assert(tokens[k - 1].range.end == tokens[k].range.start);
    }
}

} // verus!
