//! Reading values off the tokens: the name of a key, the inside of a string,
//! a boolean, an integer. Nothing is unescaped.

use vstd::prelude::*;
use vstd::string::StringSliceAdditionalSpecFns;
use vstd::utf8::is_char_boundary;
use crate::ast::{
    first_significant, first_token, AstNode, AstToken, Bool, IntNumber, Key, StringLit, Value,
};
use crate::file::TomlNode;
use crate::lexer::{is_digit, DIGIT_0, DIGIT_9, LOWER_E, LOWER_R, LOWER_T, LOWER_U, MINUS, PLUS};
use crate::syntax_kind::SyntaxKind;
use crate::text::{slice_str, TextRange};

verus! {

/// The bytes of `true`.
pub open spec fn true_bytes() -> Seq<u8> {
    seq![LOWER_T, LOWER_R, LOWER_U, LOWER_E]
}

/// The number that the first `n` of the digits `s` spell.
pub open spec fn digits_value(s: Seq<u8>, n: int) -> int
    decreases n,
{
    if n <= 0 {
        0
    } else {
        digits_value(s, n - 1) * 10 + (s[n - 1] - DIGIT_0)
    }
}

/// All of `s` are decimal digits.
pub open spec fn only_decimal(s: Seq<u8>) -> bool {
    forall|i: int| 0 <= i < s.len() ==> is_digit(#[trigger] s[i])
}

/// The integer that `s` spells: an optional `+` or `-` and then decimal
/// digits, at least one, and nothing else. `None` where `s` is not of that
/// form or the integer does not fit in 64 bits.
pub open spec fn spec_int(s: Seq<u8>) -> Option<i64> {
    let signed = s.len() > 0 && (s[0] == MINUS || s[0] == PLUS);
    let digits = if signed { s.subrange(1, s.len() as int) } else { s };
    let magnitude = digits_value(digits, digits.len() as int);
    let value = if s.len() > 0 && s[0] == MINUS { -magnitude } else { magnitude };
    if digits.len() > 0 && only_decimal(digits) && i64::MIN <= value <= i64::MAX {
        Some(value as i64)
    } else {
        None
    }
}

/// The text without its first and its last byte; `None` where it has less
/// than two bytes or does not begin and end with a character of one byte.
pub open spec fn spec_inside(s: Seq<u8>) -> Option<Seq<u8>> {
    if s.len() >= 2 && is_char_boundary(s, 1) && is_char_boundary(s, s.len() - 1) {
        Some(s.subrange(1, s.len() - 1))
    } else {
        None
    }
}

proof fn lemma_digits_grow(s: Seq<u8>, k: int, n: int)
    requires
        0 <= k <= n <= s.len(),
        only_decimal(s),
    ensures
        0 <= digits_value(s, k) <= digits_value(s, n),
    decreases n,
{
    if n > 0 {
        if k < n {
            lemma_digits_grow(s, k, n - 1);
            assert(is_digit(s[n - 1]));
        } else {
            lemma_digits_grow(s, k - 1, n - 1);
            assert(is_digit(s[n - 1]));
        }
    }
}

/// The integer that `text` spells.
#[verifier::loop_isolation(false)]
pub fn parse_int(text: &str) -> (r: Option<i64>)
    ensures
        r == spec_int(text.spec_bytes()),
{
    let bytes = text.as_bytes();
    let n = bytes.len();
    let signed = n > 0 && (bytes[0] == MINUS || bytes[0] == PLUS);
    let negative = n > 0 && bytes[0] == MINUS;
    let start: usize = if signed { 1 } else { 0 };
    if start == n {
        return None;
    }
    let ghost digits = if signed { bytes@.subrange(1, n as int) } else { bytes@ };
    let limit: i128 = 0x8000_0000_0000_0000;
    let mut acc: i128 = 0;
    let mut i = start;
    while i < n
        invariant
            start <= i <= n,
            n == bytes@.len(),
            digits == (if signed { bytes@.subrange(1, n as int) } else { bytes@ }),
            start == (if signed { 1usize } else { 0usize }),
            limit == 0x8000_0000_0000_0000,
            forall|j: int| 0 <= j < i - start ==> is_digit(#[trigger] digits[j]),
            acc == digits_value(digits, i - start),
            0 <= acc <= limit,
        decreases n - i,
    {
        let b = bytes[i];
        assert(digits[i - start] == b);
        if !(DIGIT_0 <= b && b <= DIGIT_9) {
            assert(!is_digit(digits[i - start]));
            return None;
        }
        let next = acc * 10 + (b - DIGIT_0) as i128;
        if next > limit {
            proof {
                if only_decimal(digits) {
                    lemma_digits_grow(digits, i - start + 1, digits.len() as int);
                }
            }
            return None;
        }
        acc = next;
        i += 1;
    }
    assert(only_decimal(digits));
    if negative {
        Some((-acc) as i64)
    } else if acc < limit {
        Some(acc as i64)
    } else {
        None
    }
}

/// The text without its first and its last byte.
pub fn inside(text: &str) -> (r: Option<&str>)
    ensures
        match r {
            Some(inner) => spec_inside(text.spec_bytes()) == Some(inner.spec_bytes()),
            None => spec_inside(text.spec_bytes()) is None,
        },
{
    let n = text.as_bytes().len();
    if n >= 2 && text.is_char_boundary(1) && text.is_char_boundary(n - 1) {
        Some(slice_str(text, TextRange { start: 1, end: n - 1 }))
    } else {
        None
    }
}

impl<'f> StringLit<'f> {
    /// The text between the first and the last byte of the string: what is
    /// between the quotes of a string on one line.
    pub fn value(&self) -> (r: Option<&'f str>)
        ensures
            match r {
                Some(inner) => spec_inside(
                    self.spec_syntax().data().range.of(self.spec_syntax().file().bytes()),
                ) == Some(inner.spec_bytes()),
                None => spec_inside(
                    self.spec_syntax().data().range.of(self.spec_syntax().file().bytes()),
                ) is None,
            },
    {
        inside(self.text())
    }
}

impl<'f> Bool<'f> {
    /// Whether the token spells `true`.
    pub fn value(&self) -> (r: bool)
        ensures
            r == (self.spec_syntax().data().range.of(self.spec_syntax().file().bytes())
                == true_bytes()),
    {
        let bytes = self.text().as_bytes();
        let r = bytes.len() == 4 && bytes[0] == LOWER_T && bytes[1] == LOWER_R && bytes[2]
            == LOWER_U && bytes[3] == LOWER_E;
        proof {
            if r {
                assert(bytes@ =~= true_bytes());
            } else if bytes@.len() == 4 {
                assert(true_bytes()[0] == LOWER_T && true_bytes()[1] == LOWER_R && true_bytes()[2]
                    == LOWER_U && true_bytes()[3] == LOWER_E);
            }
        }
        r
    }
}

impl<'f> IntNumber<'f> {
    /// The integer that the token spells; `None` where it spells none that
    /// fits in 64 bits.
    pub fn value(&self) -> (r: Option<i64>)
        ensures
            r == spec_int(self.spec_syntax().data().range.of(self.spec_syntax().file().bytes())),
    {
        parse_int(self.text())
    }
}

impl<'f> Key<'f> {
    /// The name of the key: the text of a bare key, or what is between the
    /// quotes of a quoted one. `None` where the key has no such token.
    pub fn name(&self) -> (r: Option<&'f str>)
        ensures
            ({
                let node = self.spec_syntax();
                let ns = node.file().nodes();
                let bytes = node.file().bytes();
                match first_token(ns, node.spec_children(), |k: SyntaxKind| !k.spec_is_trivia()) {
                    Some(t) => if ns[t].kind == SyntaxKind::BARE_KEY {
                        r matches Some(name) && name.spec_bytes() == ns[t].range.of(bytes)
                    } else if ns[t].kind == SyntaxKind::BASIC_LINE_STRING || ns[t].kind
                        == SyntaxKind::LITERAL_LINE_STRING {
                        match r {
                            Some(name) => spec_inside(ns[t].range.of(bytes)) == Some(
                                name.spec_bytes(),
                            ),
                            None => spec_inside(ns[t].range.of(bytes)) is None,
                        }
                    } else {
                        r is None
                    },
                    None => r is None,
                }
            }),
    {
        match first_significant(self.syntax()) {
            Some(token) => match token.kind() {
                SyntaxKind::BARE_KEY => Some(token.text()),
                SyntaxKind::BASIC_LINE_STRING | SyntaxKind::LITERAL_LINE_STRING => inside(
                    token.text(),
                ),
                _ => None,
            },
            None => None,
        }
    }
}

/// The first of the nodes at the positions `run` that the search for a
/// token finds is a token.
proof fn lemma_first_token(
    ns: Seq<crate::tree::Node>,
    run: Seq<int>,
    wanted: spec_fn(SyntaxKind) -> bool,
)
    ensures
        first_token(ns, run, wanted) matches Some(t) ==> ns[t].token && wanted(ns[t].kind),
    decreases run.len(),
{
    if run.len() > 0 && !(ns[run[0]].token && wanted(ns[run[0]].kind)) {
        lemma_first_token(ns, run.drop_first(), wanted);
    }
}

impl<'f> Value<'f> {
    /// The token of the value, by its position in the tree, where the value
    /// is a literal: the first child of the literal that is a token and no
    /// trivia.
    pub open spec fn spec_token(&self) -> Option<int> {
        match self {
            Value::AtomLiteral(literal) => first_token(
                literal.spec_syntax().file().nodes(),
                literal.spec_syntax().spec_children(),
                |k: SyntaxKind| !k.spec_is_trivia(),
            ),
            _ => None,
        }
    }

    /// The text of the node at `t`.
    pub open spec fn text_at(&self, t: int) -> Seq<u8> {
        self.spec_syntax().file().nodes()[t].range.of(self.spec_syntax().file().bytes())
    }

    /// The kind of the node at `t`.
    pub open spec fn kind_at(&self, t: int) -> SyntaxKind {
        self.spec_syntax().file().nodes()[t].kind
    }

    fn literal_token(&self) -> (r: Option<TomlNode<'f>>)
        ensures
            match r {
                Some(t) => t.wf() && t.file() == self.spec_syntax().file() && t.data().token
                    && self.spec_token() == Some(t.index()),
                None => self.spec_token() is None,
            },
    {
        match self {
            Value::AtomLiteral(literal) => {
                proof {
                    lemma_first_token(
                        literal.spec_syntax().file().nodes(),
                        literal.spec_syntax().spec_children(),
                        |k: SyntaxKind| !k.spec_is_trivia(),
                    );
                }
                literal.token()
            },
            _ => None,
        }
    }

    /// What is between the quotes, where the value is a string.
    pub fn as_string(&self) -> (r: Option<&'f str>)
        ensures
            match self.spec_token() {
                Some(t) => if StringLit::spec_can_cast(self.kind_at(t)) {
                    match r {
                        Some(inner) => spec_inside(self.text_at(t)) == Some(inner.spec_bytes()),
                        None => spec_inside(self.text_at(t)) is None,
                    }
                } else {
                    r is None
                },
                None => r is None,
            },
    {
        match self.literal_token() {
            Some(token) => match StringLit::cast(token) {
                Some(string) => string.value(),
                None => None,
            },
            None => None,
        }
    }

    /// The boolean, where the value is one.
    pub fn as_bool(&self) -> (r: Option<bool>)
        ensures
            r == match self.spec_token() {
                Some(t) => if Bool::spec_can_cast(self.kind_at(t)) {
                    Some(self.text_at(t) == true_bytes())
                } else {
                    None
                },
                None => None,
            },
    {
        match self.literal_token() {
            Some(token) => match Bool::cast(token) {
                Some(b) => Some(b.value()),
                None => None,
            },
            None => None,
        }
    }

    /// The integer, where the value is one that fits in 64 bits.
    pub fn as_i64(&self) -> (r: Option<i64>)
        ensures
            r == match self.spec_token() {
                Some(t) => if IntNumber::spec_can_cast(self.kind_at(t)) {
                    spec_int(self.text_at(t))
                } else {
                    None
                },
                None => None,
            },
    {
        match self.literal_token() {
            Some(token) => match IntNumber::cast(token) {
                Some(number) => number.value(),
                None => None,
            },
            None => None,
        }
    }
}

} // verus!
