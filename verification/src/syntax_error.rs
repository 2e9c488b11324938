//! Diagnostics: what was expected, and where.

use vstd::prelude::*;
use vstd::string::StringExecFns;
use crate::event::Expected;
use crate::text::TextRange;

verus! {

impl Expected {
    /// The words of the diagnostic.
    pub open spec fn spec_message(self) -> Seq<char> {
        match self {
            Expected::Key => "expected a key"@,
            Expected::Value => "expected a value"@,
            Expected::Kind(kind) => "expected "@ + kind.spec_name(),
        }
    }

    /// The words of the diagnostic.
    pub fn message(self) -> (m: String)
        ensures
            m@ == self.spec_message(),
    {
        match self {
            Expected::Key => "expected a key".to_owned(),
            Expected::Value => "expected a value".to_owned(),
            Expected::Kind(kind) => {
                let mut m = "expected ".to_owned();
                m.append(kind.name());
                m
            },
        }
    }
}

/// A syntax error: what the parser expected, and the range of the token at
/// which it did not find it.
#[derive(Clone, Copy, PartialEq, Eq, Debug, Structural)]
pub struct SyntaxError {
    pub expected: Expected,
    pub range: TextRange,
}

impl SyntaxError {
    /// The error that `expected` is missing at `range`.
    pub fn new(expected: Expected, range: TextRange) -> (e: SyntaxError)
        ensures
            e == (SyntaxError { expected, range }),
    {
        SyntaxError { expected, range }
    }

    /// The words of the diagnostic.
    pub fn message(&self) -> (m: String)
        ensures
            m@ == self.expected.spec_message(),
    {
        self.expected.message()
    }

    /// Where in the text the error was found.
    pub fn range(&self) -> (r: TextRange)
        ensures
            r == self.range,
    {
        self.range
    }
}

} // verus!
