//! The printed form of a tree and its errors, for tests and tools.
//!
//! One line for each node, in the order of the tree, two spaces deeper for
//! each level: the kind, `@`, and the range as `start..end`; after a node
//! without children whose text is more than whitespace, a space and the text
//! in quotes. Then an empty line, and one line for each error: `error@`, the
//! range, the text at the range in quotes, a colon, and the message.

use vstd::prelude::*;
use vstd::string::{StringExecFns, StringSliceAdditionalSpecFns};
use vstd::utf8::{decode_utf8, encode_utf8_decode_utf8};
use crate::file::{range_ok, NodeId, TomlFile, TomlNode};
use crate::lexer::is_ws;
use crate::parse::Parse;
use crate::syntax_error::SyntaxError;
use crate::text::{slice_str, TextRange};
use crate::tree::Node;

verus! {

/// The text as `{:?}` prints it: in double quotes, with the characters
/// escaped that Rust escapes in a string literal.
pub uninterp spec fn debug_quoted(text: Seq<char>) -> Seq<char>;

/// `format!("{:?}", text)` of std: the text in quotes, escaped. What it
/// returns depends on the text alone.
#[verifier::external_body]
fn quoted(text: &str) -> (r: String)
    ensures
        r@ == debug_quoted(text@),
{
    format!("{:?}", text)
}

/// The digit `d` as text.
pub open spec fn digit_view(d: nat) -> Seq<char> {
    if d == 0 {
        "0"@
    } else if d == 1 {
        "1"@
    } else if d == 2 {
        "2"@
    } else if d == 3 {
        "3"@
    } else if d == 4 {
        "4"@
    } else if d == 5 {
        "5"@
    } else if d == 6 {
        "6"@
    } else if d == 7 {
        "7"@
    } else if d == 8 {
        "8"@
    } else {
        "9"@
    }
}

/// The number `n` in decimal digits.
pub open spec fn spec_decimal(n: nat) -> Seq<char>
    decreases n,
{
    if n < 10 {
        digit_view(n)
    } else {
        spec_decimal(n / 10) + digit_view(n % 10)
    }
}

/// Two spaces for each level of depth.
pub open spec fn spec_indent(depth: nat) -> Seq<char>
    decreases depth,
{
    if depth == 0 {
        seq![]
    } else {
        spec_indent((depth - 1) as nat) + "  "@
    }
}

/// The range as `start..end`.
pub open spec fn spec_range(range: TextRange) -> Seq<char> {
    spec_decimal(range.start as nat) + ".."@ + spec_decimal(range.end as nat)
}

/// Nothing but whitespace.
pub open spec fn is_blank(bytes: Seq<u8>) -> bool {
    forall|i: int| 0 <= i < bytes.len() ==> is_ws(#[trigger] bytes[i])
}

/// The line of node `i`.
pub open spec fn node_line(ns: Seq<Node>, bytes: Seq<u8>, i: int) -> Seq<char> {
    let n = ns[i];
    let text = n.range.of(bytes);
    spec_indent(n.depth as nat) + n.kind.spec_name() + "@"@ + spec_range(n.range) + (if n.end == i
        + 1 && !is_blank(text) {
        " "@ + debug_quoted(decode_utf8(text))
    } else {
        seq![]
    }) + "\n"@
}

/// The lines of the first `k` nodes.
pub open spec fn tree_dump(ns: Seq<Node>, bytes: Seq<u8>, k: int) -> Seq<char>
    decreases k,
{
    if k <= 0 {
        seq![]
    } else {
        tree_dump(ns, bytes, k - 1) + node_line(ns, bytes, k - 1)
    }
}

/// The line of an error.
pub open spec fn error_line(error: SyntaxError, bytes: Seq<u8>) -> Seq<char> {
    "error@"@ + spec_range(error.range) + " "@ + debug_quoted(
        decode_utf8(error.range.of(bytes)),
    ) + ": "@ + error.expected.spec_message() + "\n"@
}

/// The lines of the first `k` errors.
pub open spec fn errors_dump(errors: Seq<SyntaxError>, bytes: Seq<u8>, k: int) -> Seq<char>
    decreases k,
{
    if k <= 0 {
        seq![]
    } else {
        errors_dump(errors, bytes, k - 1) + error_line(errors[k - 1], bytes)
    }
}

/// The printed form of a tree and its errors.
pub open spec fn spec_debug_dump(ns: Seq<Node>, bytes: Seq<u8>, errors: Seq<SyntaxError>) -> Seq<
    char,
> {
    tree_dump(ns, bytes, ns.len() as int) + "\n"@ + errors_dump(errors, bytes, errors.len() as int)
}

fn digit(d: usize) -> (r: &'static str)
    requires
        d < 10,
    ensures
        r@ == digit_view(d as nat),
{
    if d == 0 {
        "0"
    } else if d == 1 {
        "1"
    } else if d == 2 {
        "2"
    } else if d == 3 {
        "3"
    } else if d == 4 {
        "4"
    } else if d == 5 {
        "5"
    } else if d == 6 {
        "6"
    } else if d == 7 {
        "7"
    } else if d == 8 {
        "8"
    } else {
        "9"
    }
}

/// The number `n` in decimal digits.
pub fn decimal(n: usize) -> (r: String)
    ensures
        r@ == spec_decimal(n as nat),
    decreases n,
{
    if n < 10 {
        digit(n).to_owned()
    } else {
        let mut r = decimal(n / 10);
        r.append(digit(n % 10));
        r
    }
}

fn indent(depth: usize) -> (r: String)
    ensures
        r@ == spec_indent(depth as nat),
{
    let mut r = String::new();
    let mut i: usize = 0;
    while i < depth
        invariant
            0 <= i <= depth,
            r@ == spec_indent(i as nat),
        decreases depth - i,
    {
        r.append("  ");
        i += 1;
    }
    r
}

fn range_text(range: TextRange) -> (r: String)
    ensures
        r@ == spec_range(range),
{
    let mut r = decimal(range.start);
    r.append("..");
    r.append(decimal(range.end).as_str());
    r
}

fn blank(text: &str) -> (r: bool)
    ensures
        r == is_blank(text.spec_bytes()),
{
    let bytes = text.as_bytes();
    let mut i: usize = 0;
    while i < bytes.len()
        invariant
            0 <= i <= bytes@.len(),
            bytes@ == text.spec_bytes(),
            forall|j: int| 0 <= j < i ==> is_ws(#[trigger] bytes@[j]),
        decreases bytes@.len() - i,
    {
        let b = bytes[i];
        if !(b == crate::lexer::SPACE || b == crate::lexer::TAB || b == crate::lexer::LF || b
            == crate::lexer::CR) {
            assert(!is_ws(bytes@[i as int]));
            return false;
        }
        i += 1;
    }
    true
}

fn line_of(node: TomlNode) -> (r: String)
    ensures
        r@ == node_line(node.file().nodes(), node.file().bytes(), node.index()),
{
    proof {
        use_type_invariant(&node);
    }
    let mut r = indent(node.depth());
    r.append(node.kind().name());
    r.append("@");
    r.append(range_text(node.range()).as_str());
    let text = node.text();
    proof {
        encode_utf8_decode_utf8(text@);
        node.lemma_first();
    }
    if node.is_leaf() && !blank(text) {
        r.append(" ");
        r.append(quoted(text).as_str());
    }
    r.append("\n");
    r
}

fn error_line_of(file: &TomlFile, error: &SyntaxError) -> (r: String)
    requires
        range_ok(error.range, file.bytes()),
    ensures
        r@ == error_line(*error, file.bytes()),
{
    let mut r = "error@".to_owned();
    r.append(range_text(error.range).as_str());
    r.append(" ");
    let text = slice_str(file.text(), error.range);
    proof {
        encode_utf8_decode_utf8(text@);
    }
    r.append(quoted(text).as_str());
    r.append(": ");
    r.append(error.message().as_str());
    r.append("\n");
    r
}

impl<'f> TomlNode<'f> {
    /// The node in short: its kind, `@`, and its range.
    pub fn debug(&self) -> (r: String)
        ensures
            r@ == self.data().kind.spec_name() + "@"@ + spec_range(self.data().range),
    {
        let mut r = self.kind().name().to_owned();
        r.append("@");
        r.append(range_text(self.range()).as_str());
        r
    }
}

impl TomlFile {
    /// The printed form of the tree and the errors.
    pub fn debug_dump(&self) -> (r: String)
        ensures
            r@ == spec_debug_dump(self.nodes(), self.bytes(), self.spec_errors()),
    {
        proof {
            use_type_invariant(&*self);
        }
        let mut r = String::new();
        let n = self.node_count();
        let mut i: usize = 0;
        while i < n
            invariant
                self.wf(),
                n == self.nodes().len(),
                0 <= i <= n,
                r@ == tree_dump(self.nodes(), self.bytes(), i as int),
            decreases n - i,
        {
            let node = TomlNode::at(self, NodeId(i)).unwrap();
            r.append(line_of(node).as_str());
            i += 1;
        }
        r.append("\n");
        let ghost tree = r@;
        let errors = self.errors();
        let mut j: usize = 0;
        assert(r@ =~= tree + errors_dump(errors@, self.bytes(), 0));
        while j < errors.len()
            invariant
                self.wf(),
                errors@ == self.spec_errors(),
                0 <= j <= errors.len(),
                r@ == tree + errors_dump(errors@, self.bytes(), j as int),
            decreases errors.len() - j,
        {
            r.append(error_line_of(self, &errors[j]).as_str());
            assert(r@ =~= tree + errors_dump(errors@, self.bytes(), j + 1));
            j += 1;
        }
        r
    }
}

impl Parse {
    /// The printed form of the tree and the errors.
    pub fn debug_dump(&self) -> (r: String)
        ensures
            r@ == spec_debug_dump(
                self.file().nodes(),
                self.file().bytes(),
                self.file().spec_errors(),
            ),
    {
        proof {
            use_type_invariant(&*self);
        }
        self.toml_file().debug_dump()
    }
}

} // verus!
