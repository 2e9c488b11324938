//! A parsed text: the text, its syntax tree and its syntax errors, and the
//! handles by which the tree is walked.

use vstd::prelude::*;
use vstd::string::StringSliceAdditionalSpecFns;
use vstd::utf8::{
    encode_utf8, encode_utf8_valid_utf8, is_char_boundary, is_char_boundary_start_end_of_seq,
    valid_utf8,
};
use crate::ast::{AstNode, Doc};
use crate::event::Event;
use crate::grammar::{lemma_doc, s_doc};
use crate::lexer::{lemma_tiles_fit, lemma_tokens_from, spec_tokenize, tiles, tokenize, Token};
use crate::parser::parse_events;
use crate::sink::{
    error_count, error_range, kind_given, lemma_error_range, lemma_sink, lemma_sink_pos,
    leaf_tokens, run_sink, same_place, sink_fold, steps_rooted, Step,
};
use crate::syntax_error::SyntaxError;
use crate::syntax_kind::SyntaxKind;
use crate::text::{intersect, slice_str, spec_intersect, TextRange};
use crate::token_source::{significant_kinds, TextTokenSource};
use crate::tree::{
    chain_end, chained, child_run, children_of, lemma_first_child, lemma_is_child,
    lemma_offset_grows, node_ok, offset_before, shape, step_nodes, token_leaves, tree_wf, Node,
    ParseTree,
};

verus! {

/// The range lies inside the text and begins and ends at character
/// boundaries.
pub open spec fn range_ok(range: TextRange, bytes: Seq<u8>) -> bool {
    &&& range.fits(bytes.len() as int)
    &&& is_char_boundary(bytes, range.start as int)
    &&& is_char_boundary(bytes, range.end as int)
}

/// The events of the document that the text `bytes` holds.
pub open spec fn spec_events(bytes: Seq<u8>) -> Seq<Event> {
    s_doc(significant_kinds(spec_tokenize(bytes)))
}

/// The steps that build the tree of the text `bytes`.
pub open spec fn spec_steps(bytes: Seq<u8>) -> Seq<Step> {
    sink_fold(spec_tokenize(bytes), bytes, spec_events(bytes), spec_events(bytes).len() as int).1
}

/// The syntax errors of the text `bytes`, in the order in which they are met.
pub open spec fn spec_errors(bytes: Seq<u8>) -> Seq<SyntaxError> {
    sink_fold(spec_tokenize(bytes), bytes, spec_events(bytes), spec_events(bytes).len() as int).2
}

/// The steps of every text build one `DOC` node whose leaves are the tokens
/// of the text, each in its place, and there is one error for each error
/// event of the grammar.
pub proof fn lemma_parse(bytes: Seq<u8>)
    requires
        bytes.len() <= usize::MAX,
    ensures
        steps_rooted(spec_steps(bytes)),
        spec_steps(bytes)[0] == Step::Open(SyntaxKind::DOC),
        ({
            let raw = spec_tokenize(bytes);
            let leaf = leaf_tokens(spec_steps(bytes), spec_steps(bytes).len() as int);
            &&& leaf.len() == raw.len()
            &&& forall|i: int| 0 <= i < raw.len() ==> same_place(#[trigger] leaf[i], raw[i])
            &&& forall|i: int|
                0 <= i < raw.len() ==> kind_given(
                    raw,
                    spec_events(bytes),
                    spec_events(bytes).len() as int,
                    #[trigger] leaf[i],
                    i,
                )
            &&& tiles(leaf, 0, bytes.len() as int)
            &&& chained(leaf)
            &&& chain_end(leaf) == bytes.len()
        }),
        spec_errors(bytes).len() == error_count(spec_events(bytes), spec_events(bytes).len() as int),
{
    let raw = spec_tokenize(bytes);
    let kinds = significant_kinds(raw);
    let events = spec_events(bytes);
    lemma_tokens_from(bytes, 0);
    lemma_doc(kinds);
    lemma_sink(raw, bytes, events);
    let leaf = leaf_tokens(spec_steps(bytes), spec_steps(bytes).len() as int);
    assert forall|k: int| 0 <= k < leaf.len() implies (#[trigger] leaf[k]).range.start
        < leaf[k].range.end by {
        assert(same_place(leaf[k], raw[k]));
    }
    assert forall|j: int, k: int| 0 <= j && k == j + 1 && k < leaf.len() implies (
    #[trigger] leaf[j]).range.end == (#[trigger] leaf[k]).range.start by {
        assert(same_place(leaf[j], raw[j]));
        assert(same_place(leaf[k], raw[k]));
    }
    if leaf.len() > 0 {
        assert(same_place(leaf[0], raw[0]));
        assert(same_place(leaf[leaf.len() - 1], raw[raw.len() - 1]));
    }
}

/// Tokenizes and parses `text`: the steps that build its tree, and its
/// syntax errors.
pub fn parse_steps(text: &str) -> (r: (Vec<Step>, Vec<SyntaxError>))
    ensures
        text.spec_bytes().len() <= usize::MAX,
        r.0@ == spec_steps(text.spec_bytes()),
        r.1@ == spec_errors(text.spec_bytes()),
        forall|i: int| 0 <= i < r.1.len() ==> range_ok((#[trigger] r.1[i]).range, text.spec_bytes()),
        forall|i: int|
            0 <= i < leaf_tokens(r.0@, r.0@.len() as int).len() ==> range_ok(
                (#[trigger] leaf_tokens(r.0@, r.0@.len() as int)[i]).range,
                text.spec_bytes(),
            ),
{
    let ghost bytes = text.spec_bytes();
    let tokens = tokenize(text);
    proof {
        encode_utf8_valid_utf8(text@);
        assert forall|i: int| 0 <= i < tokens@.len() implies (#[trigger] tokens@[i]).range.fits(
            bytes.len() as int,
        ) by {
            lemma_tiles_fit(tokens@, 0, bytes.len() as int, i);
        }
    }
    let source = TextTokenSource::new(text, tokens.as_slice());
    let events = parse_events(source);
    let r = run_sink(text, tokens.as_slice(), events.as_slice());
    proof {
        lemma_parse(bytes);
        let leaf = leaf_tokens(r.0@, r.0@.len() as int);
        assert forall|i: int| 0 <= i < leaf.len() implies is_char_boundary(
            bytes,
            (#[trigger] leaf[i]).range.end as int,
        ) by {
            assert(same_place(leaf[i], tokens@[i]));
        }
        assert forall|i: int| 0 <= i < leaf.len() implies range_ok((#[trigger] leaf[i]).range, bytes) by {
            lemma_token_range(leaf, bytes, i);
        }
        lemma_error_ranges(tokens@, bytes, events@, events@.len() as int);
    }
    r
}

/// Every error is reported at a token of the text, or at the start of an
/// empty text.
pub proof fn lemma_error_ranges(raw: Seq<Token>, bytes: Seq<u8>, events: Seq<Event>, n: int)
    requires
        0 <= n <= events.len(),
        tiles(raw, 0, bytes.len() as int),
        valid_utf8(bytes),
        forall|k: int|
            0 <= k < raw.len() ==> is_char_boundary(bytes, (#[trigger] raw[k]).range.end as int),
    ensures
        forall|i: int|
            0 <= i < sink_fold(raw, bytes, events, n).2.len() ==> {
                let range = (#[trigger] sink_fold(raw, bytes, events, n).2[i]).range;
                &&& range.fits(bytes.len() as int)
                &&& is_char_boundary(bytes, range.start as int)
                &&& is_char_boundary(bytes, range.end as int)
            },
    decreases n,
{
    if n > 0 {
        lemma_error_ranges(raw, bytes, events, n - 1);
        let st = sink_fold(raw, bytes, events, n - 1);
        let next = sink_fold(raw, bytes, events, n);
        is_char_boundary_start_end_of_seq(bytes);
        lemma_sink_pos(raw, bytes, events, n - 1);
        lemma_error_range(raw, st.0);
        if raw.len() > 0 {
            let x = choose|x: int| 0 <= x < raw.len() && error_range(raw, st.0) == raw[x].range;
            lemma_token_range(raw, bytes, x);
        }
        assert forall|i: int| 0 <= i < next.2.len() implies {
            let range = (#[trigger] next.2[i]).range;
            &&& range.fits(bytes.len() as int)
            &&& is_char_boundary(bytes, range.start as int)
            &&& is_char_boundary(bytes, range.end as int)
        } by {
            if i < st.2.len() {
                assert(next.2[i] == st.2[i]);
            }
        }
    }
}

/// A token of a tiling of UTF-8 text lies inside the text and begins and
/// ends at character boundaries, if every token ends at one.
pub proof fn lemma_token_range(raw: Seq<Token>, bytes: Seq<u8>, k: int)
    requires
        0 <= k < raw.len(),
        tiles(raw, 0, bytes.len() as int),
        valid_utf8(bytes),
        forall|k: int|
            0 <= k < raw.len() ==> is_char_boundary(bytes, (#[trigger] raw[k]).range.end as int),
    ensures
        raw[k].range.fits(bytes.len() as int),
        is_char_boundary(bytes, raw[k].range.start as int),
        is_char_boundary(bytes, raw[k].range.end as int),
{
    is_char_boundary_start_end_of_seq(bytes);
    lemma_tiles_fit(raw, 0, bytes.len() as int, k);
    if k > 0 {
        assert(raw[k - 1].range.end == raw[k].range.start);
    }
}

/// The tree, the text and the errors belong together: the tree is well
/// formed, its root is a `DOC` node that covers the whole text, and every
/// range of a node or of an error can be cut out of the text.
pub open spec fn file_wf(ns: Seq<Node>, bytes: Seq<u8>, errors: Seq<SyntaxError>) -> bool {
    &&& tree_wf(ns)
    &&& offset_before(ns, ns.len() as int) == bytes.len()
    &&& ns[0].kind == SyntaxKind::DOC
    &&& forall|i: int| 0 <= i < ns.len() ==> range_ok((#[trigger] ns[i]).range, bytes)
    &&& forall|i: int| 0 <= i < errors.len() ==> range_ok((#[trigger] errors[i]).range, bytes)
}

/// A token among the first `k` nodes is among the tokens of those nodes.
pub proof fn lemma_token_in_leaves(ns: Seq<Node>, k: int, i: int)
    requires
        0 <= i < k <= ns.len(),
        ns[i].token,
    ensures
        exists|j: int|
            0 <= j < token_leaves(ns, k).len() && (#[trigger] token_leaves(ns, k)[j]).range
                == ns[i].range,
    decreases k,
{
    if i == k - 1 {
        assert(token_leaves(ns, k)[token_leaves(ns, k).len() - 1].range == ns[i].range);
    } else {
        lemma_token_in_leaves(ns, k - 1, i);
        let j = choose|j: int|
            0 <= j < token_leaves(ns, k - 1).len() && (#[trigger] token_leaves(ns, k - 1)[j]).range
                == ns[i].range;
        assert(token_leaves(ns, k)[j] == token_leaves(ns, k - 1)[j]);
    }
}

/// Where every token ends at a character boundary, every node begins at one.
pub proof fn lemma_offsets_cut(ns: Seq<Node>, bytes: Seq<u8>, k: int)
    requires
        tree_wf(ns),
        valid_utf8(bytes),
        0 <= k <= ns.len(),
        forall|i: int|
            0 <= i < ns.len() && (#[trigger] ns[i]).token ==> is_char_boundary(
                bytes,
                ns[i].range.end as int,
            ),
    ensures
        is_char_boundary(bytes, offset_before(ns, k)),
    decreases k,
{
    is_char_boundary_start_end_of_seq(bytes);
    if k > 0 {
        lemma_offsets_cut(ns, bytes, k - 1);
        assert(node_ok(ns, k - 1));
    }
}

/// The identity of a node within its tree.
#[derive(Clone, Copy, PartialEq, Eq, Debug, Hash, Structural)]
pub struct NodeId(pub usize);

/// A text with its syntax tree and its syntax errors.
pub struct TomlFile {
    parse_tree: ParseTree,
    text: String,
    errors: Vec<SyntaxError>,
}

impl TomlFile {
    /// The nodes of the tree, in the order in which they begin.
    pub closed spec fn nodes(&self) -> Seq<Node> {
        self.parse_tree.nodes()
    }

    /// The text.
    pub closed spec fn text_view(&self) -> Seq<char> {
        self.text@
    }

    /// The bytes of the text.
    pub open spec fn bytes(&self) -> Seq<u8> {
        encode_utf8(self.text_view())
    }

    /// The syntax errors.
    pub closed spec fn spec_errors(&self) -> Seq<SyntaxError> {
        self.errors@
    }

    /// See [`file_wf`].
    pub open spec fn wf(&self) -> bool {
        file_wf(self.nodes(), self.bytes(), self.spec_errors())
    }

    /// Every file is well formed.
    #[verifier::type_invariant]
    pub open spec fn inv(&self) -> bool {
        self.wf()
    }

    /// Parses `text`. Every text has a tree: what the grammar cannot use is
    /// kept in `ERROR` nodes and reported among the errors.
    pub fn new(text: String) -> (file: TomlFile)
        ensures
            file.wf(),
            file.text_view() == text@,
            file.parsed(),
    {
        let (steps, errors) = parse_steps(text.as_str());
        TomlFile::from_steps(text, steps.as_slice(), errors)
    }

    /// The tree is the one that the steps of the text build, and the errors
    /// are those of the text.
    pub open spec fn parsed(&self) -> bool {
        let steps = spec_steps(self.bytes());
        &&& shape(self.nodes()) == step_nodes(steps, steps.len() as int)
        &&& token_leaves(self.nodes(), self.nodes().len() as int) == leaf_tokens(
            steps,
            steps.len() as int,
        )
        &&& self.spec_errors() == spec_errors(self.bytes())
    }

    /// The file of `text`, from the steps and the errors of its parse.
    pub(crate) fn from_steps(text: String, steps: &[Step], errors: Vec<SyntaxError>) -> (file:
        TomlFile)
        requires
            steps@ == spec_steps(encode_utf8(text@)),
            errors@ == spec_errors(encode_utf8(text@)),
            encode_utf8(text@).len() <= usize::MAX,
            forall|i: int|
                0 <= i < errors.len() ==> range_ok((#[trigger] errors[i]).range, encode_utf8(text@)),
            forall|i: int|
                0 <= i < leaf_tokens(steps@, steps@.len() as int).len() ==> range_ok(
                    (#[trigger] leaf_tokens(steps@, steps@.len() as int)[i]).range,
                    encode_utf8(text@),
                ),
        ensures
            file.wf(),
            file.text_view() == text@,
            file.parsed(),
    {
        let ghost bytes = encode_utf8(text@);
        proof {
            lemma_parse(bytes);
        }
        let parse_tree = ParseTree::build(steps);
        proof {
            let ns = parse_tree.nodes();
            encode_utf8_valid_utf8(text@);
            lemma_step_nodes_first(steps@, steps@.len() as int);
            assert(shape(ns)[0] == step_nodes(steps@, steps@.len() as int)[0]);
            assert forall|i: int| 0 <= i < ns.len() && (#[trigger] ns[i]).token implies is_char_boundary(
                bytes,
                ns[i].range.end as int,
            ) by {
                lemma_token_in_leaves(ns, ns.len() as int, i);
            }
            assert forall|i: int| 0 <= i < ns.len() implies range_ok(
                (#[trigger] ns[i]).range,
                bytes,
            ) by {
                assert(node_ok(ns, i));
                lemma_offsets_cut(ns, bytes, i);
                lemma_offsets_cut(ns, bytes, ns[i].end as int);
                lemma_offset_grows(ns, i, ns[i].end as int);
                lemma_offset_grows(ns, ns[i].end as int, ns.len() as int);
            }
        }
        TomlFile { parse_tree, text, errors }
    }

    /// The text.
    pub fn text(&self) -> (text: &str)
        ensures
            text@ == self.text_view(),
    {
        self.text.as_str()
    }

    /// The syntax errors, in the order in which they were met.
    pub fn errors(&self) -> (errors: &Vec<SyntaxError>)
        ensures
            errors@ == self.spec_errors(),
    {
        &self.errors
    }

    /// The root of the tree.
    pub fn parse_tree(&self) -> (root: TomlNode<'_>)
        ensures
            root.wf(),
            root.file() == *self,
            root.index() == 0,
            root.data().kind == SyntaxKind::DOC,
    {
        proof {
            use_type_invariant(&*self);
        }
        TomlNode { file: self, id: NodeId(0) }
    }

    /// The document: the typed root of the tree.
    pub fn ast(&self) -> (doc: Doc<'_>)
        ensures
            doc.spec_syntax().wf(),
            doc.spec_syntax().file() == *self,
            doc.spec_syntax().index() == 0,
    {
        proof {
            use_type_invariant(&*self);
        }
        Doc::cast(self.parse_tree()).unwrap()
    }

    /// The number of nodes of the tree.
    pub fn node_count(&self) -> (n: usize)
        ensures
            n == self.nodes().len(),
    {
        self.parse_tree.len()
    }
}

/// The first step of a tree is its root, at depth 0.
pub proof fn lemma_step_nodes_first(steps: Seq<Step>, n: int)
    requires
        0 < n <= steps.len(),
        steps[0] is Open,
    ensures
        step_nodes(steps, n).len() > 0,
        step_nodes(steps, n)[0] == (steps[0]->Open_0, false, 0int),
    decreases n,
{
    if n > 1 {
        lemma_step_nodes_first(steps, n - 1);
    } else {
        assert(step_nodes(steps, 0).len() == 0);
        assert(crate::sink::step_depth(steps, 0) == 0);
    }
}

/// `std::ptr::eq`: whether the two references point to the same place. Two
/// references to one place see one value there.
#[verifier::external_body]
fn same_file(a: &TomlFile, b: &TomlFile) -> (r: bool)
    ensures
        r ==> *a == *b,
{
    std::ptr::eq(a, b)
}

/// A node of the tree of a file.
#[derive(Clone, Copy)]
pub struct TomlNode<'f> {
    file: &'f TomlFile,
    id: NodeId,
}

impl<'f> TomlNode<'f> {
    /// The file whose tree the node belongs to.
    pub closed spec fn file(self) -> TomlFile {
        *self.file
    }

    /// The position of the node among the nodes of the tree.
    pub closed spec fn index(self) -> int {
        self.id.0 as int
    }

    /// The node belongs to a well-formed file.
    pub open spec fn wf(self) -> bool {
        self.file().wf() && 0 <= self.index() < self.file().nodes().len()
    }

    /// Every node belongs to a well-formed file.
    #[verifier::type_invariant]
    pub open spec fn inv(self) -> bool {
        self.wf()
    }

    /// What the tree holds of the node.
    pub open spec fn data(self) -> Node {
        self.file().nodes()[self.index()]
    }

    /// The node's children, in order, by their positions in the tree.
    pub open spec fn spec_children(self) -> Seq<int> {
        children_of(self.file().nodes(), self.index())
    }

    /// The node at `id` of the tree of `file`; `None` where the tree has no
    /// such node.
    pub fn at(file: &'f TomlFile, id: NodeId) -> (node: Option<TomlNode<'f>>)
        ensures
            node is Some <==> id.0 < file.nodes().len(),
            node matches Some(n) ==> n.wf() && n.file() == *file && n.index() == id.0,
    {
        proof {
            use_type_invariant(file);
        }
        if id.0 < file.parse_tree.len() {
            Some(TomlNode { file, id })
        } else {
            None
        }
    }

    /// Whether the two are the same node of the same tree: trees are told
    /// apart by where they are, not by what they hold.
    pub fn same_node(&self, other: &TomlNode<'f>) -> (r: bool)
        ensures
            r ==> self.index() == other.index() && self.file() == other.file(),
            self.index() != other.index() ==> !r,
    {
        let same_tree = same_file(self.file, other.file);
        self.same_node_given(other, same_tree)
    }

    /// Whether the two are the same node, given whether their trees are one
    /// tree: they are if the trees are one and the nodes stand at the same
    /// place in it.
    pub fn same_node_given(&self, other: &TomlNode<'f>, same_tree: bool) -> (r: bool)
        ensures
            r == (same_tree && self.index() == other.index()),
    {
        same_tree && self.id.0 == other.id.0
    }

    /// The identity of the node within its tree.
    pub fn id(&self) -> (id: NodeId)
        ensures
            id.0 == self.index(),
    {
        self.id
    }

    fn node(&self) -> (n: &'f Node)
        ensures
            *n == self.data(),
    {
        proof {
            use_type_invariant(&*self);
        }
        self.file.parse_tree.node(self.id.0)
    }

    /// The kind of the node.
    pub fn symbol(&self) -> (kind: SyntaxKind)
        ensures
            kind == self.data().kind,
    {
        proof {
            use_type_invariant(&*self);
        }
        self.node().kind
    }

    /// The kind of the node.
    pub fn kind(&self) -> (kind: SyntaxKind)
        ensures
            kind == self.data().kind,
    {
        proof {
            use_type_invariant(&*self);
        }
        self.node().kind
    }

    /// Whether the node is a token.
    pub fn is_token(&self) -> (r: bool)
        ensures
            r == self.data().token,
    {
        proof {
            use_type_invariant(&*self);
        }
        self.node().token
    }

    /// The number of nodes above this one.
    pub fn depth(&self) -> (r: usize)
        ensures
            r == self.data().depth,
    {
        proof {
            use_type_invariant(&*self);
        }
        self.node().depth
    }

    /// The bytes of the text that the node covers.
    pub fn range(&self) -> (range: TextRange)
        ensures
            range == self.data().range,
            range_ok(range, self.file().bytes()),
    {
        proof {
            use_type_invariant(&*self);
        }
        self.node().range
    }

    /// The part of the text that the node covers.
    pub fn text(&self) -> (text: &'f str)
        ensures
            text.spec_bytes() == self.data().range.of(self.file().bytes()),
    {
        proof {
            use_type_invariant(&*self);
        }
        slice_str(self.file.text.as_str(), self.node().range)
    }

    /// The part of the text that the node covers, as a string of its own.
    pub fn get_text(&self) -> (text: String)
        ensures
            encode_utf8(text@) == self.data().range.of(self.file().bytes()),
    {
        proof {
            use_type_invariant(&*self);
        }
        self.text().to_owned()
    }

    /// The node directly above this one; the root has none.
    pub fn parent(&self) -> (parent: Option<TomlNode<'f>>)
        ensures
            match parent {
                Some(p) => p.wf() && p.file() == self.file() && self.data().parent == Some(
                    p.index() as usize,
                ),
                None => self.data().parent is None && self.index() == 0,
            },
    {
        proof {
            use_type_invariant(&*self);
        }
        proof {
            assert(node_ok(self.file().nodes(), self.index()));
        }
        match self.node().parent {
            Some(id) => Some(TomlNode { file: self.file, id: NodeId(id) }),
            None => None,
        }
    }

    /// The children of the node, to be taken one by one.
    pub fn children(&self) -> (children: Children<'f>)
        ensures
            children.wf(),
            children.file() == self.file(),
            children.remaining() == self.spec_children(),
    {
        proof {
            use_type_invariant(&*self);
        }
        proof {
            lemma_first_child(self.file().nodes(), self.index());
        }
        Children { file: self.file, parent: self.id.0, next: self.id.0 + 1 }
    }

    /// The children of the node, in order.
    pub fn child_nodes(&self) -> (children: Vec<TomlNode<'f>>)
        ensures
            children@.map(|i: int, n: TomlNode<'f>| n.index()) == self.spec_children(),
            forall|i: int|
                0 <= i < children.len() ==> (#[trigger] children[i]).wf() && children[i].file()
                    == self.file(),
    {
        proof {
            use_type_invariant(&*self);
        }
        let ids = self.file.parse_tree.children(self.id.0);
        let mut children: Vec<TomlNode<'f>> = Vec::new();
        let mut i: usize = 0;
        while i < ids.len()
            invariant
                0 <= i <= ids.len(),
                self.wf(),
                children.len() == i,
                forall|k: int| 0 <= k < ids.len() ==> (#[trigger] ids[k]) < self.file().nodes().len(),
                forall|k: int|
                    0 <= k < i ==> (#[trigger] children[k]).wf() && children[k].file()
                        == self.file() && children[k].index() == ids[k],
            decreases ids.len() - i,
        {
            children.push(TomlNode { file: self.file, id: NodeId(ids[i]) });
            i += 1;
        }
        assert(children@.map(|i: int, n: TomlNode<'f>| n.index()) =~= ids@.map(
            |i: int, c: usize| c as int,
        ));
        children
    }

    /// A node has children where its run holds more than itself, and the
    /// first of them is the node right after it.
    pub proof fn lemma_first(self)
        requires
            self.wf(),
        ensures
            self.index() < self.data().end <= self.file().nodes().len(),
            self.data().end == self.index() + 1 <==> self.spec_children().len() == 0,
            self.spec_children().len() > 0 ==> self.spec_children()[0] == self.index() + 1,
    {
        let ns = self.file().nodes();
        assert(node_ok(ns, self.index()));
        lemma_first_child(ns, self.index());
        if self.index() + 1 < self.data().end {
            assert(node_ok(ns, self.index() + 1));
        }
    }

    /// Whether the node has no children.
    pub fn is_leaf(&self) -> (r: bool)
        ensures
            r == (self.spec_children().len() == 0),
    {
        proof {
            use_type_invariant(&*self);
        }
        proof {
            self.lemma_first();
        }
        self.node().end == self.id.0 + 1
    }

    /// The first child of the node.
    pub fn first_child(&self) -> (child: Option<TomlNode<'f>>)
        ensures
            match child {
                Some(c) => c.wf() && c.file() == self.file() && self.spec_children().len() > 0
                    && c.index() == self.spec_children()[0],
                None => self.spec_children().len() == 0,
            },
    {
        proof {
            use_type_invariant(&*self);
        }
        proof {
            self.lemma_first();
        }
        if self.id.0 + 1 < self.node().end {
            Some(TomlNode { file: self.file, id: NodeId(self.id.0 + 1) })
        } else {
            None
        }
    }

    /// The node after this one among the children of their parent.
    pub fn next_sibling(&self) -> (sibling: Option<TomlNode<'f>>)
        ensures
            match sibling {
                Some(s) => s.wf() && s.file() == self.file() && s.data().parent
                    == self.data().parent && s.index() == self.data().end,
                None => self.data().parent matches Some(p) ==> self.data().end
                    == self.file().nodes()[p as int].end,
            },
    {
        proof {
            use_type_invariant(&*self);
        }
        let ghost ns = self.file().nodes();
        proof {
            assert(node_ok(ns, self.index()));
        }
        match self.node().parent {
            Some(p) => {
                let next = self.node().end;
                proof {
                    assert(node_ok(ns, p as int));
                }
                if next < self.file.parse_tree.node(p).end {
                    proof {
                        assert(ns[next as int].depth > ns[p as int].depth);
                        lemma_is_child(ns, p as int, next as int);
                    }
                    Some(TomlNode { file: self.file, id: NodeId(next) })
                } else {
                    None
                }
            },
            None => None,
        }
    }
}

/// The children of a node that are still to come.
pub struct Children<'f> {
    file: &'f TomlFile,
    /// The node whose children these are.
    parent: usize,
    /// The next child, or the end of the parent.
    next: usize,
}

impl<'f> Children<'f> {
    /// The file whose tree is walked.
    pub closed spec fn file(self) -> TomlFile {
        *self.file
    }

    /// The children still to come, by their positions in the tree.
    pub closed spec fn remaining(self) -> Seq<int> {
        child_run(
            self.file.nodes(),
            self.next as int,
            self.file.nodes()[self.parent as int].end as int,
        )
    }

    /// The cursor stands at a child of its node, or at the end of the node.
    #[verifier::type_invariant]
    pub closed spec fn wf(self) -> bool {
        let ns = self.file.nodes();
        &&& self.file.wf()
        &&& self.parent < ns.len()
        &&& self.parent < self.next <= ns[self.parent as int].end
        &&& (self.next < ns[self.parent as int].end ==> ns[self.next as int].parent == Some(
            self.parent,
        ))
    }

    /// The next child, if one is left.
    pub fn next(&mut self) -> (child: Option<TomlNode<'f>>)
        ensures
            final(self).wf(),
            final(self).file() == old(self).file(),
            match child {
                Some(c) => c.wf() && c.file() == old(self).file() && old(self).remaining()
                    == seq![c.index()] + final(self).remaining(),
                None => old(self).remaining().len() == 0 && final(self).remaining().len() == 0,
            },
    {
        proof {
            use_type_invariant(&*self);
        }
        let ghost ns = self.file.nodes();
        proof {
            assert(node_ok(ns, self.parent as int));
        }
        let end = self.file.parse_tree.node(self.parent).end;
        if self.next < end {
            let id = self.next;
            let next = self.file.parse_tree.node(id).end;
            proof {
                assert(node_ok(ns, id as int));
                if next < end {
                    assert(ns[next as int].depth > ns[self.parent as int].depth);
                    lemma_is_child(ns, self.parent as int, next as int);
                }
            }
            self.next = next;
            Some(TomlNode { file: self.file, id: NodeId(id) })
        } else {
            None
        }
    }
}

/// What a node is: a token with its text, or a node with its children.
pub enum CstNodeKind<'f> {
    Leaf(&'f str),
    Internal(Children<'f>),
}

/// The texts of the tokens among the nodes from `a` up to `b`, in order.
pub open spec fn leaf_chunks(ns: Seq<Node>, bytes: Seq<u8>, a: int, b: int) -> Seq<Seq<u8>>
    decreases b - a,
{
    if b <= a {
        seq![]
    } else if ns[b - 1].token {
        leaf_chunks(ns, bytes, a, b - 1).push(ns[b - 1].range.of(bytes))
    } else {
        leaf_chunks(ns, bytes, a, b - 1)
    }
}

/// The texts of the tokens among the nodes from `a` up to `b`, in order, each
/// cut down to what lies inside `within`; a token outside of it has no part.
pub open spec fn chunks_within(
    ns: Seq<Node>,
    bytes: Seq<u8>,
    within: TextRange,
    a: int,
    b: int,
) -> Seq<Seq<u8>>
    decreases b - a,
{
    if b <= a {
        seq![]
    } else if ns[b - 1].token && spec_intersect(within, ns[b - 1].range) is Some {
        chunks_within(ns, bytes, within, a, b - 1).push(
            spec_intersect(within, ns[b - 1].range)->0.of(bytes),
        )
    } else {
        chunks_within(ns, bytes, within, a, b - 1)
    }
}

impl<'f> TomlNode<'f> {
    /// The node as a token with its text, or as a node with its children.
    pub fn node_kind(&self) -> (r: CstNodeKind<'f>)
        ensures
            match r {
                CstNodeKind::Leaf(text) => self.data().token && text.spec_bytes()
                    == self.data().range.of(self.file().bytes()),
                CstNodeKind::Internal(children) => !self.data().token && children.wf()
                    && children.file() == self.file() && children.remaining()
                    == self.spec_children(),
            },
    {
        if self.is_token() {
            CstNodeKind::Leaf(self.text())
        } else {
            CstNodeKind::Internal(self.children())
        }
    }

    /// The last child of the node.
    pub fn last_child(&self) -> (child: Option<TomlNode<'f>>)
        ensures
            match child {
                Some(c) => c.wf() && c.file() == self.file() && self.spec_children().len() > 0
                    && c.index() == self.spec_children()[self.spec_children().len() - 1],
                None => self.spec_children().len() == 0,
            },
    {
        proof {
            use_type_invariant(&*self);
        }
        let children = self.child_nodes();
        if children.len() > 0 {
            let last = children[children.len() - 1];
            assert(children@.map(|i: int, n: TomlNode<'f>| n.index())[children.len() - 1]
                == last.index());
            Some(last)
        } else {
            assert(children@.map(|i: int, n: TomlNode<'f>| n.index()).len() == 0);
            None
        }
    }

    /// The node before this one among the children of their parent: the one
    /// whose run of nodes ends where this node stands.
    pub fn prev_sibling(&self) -> (sibling: Option<TomlNode<'f>>)
        ensures
            match sibling {
                Some(s) => s.wf() && s.file() == self.file() && s.data().parent
                    == self.data().parent && s.data().end == self.index(),
                None => self.data().parent matches Some(p) ==> self.index() == p + 1,
            },
    {
        proof {
            use_type_invariant(&*self);
        }
        let ghost ns = self.file().nodes();
        proof {
            assert(node_ok(ns, self.index()));
        }
        match self.node().parent {
            Some(p) => {
                let id = self.id.0;
                let mut c = p + 1;
                proof {
                    lemma_first_child(ns, p as int);
                }
                while c < id
                    invariant
                        self.wf(),
                        ns == self.file().nodes(),
                        id == self.id.0,
                        ns[id as int].parent == Some(p),
                        p < c <= id < ns.len(),
                        p < ns.len(),
                        id < ns[p as int].end,
                        ns[c as int].parent == Some(p),
                        c == p + 1 || c < id,
                    decreases id - c,
                {
                    let next = self.file.parse_tree.node(c).end;
                    proof {
                        assert(node_ok(ns, c as int));
                        assert(node_ok(ns, id as int));
                        assert(node_ok(ns, p as int));
                        if id < next {
                            assert(ns[id as int].depth > ns[c as int].depth);
                        }
                        if next < id {
                            assert(ns[next as int].depth > ns[p as int].depth);
                            lemma_is_child(ns, p as int, next as int);
                        }
                    }
                    if next == id {
                        return Some(TomlNode { file: self.file, id: NodeId(c) });
                    }
                    c = next;
                }
                None
            },
            None => None,
        }
    }

    /// The texts of the tokens below the node, in order. Put together they
    /// are the text of the node.
    pub fn chunked_text(&self) -> (chunks: Vec<&'f str>)
        ensures
            chunks@.map(|i: int, c: &str| c.spec_bytes()) == leaf_chunks(
                self.file().nodes(),
                self.file().bytes(),
                self.index(),
                self.data().end as int,
            ),
    {
        proof {
            use_type_invariant(&*self);
        }
        let ghost ns = self.file().nodes();
        let ghost bytes = self.file().bytes();
        proof {
            assert(node_ok(ns, self.index()));
        }
        let end = self.node().end;
        let mut chunks: Vec<&'f str> = Vec::new();
        let mut i = self.id.0;
        assert(chunks@.map(|i: int, c: &str| c.spec_bytes()) =~= leaf_chunks(
            ns,
            bytes,
            self.index(),
            i as int,
        ));
        while i < end
            invariant
                self.wf(),
                ns == self.file().nodes(),
                bytes == self.file().bytes(),
                self.index() <= i <= end <= ns.len(),
                chunks@.map(|i: int, c: &str| c.spec_bytes()) == leaf_chunks(
                    ns,
                    bytes,
                    self.index(),
                    i as int,
                ),
            decreases end - i,
        {
            let node = TomlNode { file: self.file, id: NodeId(i) };
            if node.is_token() {
                let text = node.text();
                assert(chunks@.push(text).map(|i: int, c: &str| c.spec_bytes()) =~= chunks@.map(
                    |i: int, c: &str| c.spec_bytes(),
                ).push(text.spec_bytes()));
                chunks.push(text);
            }
            i += 1;
        }
        chunks
    }

    /// The texts of the tokens below the node, in order, each cut down to
    /// what lies inside `range`.
    pub fn chunked_substring(&self, range: TextRange) -> (chunks: Vec<&'f str>)
        requires
            range_ok(range, self.file().bytes()),
        ensures
            chunks@.map(|i: int, c: &str| c.spec_bytes()) == chunks_within(
                self.file().nodes(),
                self.file().bytes(),
                range,
                self.index(),
                self.data().end as int,
            ),
    {
        proof {
            use_type_invariant(&*self);
        }
        let ghost ns = self.file().nodes();
        let ghost bytes = self.file().bytes();
        proof {
            assert(node_ok(ns, self.index()));
        }
        let end = self.node().end;
        let mut chunks: Vec<&'f str> = Vec::new();
        let mut i = self.id.0;
        assert(chunks@.map(|i: int, c: &str| c.spec_bytes()) =~= chunks_within(
            ns,
            bytes,
            range,
            self.index(),
            i as int,
        ));
        while i < end
            invariant
                self.wf(),
                range_ok(range, bytes),
                ns == self.file().nodes(),
                bytes == self.file().bytes(),
                self.index() <= i <= end <= ns.len(),
                chunks@.map(|i: int, c: &str| c.spec_bytes()) == chunks_within(
                    ns,
                    bytes,
                    range,
                    self.index(),
                    i as int,
                ),
            decreases end - i,
        {
            let node = TomlNode { file: self.file, id: NodeId(i) };
            if node.is_token() {
                if let Some(part) = intersect(range, node.range()) {
                    let text = slice_str(self.file.text.as_str(), part);
                    assert(chunks@.push(text).map(|i: int, c: &str| c.spec_bytes())
                        =~= chunks@.map(|i: int, c: &str| c.spec_bytes()).push(text.spec_bytes()));
                    chunks.push(text);
                }
            }
            i += 1;
        }
        chunks
    }
}

} // verus!
