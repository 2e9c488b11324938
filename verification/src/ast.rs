//! The typed view of the tree: for each construct of the grammar a wrapper
//! of a node, which can be had from a node of the right kind only.

use core::marker::PhantomData;
use vstd::prelude::*;
use vstd::string::StringSliceAdditionalSpecFns;
use crate::file::{Children, TomlFile, TomlNode};
use crate::syntax_kind::SyntaxKind;
use crate::tree::Node;

verus! {

/// A typed wrapper of a node of the tree.
pub trait AstNode<'f>: Sized {
    /// The kinds of node that the wrapper stands for.
    spec fn spec_can_cast(kind: SyntaxKind) -> bool;

    /// The node inside the wrapper.
    spec fn spec_syntax(&self) -> TomlNode<'f>;

    /// Whether a node of the given kind can be wrapped.
    fn can_cast(kind: SyntaxKind) -> (r: bool)
        ensures
            r == Self::spec_can_cast(kind),
    ;

    /// The wrapper of `node`, which there is if and only if the node is of
    /// a kind that the wrapper stands for.
    fn cast(node: TomlNode<'f>) -> (r: Option<Self>)
        ensures
            r is Some <==> Self::spec_can_cast(node.data().kind),
            r matches Some(n) ==> n.spec_syntax() == node,
    ;

    /// The node inside the wrapper.
    fn syntax(&self) -> (node: TomlNode<'f>)
        ensures
            node == self.spec_syntax(),
    ;
}

/// The wrapper holds a node of a well-formed file, of a kind that the
/// wrapper stands for.
pub open spec fn ast_wf<'f, N: AstNode<'f>>(n: N) -> bool {
    n.spec_syntax().wf() && N::spec_can_cast(n.spec_syntax().data().kind)
}

/// Of the nodes at the positions `run`, those that `N` can wrap, in order.
pub open spec fn cast_run<'f, N: AstNode<'f>>(ns: Seq<Node>, run: Seq<int>) -> Seq<int>
    decreases run.len(),
{
    if run.len() == 0 {
        seq![]
    } else if N::spec_can_cast(ns[run[0]].kind) {
        seq![run[0]] + cast_run::<N>(ns, run.drop_first())
    } else {
        cast_run::<N>(ns, run.drop_first())
    }
}

/// The children of a node that are of one type, to be taken one by one.
pub struct AstChildren<'f, N> {
    inner: Children<'f>,
    brand: PhantomData<N>,
}

impl<'f, N: AstNode<'f>> AstChildren<'f, N> {
    /// The file whose tree is walked.
    pub closed spec fn file(self) -> TomlFile {
        self.inner.file()
    }

    /// The children of type `N` still to come, by their positions.
    pub closed spec fn remaining(self) -> Seq<int> {
        cast_run::<N>(self.inner.file().nodes(), self.inner.remaining())
    }

    /// The cursor walks the children of a node of a well-formed file.
    pub closed spec fn wf(self) -> bool {
        self.inner.wf()
    }

    /// Of the children `children`, those of type `N`.
    pub fn new(children: Children<'f>) -> (r: Self)
        ensures
            r.wf(),
            r.file() == children.file(),
            r.remaining() == cast_run::<N>(children.file().nodes(), children.remaining()),
    {
        proof {
            use_type_invariant(&children);
        }
        AstChildren { inner: children, brand: PhantomData }
    }

    /// The next child of type `N`, if one is left.
    pub fn next(&mut self) -> (child: Option<N>)
        ensures
            final(self).wf(),
            final(self).file() == old(self).file(),
            match child {
                Some(c) => ast_wf(c) && c.spec_syntax().file() == old(self).file() && old(
                    self,
                ).remaining() == seq![c.spec_syntax().index()] + final(self).remaining(),
                None => old(self).remaining().len() == 0 && final(self).remaining().len() == 0,
            },
    {
        proof {
            use_type_invariant(&self.inner);
        }
        let ghost ns = self.inner.file().nodes();
        loop
            invariant
                self.wf(),
                self.file() == old(self).file(),
                ns == self.inner.file().nodes(),
                self.remaining() == old(self).remaining(),
            decreases self.inner.remaining().len(),
        {
            let ghost before = self.inner.remaining();
            match self.inner.next() {
                Some(node) => {
                    proof {
                        assert(before.drop_first() =~= self.inner.remaining());
                        assert(before[0] == node.index());
                    }
                    if let Some(typed) = N::cast(node) {
                        return Some(typed);
                    }
                },
                None => {
                    return None;
                },
            }
        }
    }

    /// All the children of type `N` that are left, in order.
    pub fn collect(self) -> (all: Vec<N>)
        ensures
            all@.map(|i: int, n: N| n.spec_syntax().index()) == self.remaining(),
            forall|i: int|
                0 <= i < all.len() ==> ast_wf(#[trigger] all[i]) && all[i].spec_syntax().file()
                    == self.file(),
    {
        proof {
            use_type_invariant(&self.inner);
        }
        let mut rest = self;
        let mut all: Vec<N> = Vec::new();
        loop
            invariant
                rest.wf(),
                rest.file() == self.file(),
                all@.map(|i: int, n: N| n.spec_syntax().index()) + rest.remaining()
                    == self.remaining(),
                forall|i: int|
                    0 <= i < all.len() ==> ast_wf(#[trigger] all[i]) && all[i].spec_syntax().file()
                        == self.file(),
            decreases rest.remaining().len(),
        {
            let ghost before = rest.remaining();
            match rest.next() {
                Some(typed) => {
                    proof {
                        assert(all@.push(typed).map(|i: int, n: N| n.spec_syntax().index())
                            + rest.remaining() =~= all@.map(|i: int, n: N| n.spec_syntax().index())
                            + before);
                    }
                    all.push(typed);
                },
                None => {
                    assert(all@.map(|i: int, n: N| n.spec_syntax().index()) + rest.remaining()
                        =~= all@.map(|i: int, n: N| n.spec_syntax().index()));
                    return all;
                },
            }
        }
    }
}

/// The whole text: the node at the root of the tree.
#[derive(Clone, Copy)]
pub struct Doc<'f> {
    syntax: TomlNode<'f>,
}

impl<'f> AstNode<'f> for Doc<'f> {
    open spec fn spec_can_cast(kind: SyntaxKind) -> bool {
        kind == SyntaxKind::DOC
    }

    closed spec fn spec_syntax(&self) -> TomlNode<'f> {
        self.syntax
    }

    fn can_cast(kind: SyntaxKind) -> (r: bool) {
        kind == SyntaxKind::DOC
    }

    fn cast(node: TomlNode<'f>) -> (r: Option<Self>) {
        if Self::can_cast(node.kind()) {
            Some(Doc { syntax: node })
        } else {
            None
        }
    }

    fn syntax(&self) -> (node: TomlNode<'f>) {
        self.syntax
    }
}

/// A table: a header `[a.b]` and the entries under it.
#[derive(Clone, Copy)]
pub struct Table<'f> {
    syntax: TomlNode<'f>,
}

impl<'f> AstNode<'f> for Table<'f> {
    open spec fn spec_can_cast(kind: SyntaxKind) -> bool {
        kind == SyntaxKind::TABLE
    }

    closed spec fn spec_syntax(&self) -> TomlNode<'f> {
        self.syntax
    }

    fn can_cast(kind: SyntaxKind) -> (r: bool) {
        kind == SyntaxKind::TABLE
    }

    fn cast(node: TomlNode<'f>) -> (r: Option<Self>) {
        if Self::can_cast(node.kind()) {
            Some(Table { syntax: node })
        } else {
            None
        }
    }

    fn syntax(&self) -> (node: TomlNode<'f>) {
        self.syntax
    }
}

/// One item of an array of tables: a header `[[a.b]]` and the entries under it.
#[derive(Clone, Copy)]
pub struct ArrayTable<'f> {
    syntax: TomlNode<'f>,
}

impl<'f> AstNode<'f> for ArrayTable<'f> {
    open spec fn spec_can_cast(kind: SyntaxKind) -> bool {
        kind == SyntaxKind::ARRAY_TABLE
    }

    closed spec fn spec_syntax(&self) -> TomlNode<'f> {
        self.syntax
    }

    fn can_cast(kind: SyntaxKind) -> (r: bool) {
        kind == SyntaxKind::ARRAY_TABLE
    }

    fn cast(node: TomlNode<'f>) -> (r: Option<Self>) {
        if Self::can_cast(node.kind()) {
            Some(ArrayTable { syntax: node })
        } else {
            None
        }
    }

    fn syntax(&self) -> (node: TomlNode<'f>) {
        self.syntax
    }
}

/// The header of a table or of an item of an array of tables.
#[derive(Clone, Copy)]
pub struct TableHeader<'f> {
    syntax: TomlNode<'f>,
}

impl<'f> AstNode<'f> for TableHeader<'f> {
    open spec fn spec_can_cast(kind: SyntaxKind) -> bool {
        kind == SyntaxKind::TABLE_HEADER
    }

    closed spec fn spec_syntax(&self) -> TomlNode<'f> {
        self.syntax
    }

    fn can_cast(kind: SyntaxKind) -> (r: bool) {
        kind == SyntaxKind::TABLE_HEADER
    }

    fn cast(node: TomlNode<'f>) -> (r: Option<Self>) {
        if Self::can_cast(node.kind()) {
            Some(TableHeader { syntax: node })
        } else {
            None
        }
    }

    fn syntax(&self) -> (node: TomlNode<'f>) {
        self.syntax
    }
}

/// An entry `keys = value`, of the document, of a table or of an inline table.
#[derive(Clone, Copy)]
pub struct Entry<'f> {
    syntax: TomlNode<'f>,
}

impl<'f> AstNode<'f> for Entry<'f> {
    open spec fn spec_can_cast(kind: SyntaxKind) -> bool {
        kind == SyntaxKind::ENTRY
    }

    closed spec fn spec_syntax(&self) -> TomlNode<'f> {
        self.syntax
    }

    fn can_cast(kind: SyntaxKind) -> (r: bool) {
        kind == SyntaxKind::ENTRY
    }

    fn cast(node: TomlNode<'f>) -> (r: Option<Self>) {
        if Self::can_cast(node.kind()) {
            Some(Entry { syntax: node })
        } else {
            None
        }
    }

    fn syntax(&self) -> (node: TomlNode<'f>) {
        self.syntax
    }
}

/// An array `[v, ..]`.
#[derive(Clone, Copy)]
pub struct Array<'f> {
    syntax: TomlNode<'f>,
}

impl<'f> AstNode<'f> for Array<'f> {
    open spec fn spec_can_cast(kind: SyntaxKind) -> bool {
        kind == SyntaxKind::ARRAY
    }

    closed spec fn spec_syntax(&self) -> TomlNode<'f> {
        self.syntax
    }

    fn can_cast(kind: SyntaxKind) -> (r: bool) {
        kind == SyntaxKind::ARRAY
    }

    fn cast(node: TomlNode<'f>) -> (r: Option<Self>) {
        if Self::can_cast(node.kind()) {
            Some(Array { syntax: node })
        } else {
            None
        }
    }

    fn syntax(&self) -> (node: TomlNode<'f>) {
        self.syntax
    }
}

/// An inline table `{ k = v, .. }`.
#[derive(Clone, Copy)]
pub struct Dict<'f> {
    syntax: TomlNode<'f>,
}

impl<'f> AstNode<'f> for Dict<'f> {
    open spec fn spec_can_cast(kind: SyntaxKind) -> bool {
        kind == SyntaxKind::DICT
    }

    closed spec fn spec_syntax(&self) -> TomlNode<'f> {
        self.syntax
    }

    fn can_cast(kind: SyntaxKind) -> (r: bool) {
        kind == SyntaxKind::DICT
    }

    fn cast(node: TomlNode<'f>) -> (r: Option<Self>) {
        if Self::can_cast(node.kind()) {
            Some(Dict { syntax: node })
        } else {
            None
        }
    }

    fn syntax(&self) -> (node: TomlNode<'f>) {
        self.syntax
    }
}

/// A value that is a single token: a number, a boolean, a date or a string.
#[derive(Clone, Copy)]
pub struct AtomLiteral<'f> {
    syntax: TomlNode<'f>,
}

impl<'f> AstNode<'f> for AtomLiteral<'f> {
    open spec fn spec_can_cast(kind: SyntaxKind) -> bool {
        kind == SyntaxKind::ATOM_LITERAL
    }

    closed spec fn spec_syntax(&self) -> TomlNode<'f> {
        self.syntax
    }

    fn can_cast(kind: SyntaxKind) -> (r: bool) {
        kind == SyntaxKind::ATOM_LITERAL
    }

    fn cast(node: TomlNode<'f>) -> (r: Option<Self>) {
        if Self::can_cast(node.kind()) {
            Some(AtomLiteral { syntax: node })
        } else {
            None
        }
    }

    fn syntax(&self) -> (node: TomlNode<'f>) {
        self.syntax
    }
}

/// One key of an entry or of a header.
#[derive(Clone, Copy)]
pub struct Key<'f> {
    syntax: TomlNode<'f>,
}

impl<'f> AstNode<'f> for Key<'f> {
    open spec fn spec_can_cast(kind: SyntaxKind) -> bool {
        kind == SyntaxKind::KEY
    }

    closed spec fn spec_syntax(&self) -> TomlNode<'f> {
        self.syntax
    }

    fn can_cast(kind: SyntaxKind) -> (r: bool) {
        kind == SyntaxKind::KEY
    }

    fn cast(node: TomlNode<'f>) -> (r: Option<Self>) {
        if Self::can_cast(node.kind()) {
            Some(Key { syntax: node })
        } else {
            None
        }
    }

    fn syntax(&self) -> (node: TomlNode<'f>) {
        self.syntax
    }
}

/// Any value: an array, an inline table, or a literal.
#[derive(Clone, Copy)]
pub enum Value<'f> {
    Array(Array<'f>),
    Dict(Dict<'f>),
    AtomLiteral(AtomLiteral<'f>),
}

impl<'f> AstNode<'f> for Value<'f> {
    open spec fn spec_can_cast(kind: SyntaxKind) -> bool {
        kind == SyntaxKind::ARRAY || kind == SyntaxKind::DICT || kind == SyntaxKind::ATOM_LITERAL
    }

    open spec fn spec_syntax(&self) -> TomlNode<'f> {
        match self {
            Value::Array(it) => it.spec_syntax(),
            Value::Dict(it) => it.spec_syntax(),
            Value::AtomLiteral(it) => it.spec_syntax(),
        }
    }

    fn can_cast(kind: SyntaxKind) -> (r: bool) {
        match kind {
            SyntaxKind::ARRAY | SyntaxKind::DICT | SyntaxKind::ATOM_LITERAL => true,
            _ => false,
        }
    }

    fn cast(node: TomlNode<'f>) -> (r: Option<Self>) {
        match node.kind() {
            SyntaxKind::ARRAY => Some(Value::Array(Array { syntax: node })),
            SyntaxKind::DICT => Some(Value::Dict(Dict { syntax: node })),
            SyntaxKind::ATOM_LITERAL => Some(Value::AtomLiteral(AtomLiteral { syntax: node })),
            _ => None,
        }
    }

    fn syntax(&self) -> (node: TomlNode<'f>) {
        match self {
            Value::Array(it) => it.syntax,
            Value::Dict(it) => it.syntax,
            Value::AtomLiteral(it) => it.syntax,
        }
    }
}

impl<'f> From<Array<'f>> for Value<'f> {
    fn from(val: Array<'f>) -> (value: Value<'f>) {
        Value::Array(val)
    }
}

impl<'f> vstd::std_specs::convert::FromSpecImpl<Array<'f>> for Value<'f> {
    open spec fn obeys_from_spec() -> bool {
        true
    }

    open spec fn from_spec(val: Array<'f>) -> Value<'f> {
        Value::Array(val)
    }
}

impl<'f> From<Dict<'f>> for Value<'f> {
    fn from(val: Dict<'f>) -> (value: Value<'f>) {
        Value::Dict(val)
    }
}

impl<'f> vstd::std_specs::convert::FromSpecImpl<Dict<'f>> for Value<'f> {
    open spec fn obeys_from_spec() -> bool {
        true
    }

    open spec fn from_spec(val: Dict<'f>) -> Value<'f> {
        Value::Dict(val)
    }
}

impl<'f> From<AtomLiteral<'f>> for Value<'f> {
    fn from(val: AtomLiteral<'f>) -> (value: Value<'f>) {
        Value::AtomLiteral(val)
    }
}

impl<'f> vstd::std_specs::convert::FromSpecImpl<AtomLiteral<'f>> for Value<'f> {
    open spec fn obeys_from_spec() -> bool {
        true
    }

    open spec fn from_spec(val: AtomLiteral<'f>) -> Value<'f> {
        Value::AtomLiteral(val)
    }
}

/// The first child of `parent` that is of type `N`.
pub fn child<'f, N: AstNode<'f>>(parent: TomlNode<'f>) -> (r: Option<N>)
    ensures
        ({
            let typed = cast_run::<N>(parent.file().nodes(), parent.spec_children());
            match r {
                Some(c) => ast_wf(c) && c.spec_syntax().file() == parent.file() && typed.len() > 0
                    && c.spec_syntax().index() == typed[0],
                None => typed.len() == 0,
            }
        }),
{
    proof {
        use_type_invariant(&parent);
    }
    let mut all = AstChildren::<N>::new(parent.children());
    let r = all.next();
    proof {
        let typed = cast_run::<N>(parent.file().nodes(), parent.spec_children());
        if r is Some {
            assert(typed[0] == r->0.spec_syntax().index());
        }
    }
    r
}

/// The children of `parent` that are of type `N`.
pub fn children<'f, N: AstNode<'f>>(parent: TomlNode<'f>) -> (r: AstChildren<'f, N>)
    ensures
        r.wf(),
        r.file() == parent.file(),
        r.remaining() == cast_run::<N>(parent.file().nodes(), parent.spec_children()),
{
    proof {
        use_type_invariant(&parent);
    }
    AstChildren::new(parent.children())
}

/// The first of the nodes at the positions `run` that is a token for which
/// `wanted` holds.
pub open spec fn first_token(
    ns: Seq<Node>,
    run: Seq<int>,
    wanted: spec_fn(SyntaxKind) -> bool,
) -> Option<int>
    decreases run.len(),
{
    if run.len() == 0 {
        None
    } else if ns[run[0]].token && wanted(ns[run[0]].kind) {
        Some(run[0])
    } else {
        first_token(ns, run.drop_first(), wanted)
    }
}

/// The first child of `parent` that is a token of kind `kind`.
pub fn token<'f>(parent: TomlNode<'f>, kind: SyntaxKind) -> (r: Option<TomlNode<'f>>)
    ensures
        ({
            let first = first_token(
                parent.file().nodes(),
                parent.spec_children(),
                |k: SyntaxKind| k == kind,
            );
            match r {
                Some(t) => t.wf() && t.file() == parent.file() && first == Some(t.index()),
                None => first is None,
            }
        }),
{
    proof {
        use_type_invariant(&parent);
    }
    let ghost ns = parent.file().nodes();
    let ghost wanted = |k: SyntaxKind| k == kind;
    let mut rest = parent.children();
    loop
        invariant
            rest.wf(),
            rest.file() == parent.file(),
            ns == parent.file().nodes(),
            wanted == (|k: SyntaxKind| k == kind),
            first_token(ns, rest.remaining(), wanted) == first_token(
                ns,
                parent.spec_children(),
                wanted,
            ),
        decreases rest.remaining().len(),
    {
        let ghost before = rest.remaining();
        match rest.next() {
            Some(node) => {
                proof {
                    assert(before.drop_first() =~= rest.remaining());
                    assert(before[0] == node.index());
                }
                if node.is_token() && node.kind() == kind {
                    return Some(node);
                }
            },
            None => {
                return None;
            },
        }
    }
}

/// The first child of `node` that is a token and no trivia.
pub fn first_significant<'f>(node: TomlNode<'f>) -> (r: Option<TomlNode<'f>>)
    ensures
        ({
            let first = first_token(
                node.file().nodes(),
                node.spec_children(),
                |k: SyntaxKind| !k.spec_is_trivia(),
            );
            match r {
                Some(t) => t.wf() && t.file() == node.file() && first == Some(t.index()),
                None => first is None,
            }
        }),
{
    proof {
        use_type_invariant(&node);
    }
    let ghost ns = node.file().nodes();
    let ghost wanted = |k: SyntaxKind| !k.spec_is_trivia();
    let mut rest = node.children();
    loop
        invariant
            rest.wf(),
            rest.file() == node.file(),
            ns == node.file().nodes(),
            wanted == (|k: SyntaxKind| !k.spec_is_trivia()),
            first_token(ns, rest.remaining(), wanted) == first_token(
                ns,
                node.spec_children(),
                wanted,
            ),
        decreases rest.remaining().len(),
    {
        let ghost before = rest.remaining();
        match rest.next() {
            Some(child) => {
                proof {
                    assert(before.drop_first() =~= rest.remaining());
                    assert(before[0] == child.index());
                }
                if child.is_token() && !child.kind().is_trivia() {
                    return Some(child);
                }
            },
            None => {
                return None;
            },
        }
    }
}

/// A node that holds entries.
pub trait EntriesOwner<'f>: AstNode<'f> {
    /// The entries directly inside the node.
    fn entries(&self) -> (r: AstChildren<'f, Entry<'f>>)
        ensures
            r.wf(),
            r.file() == self.spec_syntax().file(),
            r.remaining() == cast_run::<Entry<'f>>(
                self.spec_syntax().file().nodes(),
                self.spec_syntax().spec_children(),
            ),
    {
        children(self.syntax())
    }
}

/// A node that begins with a table header.
pub trait TableHeaderOwner<'f>: AstNode<'f> {
    /// The header of the node.
    fn header(&self) -> (r: Option<TableHeader<'f>>)
        ensures
            ({
                let typed = cast_run::<TableHeader<'f>>(
                    self.spec_syntax().file().nodes(),
                    self.spec_syntax().spec_children(),
                );
                match r {
                    Some(c) => ast_wf(c) && c.spec_syntax().file() == self.spec_syntax().file()
                        && typed.len() > 0 && c.spec_syntax().index() == typed[0],
                    None => typed.len() == 0,
                }
            }),
    {
        child(self.syntax())
    }
}

/// A node that holds keys.
pub trait KeysOwner<'f>: AstNode<'f> {
    /// The keys directly inside the node.
    fn keys(&self) -> (r: AstChildren<'f, Key<'f>>)
        ensures
            r.wf(),
            r.file() == self.spec_syntax().file(),
            r.remaining() == cast_run::<Key<'f>>(
                self.spec_syntax().file().nodes(),
                self.spec_syntax().spec_children(),
            ),
    {
        children(self.syntax())
    }
}

impl<'f> EntriesOwner<'f> for Doc<'f> {

}

impl<'f> EntriesOwner<'f> for Table<'f> {

}

impl<'f> TableHeaderOwner<'f> for Table<'f> {

}

impl<'f> EntriesOwner<'f> for ArrayTable<'f> {

}

impl<'f> TableHeaderOwner<'f> for ArrayTable<'f> {

}

impl<'f> KeysOwner<'f> for TableHeader<'f> {

}

impl<'f> KeysOwner<'f> for Entry<'f> {

}

impl<'f> EntriesOwner<'f> for Dict<'f> {

}

impl<'f> Doc<'f> {
    /// The tables of the document.
    pub fn tables(&self) -> (r: AstChildren<'f, Table<'f>>)
        ensures
            r.wf(),
            r.file() == self.spec_syntax().file(),
            r.remaining() == cast_run::<Table<'f>>(
                self.spec_syntax().file().nodes(),
                self.spec_syntax().spec_children(),
            ),
    {
        children(self.syntax)
    }

    /// The items of the arrays of tables of the document.
    pub fn array_tables(&self) -> (r: AstChildren<'f, ArrayTable<'f>>)
        ensures
            r.wf(),
            r.file() == self.spec_syntax().file(),
            r.remaining() == cast_run::<ArrayTable<'f>>(
                self.spec_syntax().file().nodes(),
                self.spec_syntax().spec_children(),
            ),
    {
        children(self.syntax)
    }
}

impl<'f> Entry<'f> {
    /// The value of the entry; `None` where the text has none.
    pub fn value(&self) -> (r: Option<Value<'f>>)
        ensures
            ({
                let typed = cast_run::<Value<'f>>(
                    self.spec_syntax().file().nodes(),
                    self.spec_syntax().spec_children(),
                );
                match r {
                    Some(c) => ast_wf(c) && c.spec_syntax().file() == self.spec_syntax().file()
                        && typed.len() > 0 && c.spec_syntax().index() == typed[0],
                    None => typed.len() == 0,
                }
            }),
    {
        child(self.syntax)
    }

    /// The `=` of the entry; `None` where the text has none.
    pub fn eq_token(&self) -> (r: Option<TomlNode<'f>>)
        ensures
            ({
                let first = first_token(
                    self.spec_syntax().file().nodes(),
                    self.spec_syntax().spec_children(),
                    |k: SyntaxKind| k == SyntaxKind::EQ,
                );
                match r {
                    Some(t) => t.wf() && t.file() == self.spec_syntax().file() && first == Some(
                        t.index(),
                    ),
                    None => first is None,
                }
            }),
    {
        token(self.syntax, SyntaxKind::EQ)
    }
}

impl<'f> Array<'f> {
    /// The values of the array.
    pub fn values(&self) -> (r: AstChildren<'f, Value<'f>>)
        ensures
            r.wf(),
            r.file() == self.spec_syntax().file(),
            r.remaining() == cast_run::<Value<'f>>(
                self.spec_syntax().file().nodes(),
                self.spec_syntax().spec_children(),
            ),
    {
        children(self.syntax)
    }
}

/// How a string literal is quoted.
#[derive(Clone, Copy, PartialEq, Eq, Debug, Structural)]
pub enum StringKind {
    /// In single quotes: nothing is escaped.
    Literal,
    /// In double quotes: a backslash escapes.
    Basic,
}

/// What a literal is.
#[derive(Clone, Copy, PartialEq, Eq, Debug, Structural)]
pub enum AtomLiteralKind {
    Bool(bool),
    DateTime,
    Float,
    Int,
    String { kind: StringKind, multiline: bool },
}

/// What a token of the given kind is as a literal; `None` for a token that is
/// no literal.
pub open spec fn literal_kind(kind: SyntaxKind) -> Option<AtomLiteralKind> {
    match kind {
        SyntaxKind::DATE_TIME => Some(AtomLiteralKind::DateTime),
        SyntaxKind::TRUE => Some(AtomLiteralKind::Bool(true)),
        SyntaxKind::FALSE => Some(AtomLiteralKind::Bool(false)),
        SyntaxKind::INT => Some(AtomLiteralKind::Int),
        SyntaxKind::FLOAT => Some(AtomLiteralKind::Float),
        SyntaxKind::LITERAL_LINE_STRING => Some(
            AtomLiteralKind::String { kind: StringKind::Literal, multiline: false },
        ),
        SyntaxKind::LITERAL_MULTILINE_STRING => Some(
            AtomLiteralKind::String { kind: StringKind::Literal, multiline: true },
        ),
        SyntaxKind::BASIC_LINE_STRING => Some(
            AtomLiteralKind::String { kind: StringKind::Basic, multiline: false },
        ),
        SyntaxKind::BASIC_MULTILINE_STRING => Some(
            AtomLiteralKind::String { kind: StringKind::Basic, multiline: true },
        ),
        _ => None,
    }
}

impl<'f> AtomLiteral<'f> {
    /// The token of the literal: the first child that is a token and no
    /// trivia.
    pub fn token(&self) -> (r: Option<TomlNode<'f>>)
        ensures
            ({
                let first = first_token(
                    self.spec_syntax().file().nodes(),
                    self.spec_syntax().spec_children(),
                    |k: SyntaxKind| !k.spec_is_trivia(),
                );
                match r {
                    Some(t) => t.wf() && t.file() == self.spec_syntax().file() && first == Some(
                        t.index(),
                    ),
                    None => first is None,
                }
            }),
    {
        first_significant(self.syntax)
    }

    /// What the literal is; `None` where its token is no literal.
    pub fn kind(&self) -> (r: Option<AtomLiteralKind>)
        ensures
            r == match first_token(
                self.spec_syntax().file().nodes(),
                self.spec_syntax().spec_children(),
                |k: SyntaxKind| !k.spec_is_trivia(),
            ) {
                Some(t) => literal_kind(self.spec_syntax().file().nodes()[t].kind),
                None => None,
            },
    {
        match self.token() {
            Some(token) => match token.kind() {
                SyntaxKind::DATE_TIME => Some(AtomLiteralKind::DateTime),
                SyntaxKind::TRUE => Some(AtomLiteralKind::Bool(true)),
                SyntaxKind::FALSE => Some(AtomLiteralKind::Bool(false)),
                SyntaxKind::INT => Some(AtomLiteralKind::Int),
                SyntaxKind::FLOAT => Some(AtomLiteralKind::Float),
                SyntaxKind::LITERAL_LINE_STRING => Some(
                    AtomLiteralKind::String { kind: StringKind::Literal, multiline: false },
                ),
                SyntaxKind::LITERAL_MULTILINE_STRING => Some(
                    AtomLiteralKind::String { kind: StringKind::Literal, multiline: true },
                ),
                SyntaxKind::BASIC_LINE_STRING => Some(
                    AtomLiteralKind::String { kind: StringKind::Basic, multiline: false },
                ),
                SyntaxKind::BASIC_MULTILINE_STRING => Some(
                    AtomLiteralKind::String { kind: StringKind::Basic, multiline: true },
                ),
                _ => None,
            },
            None => None,
        }
    }
}

/// A typed wrapper of a token of the tree.
pub trait AstToken<'f>: Sized {
    /// The kinds of token that the wrapper stands for.
    spec fn spec_can_cast(kind: SyntaxKind) -> bool;

    /// The token inside the wrapper.
    spec fn spec_syntax(&self) -> TomlNode<'f>;

    /// Whether a token of the given kind can be wrapped.
    fn can_cast(kind: SyntaxKind) -> (r: bool)
        ensures
            r == Self::spec_can_cast(kind),
    ;

    /// The wrapper of `token`, which there is if and only if it is a token
    /// of a kind that the wrapper stands for.
    fn cast(token: TomlNode<'f>) -> (r: Option<Self>)
        ensures
            r is Some <==> token.data().token && Self::spec_can_cast(token.data().kind),
            r matches Some(t) ==> t.spec_syntax() == token,
    ;

    /// The token inside the wrapper.
    fn syntax(&self) -> (token: TomlNode<'f>)
        ensures
            token == self.spec_syntax(),
    ;

    /// The text of the token.
    fn text(&self) -> (text: &'f str)
        ensures
            text.spec_bytes() == self.spec_syntax().data().range.of(
                self.spec_syntax().file().bytes(),
            ),
    {
        self.syntax().text()
    }
}

/// A run of whitespace.
#[derive(Clone, Copy)]
pub struct Whitespace<'f> {
    syntax: TomlNode<'f>,
}

impl<'f> AstToken<'f> for Whitespace<'f> {
    open spec fn spec_can_cast(kind: SyntaxKind) -> bool {
        kind == SyntaxKind::WHITESPACE
    }

    closed spec fn spec_syntax(&self) -> TomlNode<'f> {
        self.syntax
    }

    fn can_cast(kind: SyntaxKind) -> (r: bool) {
        match kind {
            SyntaxKind::WHITESPACE => true,
            _ => false,
        }
    }

    fn cast(token: TomlNode<'f>) -> (r: Option<Self>) {
        if token.is_token() && Self::can_cast(token.kind()) {
            Some(Whitespace { syntax: token })
        } else {
            None
        }
    }

    fn syntax(&self) -> (token: TomlNode<'f>) {
        self.syntax
    }
}

/// A comment, from `#` to the end of its line.
#[derive(Clone, Copy)]
pub struct Comment<'f> {
    syntax: TomlNode<'f>,
}

impl<'f> AstToken<'f> for Comment<'f> {
    open spec fn spec_can_cast(kind: SyntaxKind) -> bool {
        kind == SyntaxKind::COMMENT
    }

    closed spec fn spec_syntax(&self) -> TomlNode<'f> {
        self.syntax
    }

    fn can_cast(kind: SyntaxKind) -> (r: bool) {
        match kind {
            SyntaxKind::COMMENT => true,
            _ => false,
        }
    }

    fn cast(token: TomlNode<'f>) -> (r: Option<Self>) {
        if token.is_token() && Self::can_cast(token.kind()) {
            Some(Comment { syntax: token })
        } else {
            None
        }
    }

    fn syntax(&self) -> (token: TomlNode<'f>) {
        self.syntax
    }
}

/// A string in single quotes on one line.
#[derive(Clone, Copy)]
pub struct LiteralLineString<'f> {
    syntax: TomlNode<'f>,
}

impl<'f> AstToken<'f> for LiteralLineString<'f> {
    open spec fn spec_can_cast(kind: SyntaxKind) -> bool {
        kind == SyntaxKind::LITERAL_LINE_STRING
    }

    closed spec fn spec_syntax(&self) -> TomlNode<'f> {
        self.syntax
    }

    fn can_cast(kind: SyntaxKind) -> (r: bool) {
        match kind {
            SyntaxKind::LITERAL_LINE_STRING => true,
            _ => false,
        }
    }

    fn cast(token: TomlNode<'f>) -> (r: Option<Self>) {
        if token.is_token() && Self::can_cast(token.kind()) {
            Some(LiteralLineString { syntax: token })
        } else {
            None
        }
    }

    fn syntax(&self) -> (token: TomlNode<'f>) {
        self.syntax
    }
}

/// A string in double quotes on one line.
#[derive(Clone, Copy)]
pub struct BasicLineString<'f> {
    syntax: TomlNode<'f>,
}

impl<'f> AstToken<'f> for BasicLineString<'f> {
    open spec fn spec_can_cast(kind: SyntaxKind) -> bool {
        kind == SyntaxKind::BASIC_LINE_STRING
    }

    closed spec fn spec_syntax(&self) -> TomlNode<'f> {
        self.syntax
    }

    fn can_cast(kind: SyntaxKind) -> (r: bool) {
        match kind {
            SyntaxKind::BASIC_LINE_STRING => true,
            _ => false,
        }
    }

    fn cast(token: TomlNode<'f>) -> (r: Option<Self>) {
        if token.is_token() && Self::can_cast(token.kind()) {
            Some(BasicLineString { syntax: token })
        } else {
            None
        }
    }

    fn syntax(&self) -> (token: TomlNode<'f>) {
        self.syntax
    }
}

/// A key without quotes.
#[derive(Clone, Copy)]
pub struct BareKey<'f> {
    syntax: TomlNode<'f>,
}

impl<'f> AstToken<'f> for BareKey<'f> {
    open spec fn spec_can_cast(kind: SyntaxKind) -> bool {
        kind == SyntaxKind::BARE_KEY
    }

    closed spec fn spec_syntax(&self) -> TomlNode<'f> {
        self.syntax
    }

    fn can_cast(kind: SyntaxKind) -> (r: bool) {
        match kind {
            SyntaxKind::BARE_KEY => true,
            _ => false,
        }
    }

    fn cast(token: TomlNode<'f>) -> (r: Option<Self>) {
        if token.is_token() && Self::can_cast(token.kind()) {
            Some(BareKey { syntax: token })
        } else {
            None
        }
    }

    fn syntax(&self) -> (token: TomlNode<'f>) {
        self.syntax
    }
}

/// A string of any of the four forms.
#[derive(Clone, Copy)]
pub struct StringLit<'f> {
    syntax: TomlNode<'f>,
}

impl<'f> AstToken<'f> for StringLit<'f> {
    open spec fn spec_can_cast(kind: SyntaxKind) -> bool {
        kind == SyntaxKind::BASIC_LINE_STRING || kind == SyntaxKind::BASIC_MULTILINE_STRING
            || kind == SyntaxKind::LITERAL_LINE_STRING || kind == SyntaxKind::LITERAL_MULTILINE_STRING
    }

    closed spec fn spec_syntax(&self) -> TomlNode<'f> {
        self.syntax
    }

    fn can_cast(kind: SyntaxKind) -> (r: bool) {
        match kind {
            SyntaxKind::BASIC_LINE_STRING
            | SyntaxKind::BASIC_MULTILINE_STRING
            | SyntaxKind::LITERAL_LINE_STRING
            | SyntaxKind::LITERAL_MULTILINE_STRING => true,
            _ => false,
        }
    }

    fn cast(token: TomlNode<'f>) -> (r: Option<Self>) {
        if token.is_token() && Self::can_cast(token.kind()) {
            Some(StringLit { syntax: token })
        } else {
            None
        }
    }

    fn syntax(&self) -> (token: TomlNode<'f>) {
        self.syntax
    }
}

/// `true` or `false`.
#[derive(Clone, Copy)]
pub struct Bool<'f> {
    syntax: TomlNode<'f>,
}

impl<'f> AstToken<'f> for Bool<'f> {
    open spec fn spec_can_cast(kind: SyntaxKind) -> bool {
        kind == SyntaxKind::TRUE || kind == SyntaxKind::FALSE
    }

    closed spec fn spec_syntax(&self) -> TomlNode<'f> {
        self.syntax
    }

    fn can_cast(kind: SyntaxKind) -> (r: bool) {
        match kind {
            SyntaxKind::TRUE | SyntaxKind::FALSE => true,
            _ => false,
        }
    }

    fn cast(token: TomlNode<'f>) -> (r: Option<Self>) {
        if token.is_token() && Self::can_cast(token.kind()) {
            Some(Bool { syntax: token })
        } else {
            None
        }
    }

    fn syntax(&self) -> (token: TomlNode<'f>) {
        self.syntax
    }
}

/// An integer.
#[derive(Clone, Copy)]
pub struct IntNumber<'f> {
    syntax: TomlNode<'f>,
}

impl<'f> AstToken<'f> for IntNumber<'f> {
    open spec fn spec_can_cast(kind: SyntaxKind) -> bool {
        kind == SyntaxKind::INT
    }

    closed spec fn spec_syntax(&self) -> TomlNode<'f> {
        self.syntax
    }

    fn can_cast(kind: SyntaxKind) -> (r: bool) {
        match kind {
            SyntaxKind::INT => true,
            _ => false,
        }
    }

    fn cast(token: TomlNode<'f>) -> (r: Option<Self>) {
        if token.is_token() && Self::can_cast(token.kind()) {
            Some(IntNumber { syntax: token })
        } else {
            None
        }
    }

    fn syntax(&self) -> (token: TomlNode<'f>) {
        self.syntax
    }
}

/// A date, with or without a time.
#[derive(Clone, Copy)]
pub struct DateTime<'f> {
    syntax: TomlNode<'f>,
}

impl<'f> AstToken<'f> for DateTime<'f> {
    open spec fn spec_can_cast(kind: SyntaxKind) -> bool {
        kind == SyntaxKind::DATE_TIME
    }

    closed spec fn spec_syntax(&self) -> TomlNode<'f> {
        self.syntax
    }

    fn can_cast(kind: SyntaxKind) -> (r: bool) {
        match kind {
            SyntaxKind::DATE_TIME => true,
            _ => false,
        }
    }

    fn cast(token: TomlNode<'f>) -> (r: Option<Self>) {
        if token.is_token() && Self::can_cast(token.kind()) {
            Some(DateTime { syntax: token })
        } else {
            None
        }
    }

    fn syntax(&self) -> (token: TomlNode<'f>) {
        self.syntax
    }
}

} // verus!
