//! The syntax tree: its nodes in one array, in the order in which they
//! begin, each with the end of the run of nodes that lie below it.

use vstd::prelude::*;
use crate::lexer::Token;
use crate::sink::{leaf_tokens, step_depth, steps_rooted, Step};
use crate::syntax_kind::SyntaxKind;
use crate::text::TextRange;

verus! {

/// A node of the tree, or, with `token` set, a token at one of its leaves.
#[derive(Clone, Copy, PartialEq, Eq, Debug, Structural)]
pub struct Node {
    pub kind: SyntaxKind,
    /// Whether this is a token; a token has no children.
    pub token: bool,
    /// The number of nodes above this one.
    pub depth: usize,
    /// The bytes of the text that the node covers.
    pub range: TextRange,
    /// The node directly above; the root has none.
    pub parent: Option<usize>,
    /// The nodes below this one are those from the next one up to, not
    /// including, this position. While the node is being built this is 0.
    pub end: usize,
}

/// The total length of the tokens among the first `k` nodes: the offset in
/// the text at which node `k` begins.
pub open spec fn offset_before(ns: Seq<Node>, k: int) -> int
    decreases k,
{
    if k <= 0 {
        0
    } else {
        offset_before(ns, k - 1) + if ns[k - 1].token {
            ns[k - 1].range.spec_len()
        } else {
            0
        }
    }
}

/// The tokens among the first `k` nodes, in order.
pub open spec fn token_leaves(ns: Seq<Node>, k: int) -> Seq<Token>
    decreases k,
{
    if k <= 0 {
        seq![]
    } else if ns[k - 1].token {
        token_leaves(ns, k - 1).push(Token { kind: ns[k - 1].kind, range: ns[k - 1].range })
    } else {
        token_leaves(ns, k - 1)
    }
}

/// For each node its kind, whether it is a token, and its depth.
pub open spec fn shape(ns: Seq<Node>) -> Seq<(SyntaxKind, bool, int)> {
    ns.map(|i: int, n: Node| (n.kind, n.token, n.depth as int))
}

/// The shape of the tree that `n` steps build: a node for each `Open` and
/// each `Leaf`, at the depth at which the step stands.
pub open spec fn step_nodes(steps: Seq<Step>, n: int) -> Seq<(SyntaxKind, bool, int)>
    decreases n,
{
    if n <= 0 {
        seq![]
    } else {
        match steps[n - 1] {
            Step::Open(kind) => step_nodes(steps, n - 1).push(
                (kind, false, step_depth(steps, n - 1)),
            ),
            Step::Leaf(kind, _) => step_nodes(steps, n - 1).push(
                (kind, true, step_depth(steps, n - 1)),
            ),
            Step::Close => step_nodes(steps, n - 1),
        }
    }
}

/// What holds of node `i` of a finished tree.
pub open spec fn node_ok(ns: Seq<Node>, i: int) -> bool {
    let n = ns[i];
    &&& i < n.end <= ns.len()
    &&& (n.token ==> n.end == i + 1)
    &&& (n.end < ns.len() ==> ns[n.end as int].depth <= n.depth)
    &&& n.range.start == offset_before(ns, i)
    &&& n.range.end == offset_before(ns, n.end as int)
    &&& (i == 0 ==> n.parent is None && n.depth == 0 && !n.token)
    &&& (i > 0 ==> {
        &&& n.parent matches Some(p)
        &&& p < i < ns[p as int].end
        &&& n.end <= ns[p as int].end
        &&& ns[p as int].depth + 1 == n.depth
        &&& !ns[p as int].token
    })
}

/// The nodes form one tree, laid out in the order in which the nodes begin:
/// the first node is the root; below each node lie exactly the nodes that
/// follow it up to its `end`, all of them deeper than it; each node's parent
/// is the nearest node before it that is one level up; and each node covers
/// exactly the bytes of the tokens below it.
pub open spec fn tree_wf(ns: Seq<Node>) -> bool {
    &&& ns.len() >= 1
    &&& ns[0].end == ns.len()
    &&& forall|i: int| 0 <= i < ns.len() ==> #[trigger] node_ok(ns, i)
    &&& forall|i: int, j: int|
        0 <= i < j < ns.len() && j < ns[i].end ==> (#[trigger] ns[j]).depth > (
        #[trigger] ns[i]).depth
}

/// What holds of node `i` while the tree is being built, with the open nodes
/// on `stack`.
pub open spec fn part_ok(ns: Seq<Node>, stack: Seq<usize>, i: int) -> bool {
    let n = ns[i];
    &&& n.range.start == offset_before(ns, i)
    &&& (i == 0 ==> n.parent is None && n.depth == 0 && !n.token)
    &&& (i > 0 ==> {
        &&& n.parent matches Some(p)
        &&& p < i
        &&& ns[p as int].depth + 1 == n.depth
        &&& !ns[p as int].token
        &&& (ns[p as int].end != 0 ==> i < ns[p as int].end && n.end != 0 && n.end
            <= ns[p as int].end)
    })
    &&& (n.end == 0 ==> n.depth < stack.len() && stack[n.depth as int] == i && !n.token)
    &&& (n.end != 0 ==> {
        &&& i < n.end <= ns.len()
        &&& (n.token ==> n.end == i + 1)
        &&& n.range.end == offset_before(ns, n.end as int)
        &&& (n.end < ns.len() ==> ns[n.end as int].depth <= n.depth)
        &&& (n.end == ns.len() ==> n.depth >= stack.len())
    })
}

/// What holds while the tree is being built.
pub open spec fn builder_inv(ns: Seq<Node>, stack: Seq<usize>, offset: usize) -> bool {
    &&& offset == offset_before(ns, ns.len() as int)
    &&& (ns.len() == 0 ==> stack.len() == 0)
    &&& (ns.len() > 0 && stack.len() == 0 ==> ns[0].end == ns.len())
    &&& forall|d: int|
        0 <= d < stack.len() ==> {
            let i = #[trigger] stack[d];
            i < ns.len() && ns[i as int].end == 0 && ns[i as int].depth == d
        }
    &&& forall|i: int| 0 <= i < ns.len() ==> #[trigger] part_ok(ns, stack, i)
    &&& forall|i: int, j: int|
        0 <= i < j < ns.len() && (ns[i].end == 0 || j < ns[i].end) ==> (#[trigger] ns[j]).depth > (
        #[trigger] ns[i]).depth
}

/// Offsets and tokens among the first `k` nodes do not depend on the nodes
/// from `k` on, nor on the ends of nodes that are no tokens.
pub proof fn lemma_same_tokens(a: Seq<Node>, b: Seq<Node>, k: int)
    requires
        0 <= k <= a.len(),
        k <= b.len(),
        forall|i: int|
            0 <= i < k ==> (#[trigger] a[i]).token == b[i].token && a[i].kind == b[i].kind && (
            a[i].token ==> a[i].range == b[i].range),
    ensures
        offset_before(a, k) == offset_before(b, k),
        token_leaves(a, k) == token_leaves(b, k),
    decreases k,
{
    if k > 0 {
        lemma_same_tokens(a, b, k - 1);
        assert(a[k - 1].token == b[k - 1].token);
    }
}

/// Offsets do not go down.
pub proof fn lemma_offset_grows(ns: Seq<Node>, a: int, b: int)
    requires
        0 <= a <= b,
    ensures
        0 <= offset_before(ns, a) <= offset_before(ns, b),
    decreases b,
{
    if b > 0 {
        if a < b {
            lemma_offset_grows(ns, a, b - 1);
        } else {
            lemma_offset_grows(ns, a - 1, b - 1);
        }
    }
}

/// The tree while it is built: the nodes so far, the open nodes from the
/// root down, and the offset in the text after the last token.
pub struct TreeBuilder {
    nodes: Vec<Node>,
    stack: Vec<usize>,
    offset: usize,
}

impl TreeBuilder {
    /// The nodes so far.
    pub closed spec fn nodes(self) -> Seq<Node> {
        self.nodes@
    }

    /// The number of open nodes.
    pub closed spec fn open(self) -> int {
        self.stack@.len() as int
    }

    /// The offset in the text after the last token.
    pub closed spec fn offset(self) -> int {
        self.offset as int
    }

    /// See [`builder_inv`].
    pub closed spec fn inv(self) -> bool {
        builder_inv(self.nodes@, self.stack@, self.offset)
    }

    /// A builder with no node yet.
    pub fn new() -> (b: TreeBuilder)
        ensures
            b.inv(),
            b.nodes().len() == 0,
            b.open() == 0,
            b.offset() == 0,
    {
        TreeBuilder { nodes: Vec::new(), stack: Vec::new(), offset: 0 }
    }

    /// Opens a node of kind `kind` inside the innermost open node, or, where
    /// there is no node yet, as the root.
    pub fn start_node(&mut self, kind: SyntaxKind)
        requires
            old(self).inv(),
            old(self).nodes().len() == 0 || old(self).open() > 0,
        ensures
            final(self).inv(),
            final(self).open() == old(self).open() + 1,
            final(self).offset() == old(self).offset(),
            final(self).nodes().len() == old(self).nodes().len() + 1,
            shape(final(self).nodes()) == shape(old(self).nodes()).push(
                (kind, false, old(self).open()),
            ),
            token_leaves(final(self).nodes(), final(self).nodes().len() as int) == token_leaves(
                old(self).nodes(),
                old(self).nodes().len() as int,
            ),
    {
        let ghost ns0 = self.nodes@;
        let ghost stack0 = self.stack@;
        let depth = self.stack.len();
        let parent = if depth > 0 {
            Some(self.stack[depth - 1])
        } else {
            None
        };
        let id = self.nodes.len();
        let node = Node {
            kind,
            token: false,
            depth,
            range: TextRange { start: self.offset, end: self.offset },
            parent,
            end: 0,
        };
        self.nodes.push(node);
        self.stack.push(id);
        proof {
            let ns = self.nodes@;
            let stack = self.stack@;
            assert(ns =~= ns0.push(node));
            assert(stack =~= stack0.push(id));
            lemma_same_tokens(ns0, ns, ns0.len() as int);
            assert forall|i: int| 0 <= i < ns.len() implies #[trigger] part_ok(ns, stack, i) by {
                if i < ns0.len() {
                    assert(part_ok(ns0, stack0, i));
                    let n = ns0[i];
                    lemma_same_tokens(ns0, ns, i);
                    if n.end != 0 {
                        lemma_same_tokens(ns0, ns, n.end as int);
                    }
                    if i > 0 {
                        let p = n.parent->0;
                        assert(ns[p as int] == ns0[p as int]);
                    }
                } else {
                    if depth > 0 {
                        assert(part_ok(ns0, stack0, stack0[depth - 1] as int));
                    }
                }
            }
            assert forall|i: int, j: int|
                0 <= i < j < ns.len() && (ns[i].end == 0 || j < ns[i].end) implies (
            #[trigger] ns[j]).depth > (#[trigger] ns[i]).depth by {
                if j == ns0.len() {
                    assert(part_ok(ns0, stack0, i));
                }
            }
            assert(shape(ns) =~= shape(ns0).push((kind, false, depth as int)));
        }
    }

    /// Adds a token of kind `kind` that covers `range` to the innermost open
    /// node. The token begins where the one before it ended.
    pub fn token(&mut self, kind: SyntaxKind, range: TextRange)
        requires
            old(self).inv(),
            old(self).open() > 0,
            range.start == old(self).offset(),
            range.start <= range.end,
            old(self).nodes().len() < usize::MAX,
        ensures
            final(self).inv(),
            final(self).open() == old(self).open(),
            final(self).offset() == range.end,
            final(self).nodes().len() == old(self).nodes().len() + 1,
            shape(final(self).nodes()) == shape(old(self).nodes()).push(
                (kind, true, old(self).open()),
            ),
            token_leaves(final(self).nodes(), final(self).nodes().len() as int) == token_leaves(
                old(self).nodes(),
                old(self).nodes().len() as int,
            ).push(Token { kind, range }),
    {
        let ghost ns0 = self.nodes@;
        let ghost stack0 = self.stack@;
        let depth = self.stack.len();
        let id = self.nodes.len();
        let node = Node {
            kind,
            token: true,
            depth,
            range,
            parent: Some(self.stack[depth - 1]),
            end: id + 1,
        };
        self.nodes.push(node);
        self.offset = range.end;
        proof {
            let ns = self.nodes@;
            let stack = self.stack@;
            assert(ns =~= ns0.push(node));
            lemma_same_tokens(ns0, ns, ns0.len() as int);
            assert(part_ok(ns0, stack0, stack0[depth - 1] as int));
            assert forall|i: int| 0 <= i < ns.len() implies #[trigger] part_ok(ns, stack, i) by {
                if i < ns0.len() {
                    assert(part_ok(ns0, stack0, i));
                    let n = ns0[i];
                    lemma_same_tokens(ns0, ns, i);
                    if n.end != 0 {
                        lemma_same_tokens(ns0, ns, n.end as int);
                    }
                    if i > 0 {
                        let p = n.parent->0;
                        assert(ns[p as int] == ns0[p as int]);
                    }
                }
            }
            assert forall|i: int, j: int|
                0 <= i < j < ns.len() && (ns[i].end == 0 || j < ns[i].end) implies (
            #[trigger] ns[j]).depth > (#[trigger] ns[i]).depth by {
                if j == ns0.len() {
                    assert(part_ok(ns0, stack0, i));
                }
            }
            assert(shape(ns) =~= shape(ns0).push((kind, true, depth as int)));
        }
    }

    /// Closes the innermost open node.
    pub fn finish_node(&mut self)
        requires
            old(self).inv(),
            old(self).open() > 0,
        ensures
            final(self).inv(),
            final(self).open() == old(self).open() - 1,
            final(self).offset() == old(self).offset(),
            final(self).nodes().len() == old(self).nodes().len(),
            shape(final(self).nodes()) == shape(old(self).nodes()),
            token_leaves(final(self).nodes(), final(self).nodes().len() as int) == token_leaves(
                old(self).nodes(),
                old(self).nodes().len() as int,
            ),
    {
        let ghost ns0 = self.nodes@;
        let ghost stack0 = self.stack@;
        let depth = self.stack.len();
        let id = self.stack[depth - 1];
        self.stack.pop();
        let open = self.nodes[id];
        let len = self.nodes.len();
        let node = Node {
            kind: open.kind,
            token: open.token,
            depth: open.depth,
            range: TextRange { start: open.range.start, end: self.offset },
            parent: open.parent,
            end: len,
        };
        self.nodes.set(id, node);
        proof {
            let ns = self.nodes@;
            let stack = self.stack@;
            assert(ns =~= ns0.update(id as int, node));
            assert(stack =~= stack0.take(depth - 1));
            assert(part_ok(ns0, stack0, id as int));
            assert forall|k: int| 0 <= k <= ns.len() implies offset_before(ns, k) == offset_before(
                ns0,
                k,
            ) && token_leaves(ns, k) == token_leaves(ns0, k) by {
                lemma_same_tokens(ns0, ns, k);
            }
            assert forall|i: int| 0 <= i < ns.len() implies #[trigger] part_ok(ns, stack, i) by {
                assert(part_ok(ns0, stack0, i));
                let n = ns0[i];
                if i != id {
                    if n.end == 0 {
                        assert(n.depth != depth - 1) by {
                            if n.depth == depth - 1 {
                                assert(stack0[n.depth as int] == i);
                            }
                        }
                    }
                    if i > 0 {
                        let p = n.parent->0;
                        if p == id {
                            assert(n.end != 0) by {
                                if n.end == 0 {
                                    assert(n.depth < stack0.len());
                                }
                            }
                        }
                    }
                }
            }
            assert forall|i: int, j: int|
                0 <= i < j < ns.len() && (ns[i].end == 0 || j < ns[i].end) implies (
            #[trigger] ns[j]).depth > (#[trigger] ns[i]).depth by {
                assert(ns0[i].end == 0 || j < ns0[i].end);
            }
            assert forall|d: int| 0 <= d < stack.len() implies {
                let i = #[trigger] stack[d];
                i < ns.len() && ns[i as int].end == 0 && ns[i as int].depth == d
            } by {
                assert(stack[d] == stack0[d]);
            }
            assert(shape(ns) =~= shape(ns0));
        }
    }

    /// The finished tree.
    pub fn finish(self) -> (tree: ParseTree)
        requires
            self.inv(),
            self.open() == 0,
            self.nodes().len() > 0,
        ensures
            tree.wf(),
            tree.nodes() == self.nodes(),
            tree.text_len() == self.offset(),
    {
        proof {
            let ns = self.nodes@;
            assert forall|i: int| 0 <= i < ns.len() implies #[trigger] node_ok(ns, i) by {
                assert(part_ok(ns, self.stack@, i));
                if i > 0 {
                    let p = ns[i].parent->0;
                    assert(part_ok(ns, self.stack@, p as int));
                }
            }
            assert(node_ok(ns, 0));
        }
        ParseTree { nodes: self.nodes }
    }
}

/// A finished syntax tree.
pub struct ParseTree {
    nodes: Vec<Node>,
}

impl ParseTree {
    /// The nodes, in the order in which they begin.
    pub closed spec fn nodes(self) -> Seq<Node> {
        self.nodes@
    }

    /// See [`tree_wf`].
    pub open spec fn wf(self) -> bool {
        tree_wf(self.nodes())
    }

    /// Every finished tree is well formed.
    #[verifier::type_invariant]
    pub open spec fn inv(self) -> bool {
        self.wf()
    }

    /// The length of the text that the tree covers.
    pub open spec fn text_len(self) -> int {
        offset_before(self.nodes(), self.nodes().len() as int)
    }

    /// The tokens of the tree, in order.
    pub open spec fn leaves(self) -> Seq<Token> {
        token_leaves(self.nodes(), self.nodes().len() as int)
    }

    /// The number of nodes.
    pub fn len(&self) -> (n: usize)
        ensures
            n == self.nodes().len(),
    {
        self.nodes.len()
    }

    /// The node at `id`.
    pub fn node(&self, id: usize) -> (n: &Node)
        requires
            id < self.nodes().len(),
        ensures
            *n == self.nodes()[id as int],
    {
        &self.nodes[id]
    }
}

/// The tokens follow one another from the start of the text: the first
/// begins at 0 and each of the others where the one before it ended.
pub open spec fn chained(tokens: Seq<Token>) -> bool {
    &&& tokens.len() > 0 ==> tokens[0].range.start == 0
    &&& forall|k: int| 0 <= k < tokens.len() ==> (#[trigger] tokens[k]).range.start
        <= tokens[k].range.end
    &&& forall|j: int, k: int|
        0 <= j && k == j + 1 && k < tokens.len() ==> (#[trigger] tokens[j]).range.end == (
        #[trigger] tokens[k]).range.start
}

/// Where the last of the tokens ends; 0 where there is none.
pub open spec fn chain_end(tokens: Seq<Token>) -> int {
    if tokens.len() == 0 {
        0
    } else {
        tokens[tokens.len() - 1].range.end as int
    }
}

/// The leaves of the first `i` steps are the first of the leaves of the
/// first `n`.
pub proof fn lemma_leaf_prefix(steps: Seq<Step>, i: int, n: int)
    requires
        0 <= i <= n <= steps.len(),
    ensures
        leaf_tokens(steps, i).len() <= leaf_tokens(steps, n).len(),
        leaf_tokens(steps, i) == leaf_tokens(steps, n).take(leaf_tokens(steps, i).len() as int),
    decreases n - i,
{
    if i < n {
        lemma_leaf_prefix(steps, i, n - 1);
        assert(leaf_tokens(steps, i) =~= leaf_tokens(steps, n).take(
            leaf_tokens(steps, i).len() as int,
        ));
    } else {
        assert(leaf_tokens(steps, i) =~= leaf_tokens(steps, n).take(
            leaf_tokens(steps, i).len() as int,
        ));
    }
}

/// Steps build no more nodes than there are steps, and at least one where
/// the first step opens a node.
pub proof fn lemma_step_nodes_len(steps: Seq<Step>, n: int)
    requires
        0 <= n <= steps.len(),
    ensures
        step_nodes(steps, n).len() <= n,
        n > 0 && steps[0] is Open ==> step_nodes(steps, n).len() > 0,
    decreases n,
{
    if n > 0 {
        lemma_step_nodes_len(steps, n - 1);
    }
}

impl ParseTree {
    /// Builds the tree that `steps` describe.
    pub fn build(steps: &[Step]) -> (tree: ParseTree)
        requires
            steps_rooted(steps@),
            chained(leaf_tokens(steps@, steps@.len() as int)),
        ensures
            tree.wf(),
            shape(tree.nodes()) == step_nodes(steps@, steps@.len() as int),
            tree.leaves() == leaf_tokens(steps@, steps@.len() as int),
            tree.text_len() == chain_end(tree.leaves()),
    {
        let mut builder = TreeBuilder::new();
        let mut i: usize = 0;
        let ghost all = leaf_tokens(steps@, steps@.len() as int);
        assert(shape(builder.nodes()) =~= step_nodes(steps@, 0));
        while i < steps.len()
            invariant
                0 <= i <= steps@.len(),
                steps_rooted(steps@),
                all == leaf_tokens(steps@, steps@.len() as int),
                chained(all),
                builder.inv(),
                builder.open() == step_depth(steps@, i as int),
                shape(builder.nodes()) == step_nodes(steps@, i as int),
                token_leaves(builder.nodes(), builder.nodes().len() as int) == leaf_tokens(
                    steps@,
                    i as int,
                ),
                builder.offset() == chain_end(leaf_tokens(steps@, i as int)),
            decreases steps@.len() - i,
        {
            proof {
                lemma_step_nodes_len(steps@, i as int);
                lemma_leaf_prefix(steps@, i as int, steps@.len() as int);
                lemma_leaf_prefix(steps@, i + 1, steps@.len() as int);
                if i > 0 {
                    assert(step_depth(steps@, i as int) >= 1);
                }
                assert(shape(builder.nodes()).len() == builder.nodes().len());
            }
            match steps[i] {
                Step::Open(kind) => {
                    builder.start_node(kind);
                },
                Step::Leaf(kind, range) => {
                    proof {
                        let k = leaf_tokens(steps@, i as int).len() as int;
                        assert(leaf_tokens(steps@, i + 1)[k] == Token { kind, range });
                        assert(all[k] == Token { kind, range });
                        if k > 0 {
                            assert(all[k - 1] == leaf_tokens(steps@, i as int)[k - 1]);
                        }
                    }
                    builder.token(kind, range);
                },
                Step::Close => {
                    builder.finish_node();
                },
            }
            i += 1;
        }
        proof {
            lemma_step_nodes_len(steps@, steps@.len() as int);
            assert(shape(builder.nodes()).len() == builder.nodes().len());
        }
        builder.finish()
    }
}

/// The nodes at `c`, at the end of `c`, at the end of that one, and so on,
/// as long as they begin before `e`.
pub open spec fn child_run(ns: Seq<Node>, c: int, e: int) -> Seq<int>
    decreases e - c,
{
    if 0 <= c < e && c < ns[c].end <= e {
        seq![c] + child_run(ns, ns[c].end as int, e)
    } else {
        seq![]
    }
}

/// The children of node `p`, in order: the node after `p`, then the node
/// after all that lies below that one, and so on up to the end of `p`.
pub open spec fn children_of(ns: Seq<Node>, p: int) -> Seq<int> {
    child_run(ns, p + 1, ns[p].end as int)
}

/// A node right below another one, and inside its run, is its child.
pub proof fn lemma_is_child(ns: Seq<Node>, p: int, c: int)
    requires
        tree_wf(ns),
        0 <= p < c < ns[p].end,
        p < ns.len(),
        ns[c].depth == ns[p].depth + 1,
    ensures
        ns[c].parent == Some(p as usize),
{
    assert(node_ok(ns, p));
    assert(node_ok(ns, c));
    let q = ns[c].parent->0 as int;
    assert(node_ok(ns, q));
    if q < p {
        assert(ns[p].depth > ns[q].depth);
    } else if q > p {
        assert(ns[q].depth > ns[p].depth);
    }
}

/// From `c`, a child of `p` or the end of `p`, the run of nodes holds the
/// children of `p` from `c` on, and nothing else.
pub proof fn lemma_child_run(ns: Seq<Node>, p: int, c: int)
    requires
        tree_wf(ns),
        0 <= p < c <= ns[p].end,
        p < ns.len(),
        c < ns[p].end ==> ns[c].parent == Some(p as usize),
    ensures
        ({
            let run = child_run(ns, c, ns[p].end as int);
            &&& forall|k: int|
                0 <= k < run.len() ==> c <= #[trigger] run[k] < ns[p].end && ns[run[k]].parent
                    == Some(p as usize)
            &&& forall|j: int, k: int| 0 <= j < k < run.len() ==> run[j] < run[k]
            &&& forall|x: int|
                c <= x < ns[p].end && (#[trigger] ns[x]).parent == Some(p as usize)
                    ==> run.contains(x)
        }),
    decreases ns[p].end - c,
{
    let e = ns[p].end as int;
    let run = child_run(ns, c, e);
    assert(node_ok(ns, p));
    if c < e {
        assert(node_ok(ns, c));
        let next = ns[c].end as int;
        if next < e {
            assert(ns[next].depth > ns[p].depth);
            lemma_is_child(ns, p, next);
        }
        lemma_child_run(ns, p, next);
        let rest = child_run(ns, next, e);
        assert(run == seq![c] + rest);
        assert forall|k: int| 0 <= k < run.len() implies c <= #[trigger] run[k] < e
            && ns[run[k]].parent == Some(p as usize) by {
            if k > 0 {
                assert(run[k] == rest[k - 1]);
            }
        }
        assert forall|j: int, k: int| 0 <= j < k < run.len() implies run[j] < run[k] by {
            assert(run[k] == rest[k - 1]);
            if j > 0 {
                assert(run[j] == rest[j - 1]);
            }
        }
        assert forall|x: int|
            c <= x < e && (#[trigger] ns[x]).parent == Some(p as usize) implies run.contains(
            x,
        ) by {
            assert(node_ok(ns, x));
            if x == c {
                assert(run[0] == c);
            } else if x < next {
                assert(ns[x].depth > ns[c].depth);
            } else {
                let k = choose|k: int| 0 <= k < rest.len() && rest[k] == x;
                assert(run[k + 1] == x);
            }
        }
    }
}

/// The node right after a node, where it lies inside its run, is its child.
pub proof fn lemma_first_child(ns: Seq<Node>, p: int)
    requires
        tree_wf(ns),
        0 <= p < ns.len(),
    ensures
        p < ns[p].end <= ns.len(),
        p + 1 < ns[p].end ==> ns[p + 1].parent == Some(p as usize),
{
    assert(node_ok(ns, p));
    if p + 1 < ns[p].end {
        assert(ns[p + 1].depth > ns[p].depth);
        assert(node_ok(ns, p + 1));
        let q = ns[p + 1].parent->0 as int;
        if q < p {
            assert(node_ok(ns, q));
            assert(ns[p].depth > ns[q].depth);
        }
    }
}

/// The children of a node are exactly the nodes whose parent it is, in the
/// order in which they stand in the text.
pub proof fn lemma_children(ns: Seq<Node>, p: int)
    requires
        tree_wf(ns),
        0 <= p < ns.len(),
    ensures
        ({
            let cs = children_of(ns, p);
            &&& forall|k: int|
                0 <= k < cs.len() ==> p < #[trigger] cs[k] < ns[p].end && ns[cs[k]].parent == Some(
                    p as usize,
                )
            &&& forall|j: int, k: int| 0 <= j < k < cs.len() ==> cs[j] < cs[k]
            &&& forall|x: int|
                0 <= x < ns.len() && (#[trigger] ns[x]).parent == Some(p as usize)
                    ==> cs.contains(x)
        }),
{
    lemma_first_child(ns, p);
    lemma_child_run(ns, p, p + 1);
    let cs = children_of(ns, p);
    assert forall|x: int|
        0 <= x < ns.len() && (#[trigger] ns[x]).parent == Some(p as usize) implies cs.contains(
        x,
    ) by {
        assert(node_ok(ns, x));
    }
}

impl ParseTree {
    /// The children of node `p`, in order.
    pub fn children(&self, p: usize) -> (cs: Vec<usize>)
        requires
            p < self.nodes().len(),
        ensures
            cs@.map(|i: int, c: usize| c as int) == children_of(self.nodes(), p as int),
            forall|k: int| 0 <= k < cs.len() ==> (#[trigger] cs[k]) < self.nodes().len(),
    {
        proof {
            use_type_invariant(self);
        }
        let ghost ns = self.nodes@;
        let e = self.nodes[p].end;
        let mut c = p + 1;
        let mut cs: Vec<usize> = Vec::new();
        proof {
            lemma_first_child(ns, p as int);
            assert(cs@.map(|i: int, c: usize| c as int) + child_run(ns, c as int, e as int)
                =~= children_of(ns, p as int));
        }
        while c < e
            invariant
                ns == self.nodes@,
                tree_wf(ns),
                p < c <= e,
                e == ns[p as int].end,
                e <= ns.len(),
                c < e ==> ns[c as int].parent == Some(p),
                cs@.map(|i: int, c: usize| c as int) + child_run(ns, c as int, e as int)
                    == children_of(ns, p as int),
                forall|k: int| 0 <= k < cs.len() ==> (#[trigger] cs[k]) < ns.len(),
            decreases e - c,
        {
            let next = self.nodes[c].end;
            proof {
                assert(node_ok(ns, c as int));
                assert(node_ok(ns, p as int));
                if next < e {
                    assert(ns[next as int].depth > ns[p as int].depth);
                    lemma_is_child(ns, p as int, next as int);
                }
                assert(cs@.push(c).map(|i: int, c: usize| c as int) + child_run(
                    ns,
                    next as int,
                    e as int,
                ) =~= cs@.map(|i: int, c: usize| c as int) + child_run(ns, c as int, e as int));
            }
            cs.push(c);
            c = next;
        }
        assert(cs@.map(|i: int, c: usize| c as int) + child_run(ns, c as int, e as int)
            =~= cs@.map(|i: int, c: usize| c as int));
        cs
    }
}

} // verus!
