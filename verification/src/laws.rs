//! What holds of every parse: the tree keeps every byte of the text, errors
//! never stand in the way of a tree, and comments go to the node they
//! belong to.

use vstd::prelude::*;
use crate::file::{
    chunks_within, leaf_chunks, lemma_parse, spec_errors, spec_events, spec_steps, TomlFile,
};
use crate::event::{balanced, finishes_match, rooted, token_count, Event};
use crate::grammar::{error_nodes_single, errors_local, lemma_doc};
use crate::text::{spec_intersect, TextRange};
use crate::token_source::significant_kinds;
use crate::green::{green_of, GreenStep};
use crate::lexer::Token;
use crate::sink::{
    attach_back, attach_fwd, error_count, is_blank_gap, is_line_break, kind_given, leaf_tokens,
    same_place, steps_rooted, Step,
};
use crate::syntax_kind::SyntaxKind;
use crate::tree::{
    chain_end, chained, children_of, lemma_children, lemma_offset_grows, node_ok, offset_before,
    tree_wf, Node,
};

verus! {

/// The texts of the first `k` tokens, one after the other.
pub open spec fn tokens_text(tokens: Seq<Token>, bytes: Seq<u8>, k: int) -> Seq<u8>
    decreases k,
{
    if k <= 0 {
        seq![]
    } else {
        tokens_text(tokens, bytes, k - 1) + tokens[k - 1].range.of(bytes)
    }
}

/// The texts of the leaves among the first `n` steps, one after the other.
pub open spec fn steps_text(steps: Seq<Step>, bytes: Seq<u8>, n: int) -> Seq<u8>
    decreases n,
{
    if n <= 0 {
        seq![]
    } else {
        match steps[n - 1] {
            Step::Leaf(_, range) => steps_text(steps, bytes, n - 1) + range.of(bytes),
            _ => steps_text(steps, bytes, n - 1),
        }
    }
}

/// The texts of the tokens among the nodes from `a` up to `b`, one after the
/// other: the leaf texts below a node, in depth-first order, where `a` is the
/// node and `b` its end.
pub open spec fn leaf_text(ns: Seq<Node>, bytes: Seq<u8>, a: int, b: int) -> Seq<u8>
    decreases b - a,
{
    if b <= a {
        seq![]
    } else if ns[b - 1].token {
        leaf_text(ns, bytes, a, b - 1) + ns[b - 1].range.of(bytes)
    } else {
        leaf_text(ns, bytes, a, b - 1)
    }
}

/// The texts of the tokens among the first `n` calls on a builder of green
/// trees, one after the other.
pub open spec fn green_text(steps: Seq<GreenStep>, n: int) -> Seq<u8>
    decreases n,
{
    if n <= 0 {
        seq![]
    } else {
        match steps[n - 1] {
            GreenStep::Leaf(_, text) => green_text(steps, n - 1) + text,
            _ => green_text(steps, n - 1),
        }
    }
}

/// The texts of tokens that follow one another from the start of the text
/// make up the text up to where the last of them ends.
pub proof fn lemma_tokens_text(tokens: Seq<Token>, bytes: Seq<u8>, k: int)
    requires
        chained(tokens),
        chain_end(tokens) <= bytes.len(),
        0 <= k <= tokens.len(),
    ensures
        tokens_text(tokens, bytes, k) == bytes.subrange(0, chain_end(tokens.take(k))),
        chain_end(tokens.take(k)) <= chain_end(tokens),
    decreases k,
{
    if k > 0 {
        lemma_tokens_text(tokens, bytes, k - 1);
        crate::green::lemma_chain_grows(tokens, k - 1, tokens.len() - 1);
        let before = chain_end(tokens.take(k - 1));
        assert(tokens.take(k)[k - 1] == tokens[k - 1]);
        if k > 1 {
            assert(tokens.take(k - 1)[k - 2] == tokens[k - 2]);
            assert(tokens[k - 2].range.end == tokens[k - 1].range.start);
        }
        assert(before == tokens[k - 1].range.start);
        assert(bytes.subrange(0, before) + tokens[k - 1].range.of(bytes) =~= bytes.subrange(
            0,
            tokens[k - 1].range.end as int,
        ));
    } else {
        assert(bytes.subrange(0, 0) =~= Seq::<u8>::empty());
    }
}

/// The leaf texts of steps are the texts of their leaves.
pub proof fn lemma_steps_text(steps: Seq<Step>, bytes: Seq<u8>, n: int)
    requires
        0 <= n <= steps.len(),
    ensures
        steps_text(steps, bytes, n) == tokens_text(
            leaf_tokens(steps, n),
            bytes,
            leaf_tokens(steps, n).len() as int,
        ),
        green_text(green_of(steps, bytes), n) == steps_text(steps, bytes, n),
    decreases n,
{
    if n > 0 {
        lemma_steps_text(steps, bytes, n - 1);
        let prev = leaf_tokens(steps, n - 1);
        let cur = leaf_tokens(steps, n);
        lemma_tokens_text_prefix(cur, prev, bytes, prev.len() as int);
    }
}

/// The texts of the first `k` tokens depend on those tokens only.
pub proof fn lemma_tokens_text_prefix(a: Seq<Token>, b: Seq<Token>, bytes: Seq<u8>, k: int)
    requires
        0 <= k <= a.len(),
        k <= b.len(),
        forall|i: int| 0 <= i < k ==> a[i] == b[i],
    ensures
        tokens_text(a, bytes, k) == tokens_text(b, bytes, k),
    decreases k,
{
    if k > 0 {
        lemma_tokens_text_prefix(a, b, bytes, k - 1);
    }
}

/// Losslessness: the leaf texts of the tree of a text, one after the other in
/// the order of the tree, are the text.
pub proof fn law_lossless(bytes: Seq<u8>)
    requires
        bytes.len() <= usize::MAX,
    ensures
        steps_text(spec_steps(bytes), bytes, spec_steps(bytes).len() as int) == bytes,
        green_text(
            green_of(spec_steps(bytes), bytes),
            spec_steps(bytes).len() as int,
        ) == bytes,
{
    let steps = spec_steps(bytes);
    let leaf = leaf_tokens(steps, steps.len() as int);
    lemma_parse(bytes);
    lemma_steps_text(steps, bytes, steps.len() as int);
    lemma_tokens_text(leaf, bytes, leaf.len() as int);
    assert(leaf.take(leaf.len() as int) =~= leaf);
    assert(bytes.subrange(0, bytes.len() as int) =~= bytes);
}

/// Every token is consumed exactly once, in order: the leaves of the tree of
/// a text are its tokens, each over the bytes of its token; a leaf of trivia
/// has the kind of its token, and any other leaf the kind under which the
/// grammar consumed its token.
pub proof fn law_leaves_are_tokens(bytes: Seq<u8>)
    requires
        bytes.len() <= usize::MAX,
    ensures
        ({
            let raw = crate::lexer::spec_tokenize(bytes);
            let leaf = leaf_tokens(spec_steps(bytes), spec_steps(bytes).len() as int);
            &&& leaf.len() == raw.len()
            &&& forall|i: int| 0 <= i < raw.len() ==> same_place(#[trigger] leaf[i], raw[i])
            &&& forall|i: int|
                0 <= i < raw.len() ==> kind_given(
                    raw,
                    spec_events(bytes),
                    spec_events(bytes).len() as int,
                    #[trigger] leaf[i],
                    i,
                )
        }),
{
    lemma_parse(bytes);
}

/// The leaf texts among the nodes from `a` up to `b` are the text between
/// the offsets at which the two nodes begin.
pub proof fn lemma_leaf_text(ns: Seq<Node>, bytes: Seq<u8>, a: int, b: int)
    requires
        tree_wf(ns),
        offset_before(ns, ns.len() as int) == bytes.len(),
        0 <= a <= b <= ns.len(),
    ensures
        leaf_text(ns, bytes, a, b) == bytes.subrange(offset_before(ns, a), offset_before(ns, b)),
    decreases b - a,
{
    lemma_offset_grows(ns, a, b);
    lemma_offset_grows(ns, b, ns.len() as int);
    if a < b {
        lemma_leaf_text(ns, bytes, a, b - 1);
        lemma_offset_grows(ns, a, b - 1);
        assert(node_ok(ns, b - 1));
        let mid = offset_before(ns, b - 1);
        if ns[b - 1].token {
            assert(bytes.subrange(offset_before(ns, a), mid) + ns[b - 1].range.of(bytes)
                =~= bytes.subrange(offset_before(ns, a), offset_before(ns, b)));
        }
    } else {
        assert(bytes.subrange(offset_before(ns, a), offset_before(ns, b)) =~= Seq::<u8>::empty());
    }
}

/// Losslessness, node by node: in a well-formed file the leaf texts below a
/// node, one after the other in the order of the tree, are the text that the
/// node covers; below the root, they are the whole text.
pub proof fn law_node_text(file: TomlFile, i: int)
    requires
        file.wf(),
        0 <= i < file.nodes().len(),
    ensures
        leaf_text(file.nodes(), file.bytes(), i, file.nodes()[i].end as int)
            == file.nodes()[i].range.of(file.bytes()),
        leaf_text(file.nodes(), file.bytes(), 0, file.nodes().len() as int) == file.bytes(),
{
    let ns = file.nodes();
    let bytes = file.bytes();
    assert(node_ok(ns, i));
    assert(node_ok(ns, 0));
    lemma_leaf_text(ns, bytes, i, ns[i].end as int);
    lemma_leaf_text(ns, bytes, 0, ns.len() as int);
    assert(bytes.subrange(0, bytes.len() as int) =~= bytes);
}

/// Every node that the grammar starts it also finishes, under the kind
/// under which it started it; all nodes lie inside the one `DOC` node; and
/// every significant token is consumed.
pub proof fn law_nodes_are_closed(bytes: Seq<u8>)
    ensures
        ({
            let kinds = significant_kinds(crate::lexer::spec_tokenize(bytes));
            let events = spec_events(bytes);
            &&& rooted(events)
            &&& balanced(events)
            &&& finishes_match(events)
            &&& events[0] == Event::Start(SyntaxKind::DOC)
            &&& events[events.len() - 1] == Event::Finish(SyntaxKind::DOC)
            &&& token_count(events, events.len() as int) == kinds.len()
        }),
{
    lemma_doc(significant_kinds(crate::lexer::spec_tokenize(bytes)));
}

/// Errors do not stand in the way: whatever the text, its steps build one
/// complete `DOC` node with a leaf for every token, and there is exactly one
/// error for each report of the grammar. A report costs one token at most:
/// it stands in an `ERROR` node with the one token it is about, or it is
/// made where no token is left; and an `ERROR` node holds nothing but a
/// report and its token.
pub proof fn law_errors_accumulate(bytes: Seq<u8>)
    requires
        bytes.len() <= usize::MAX,
    ensures
        steps_rooted(spec_steps(bytes)),
        spec_steps(bytes)[0] == Step::Open(SyntaxKind::DOC),
        leaf_tokens(spec_steps(bytes), spec_steps(bytes).len() as int).len()
            == crate::lexer::spec_tokenize(bytes).len(),
        spec_errors(bytes).len() == error_count(spec_events(bytes), spec_events(bytes).len() as int),
        errors_local(
            spec_events(bytes),
            0,
            significant_kinds(crate::lexer::spec_tokenize(bytes)).len() as int,
        ),
        error_nodes_single(spec_events(bytes)),
{
    lemma_parse(bytes);
    lemma_doc(significant_kinds(crate::lexer::spec_tokenize(bytes)));
}

/// The children of a node of a well-formed file are exactly the nodes whose
/// parent it is, in the order of the text.
pub proof fn law_children(file: TomlFile, p: int)
    requires
        file.wf(),
        0 <= p < file.nodes().len(),
    ensures
        ({
            let ns = file.nodes();
            let cs = children_of(ns, p);
            &&& forall|k: int|
                0 <= k < cs.len() ==> p < #[trigger] cs[k] < ns[p].end && ns[cs[k]].parent == Some(
                    p as usize,
                )
            &&& forall|j: int, k: int| 0 <= j < k < cs.len() ==> cs[j] < cs[k]
            &&& forall|x: int|
                0 <= x < ns.len() && (#[trigger] ns[x]).parent == Some(p as usize)
                    ==> cs.contains(x)
        }),
{
    lemma_children(file.nodes(), p);
}

/// The first `n` of the chunks, one after the other.
pub open spec fn flat(chunks: Seq<Seq<u8>>, n: int) -> Seq<u8>
    decreases n,
{
    if n <= 0 {
        seq![]
    } else {
        flat(chunks, n - 1) + chunks[n - 1]
    }
}

/// `x`, moved into `within` where it lies outside.
pub open spec fn clamp(x: int, within: TextRange) -> int {
    if x < within.start {
        within.start as int
    } else if x > within.end {
        within.end as int
    } else {
        x
    }
}

proof fn lemma_flat_prefix(a: Seq<Seq<u8>>, b: Seq<Seq<u8>>, n: int)
    requires
        0 <= n <= a.len(),
        n <= b.len(),
        forall|i: int| 0 <= i < n ==> a[i] == b[i],
    ensures
        flat(a, n) == flat(b, n),
    decreases n,
{
    if n > 0 {
        lemma_flat_prefix(a, b, n - 1);
    }
}

proof fn lemma_chunks(ns: Seq<Node>, bytes: Seq<u8>, within: TextRange, a: int, b: int)
    requires
        tree_wf(ns),
        offset_before(ns, ns.len() as int) == bytes.len(),
        0 <= a <= b <= ns.len(),
        within.start <= within.end <= bytes.len(),
    ensures
        flat(leaf_chunks(ns, bytes, a, b), leaf_chunks(ns, bytes, a, b).len() as int)
            == leaf_text(ns, bytes, a, b),
        flat(
            chunks_within(ns, bytes, within, a, b),
            chunks_within(ns, bytes, within, a, b).len() as int,
        ) == bytes.subrange(
            clamp(offset_before(ns, a), within),
            clamp(offset_before(ns, b), within),
        ),
    decreases b - a,
{
    lemma_offset_grows(ns, a, b);
    lemma_offset_grows(ns, b, ns.len() as int);
    if a < b {
        lemma_chunks(ns, bytes, within, a, b - 1);
        lemma_offset_grows(ns, a, b - 1);
        lemma_offset_grows(ns, b - 1, b);
        assert(node_ok(ns, b - 1));
        let prev = leaf_chunks(ns, bytes, a, b - 1);
        let cur = leaf_chunks(ns, bytes, a, b);
        lemma_flat_prefix(cur, prev, prev.len() as int);
        let prev_in = chunks_within(ns, bytes, within, a, b - 1);
        let cur_in = chunks_within(ns, bytes, within, a, b);
        lemma_flat_prefix(cur_in, prev_in, prev_in.len() as int);
        let from = clamp(offset_before(ns, a), within);
        let mid = clamp(offset_before(ns, b - 1), within);
        let to = clamp(offset_before(ns, b), within);
        assert(bytes.subrange(from, mid) + bytes.subrange(mid, to) =~= bytes.subrange(from, to));
        if ns[b - 1].token {
            match spec_intersect(within, ns[b - 1].range) {
                Some(part) => {
                    assert(part.of(bytes) =~= bytes.subrange(mid, to));
                },
                None => {
                    assert(bytes.subrange(mid, to) =~= Seq::<u8>::empty());
                },
            }
        } else {
            assert(bytes.subrange(mid, to) =~= Seq::<u8>::empty());
        }
    } else {
        assert(bytes.subrange(
            clamp(offset_before(ns, a), within),
            clamp(offset_before(ns, b), within),
        ) =~= Seq::<u8>::empty());
    }
}

/// The chunks of the text of a node, put together, are the text of the
/// node; cut down to a range, they are the part of the node's text that lies
/// inside the range.
pub proof fn law_chunks(file: TomlFile, i: int, within: TextRange)
    requires
        file.wf(),
        0 <= i < file.nodes().len(),
        within.start <= within.end <= file.bytes().len(),
    ensures
        ({
            let ns = file.nodes();
            let bytes = file.bytes();
            let all = leaf_chunks(ns, bytes, i, ns[i].end as int);
            let some = chunks_within(ns, bytes, within, i, ns[i].end as int);
            &&& flat(all, all.len() as int) == ns[i].range.of(bytes)
            &&& flat(some, some.len() as int) == match spec_intersect(within, ns[i].range) {
                Some(part) => part.of(bytes),
                None => Seq::<u8>::empty(),
            }
        }),
{
    let ns = file.nodes();
    let bytes = file.bytes();
    assert(node_ok(ns, i));
    lemma_chunks(ns, bytes, within, i, ns[i].end as int);
    lemma_leaf_text(ns, bytes, i, ns[i].end as int);
    lemma_offset_grows(ns, i, ns[i].end as int);
    let from = clamp(offset_before(ns, i), within);
    let to = clamp(offset_before(ns, ns[i].end as int), within);
    match spec_intersect(within, ns[i].range) {
        Some(part) => {
            assert(part.of(bytes) =~= bytes.subrange(from, to));
        },
        None => {
            assert(bytes.subrange(from, to) =~= Seq::<u8>::empty());
        },
    }
}

/// Leading trivia: of the trivia `raw[lo..hi]` before an entry or a table,
/// the part inside the node begins at a comment, holds no empty line, and
/// leaves out only comments that an empty line parts from the node. So a
/// comment on the line right before the node is inside it, and a comment
/// with an empty line after it is not.
pub proof fn law_leading_trivia(raw: Seq<Token>, s: Seq<u8>, lo: int, hi: int)
    requires
        0 <= lo <= hi <= raw.len(),
    ensures
        ({
            let a = attach_back(raw, s, lo, hi, hi);
            &&& lo <= a <= hi
            &&& (a < hi ==> raw[a].kind == SyntaxKind::COMMENT)
            &&& forall|j: int| a <= j < hi ==> !is_blank_gap(#[trigger] raw[j], s)
            &&& forall|c: int|
                lo <= c < a && (#[trigger] raw[c]).kind == SyntaxKind::COMMENT ==> exists|j: int|
                    c < j < hi && is_blank_gap(#[trigger] raw[j], s)
        }),
{
    lemma_leading(raw, s, lo, hi, hi, hi);
}

proof fn lemma_leading(raw: Seq<Token>, s: Seq<u8>, lo: int, hi: int, j: int, best: int)
    requires
        0 <= lo <= j <= best <= hi <= raw.len(),
        best < hi ==> raw[best].kind == SyntaxKind::COMMENT,
        forall|i: int| j <= i < hi ==> !is_blank_gap(#[trigger] raw[i], s),
        forall|c: int| j <= c < best ==> (#[trigger] raw[c]).kind != SyntaxKind::COMMENT,
    ensures
        ({
            let a = attach_back(raw, s, lo, j, best);
            &&& lo <= a <= best
            &&& (a < hi ==> raw[a].kind == SyntaxKind::COMMENT)
            &&& forall|i: int| a <= i < hi ==> !is_blank_gap(#[trigger] raw[i], s)
            &&& forall|c: int|
                lo <= c < a && (#[trigger] raw[c]).kind == SyntaxKind::COMMENT ==> exists|i: int|
                    c < i < hi && is_blank_gap(#[trigger] raw[i], s)
        }),
    decreases j - lo,
{
    if j <= lo {
    } else if raw[j - 1].kind == SyntaxKind::COMMENT {
        lemma_leading(raw, s, lo, hi, j - 1, j - 1);
    } else if is_blank_gap(raw[j - 1], s) {
        assert forall|c: int|
            lo <= c < best && (#[trigger] raw[c]).kind == SyntaxKind::COMMENT implies exists|i: int|
            c < i < hi && is_blank_gap(#[trigger] raw[i], s) by {
            assert(is_blank_gap(raw[j - 1], s));
        }
    } else {
        lemma_leading(raw, s, lo, hi, j - 1, best);
    }
}

/// Trailing trivia: of the trivia `raw[lo..hi]` after an entry, the part
/// inside the entry ends with a comment, holds no line break, and leaves out
/// only comments that a line break parts from the entry. So a comment on
/// the entry's own line is inside it, and a comment on a later line is not.
pub proof fn law_trailing_trivia(raw: Seq<Token>, s: Seq<u8>, lo: int, hi: int)
    requires
        0 <= lo <= hi <= raw.len(),
    ensures
        ({
            let b = attach_fwd(raw, s, lo, hi, lo);
            &&& lo <= b <= hi
            &&& (lo < b ==> raw[b - 1].kind == SyntaxKind::COMMENT)
            &&& forall|j: int| lo <= j < b ==> !is_line_break(#[trigger] raw[j], s)
            &&& forall|c: int|
                b <= c < hi && (#[trigger] raw[c]).kind == SyntaxKind::COMMENT ==> exists|j: int|
                    lo <= j < c && is_line_break(#[trigger] raw[j], s)
        }),
{
    lemma_trailing(raw, s, lo, hi, lo, lo);
}

proof fn lemma_trailing(raw: Seq<Token>, s: Seq<u8>, lo: int, hi: int, j: int, best: int)
    requires
        0 <= lo <= best <= j <= hi <= raw.len(),
        lo < best ==> raw[best - 1].kind == SyntaxKind::COMMENT,
        forall|i: int| lo <= i < j ==> !is_line_break(#[trigger] raw[i], s),
        forall|c: int| best <= c < j ==> (#[trigger] raw[c]).kind != SyntaxKind::COMMENT,
    ensures
        ({
            let b = attach_fwd(raw, s, j, hi, best);
            &&& best <= b <= hi
            &&& (lo < b ==> raw[b - 1].kind == SyntaxKind::COMMENT)
            &&& forall|i: int| lo <= i < b ==> !is_line_break(#[trigger] raw[i], s)
            &&& forall|c: int|
                b <= c < hi && (#[trigger] raw[c]).kind == SyntaxKind::COMMENT ==> exists|i: int|
                    lo <= i < c && is_line_break(#[trigger] raw[i], s)
        }),
    decreases hi - j,
{
    if j >= hi {
    } else if raw[j].kind == SyntaxKind::COMMENT {
        lemma_trailing(raw, s, lo, hi, j + 1, j + 1);
    } else if is_line_break(raw[j], s) {
        assert forall|c: int|
            best <= c < hi && (#[trigger] raw[c]).kind == SyntaxKind::COMMENT implies exists|i: int|
            lo <= i < c && is_line_break(#[trigger] raw[i], s) by {
            assert(is_line_break(raw[j], s));
        }
    } else {
        lemma_trailing(raw, s, lo, hi, j + 1, best);
    }
}

} // verus!
