//! The green tree of `rowan`, built from the same steps as the tree of this
//! library, for the tools that work on `rowan` trees.
//!
//! `rowan` is not verified. What this module believes of it is stated in the
//! contracts of the functions marked `external_body`, over the sequence of
//! calls that a builder has received.

use vstd::prelude::*;
use vstd::string::StringSliceAdditionalSpecFns;
use crate::file::range_ok;
use crate::lexer::Token;
use crate::sink::{leaf_tokens, step_depth, steps_rooted, Step};
use crate::syntax_error::SyntaxError;
use crate::syntax_kind::SyntaxKind;
use crate::text::slice_str;
use crate::tree::{chain_end, chained, lemma_leaf_prefix};

verus! {

/// `rowan::GreenNode`, of which nothing is known but what the functions below
/// state.
#[verifier::external_type_specification]
#[verifier::external_body]
pub struct ExGreenNode(rowan::GreenNode);

/// `rowan::GreenNodeBuilder`, of which nothing is known but what the
/// functions below state.
#[verifier::external_type_specification]
#[verifier::external_body]
pub struct ExGreenNodeBuilder<'cache>(rowan::GreenNodeBuilder<'cache>);

/// One call on a builder of green trees: a node is started under a raw
/// kind, a token with a raw kind and a text is added, or the innermost
/// started node is finished.
pub enum GreenStep {
    Open(u16),
    Leaf(u16, Seq<u8>),
    Close,
}

/// What a builder of `rowan` holds: the calls it has received, in order.
/// Its lists of started nodes and of finished children say the same.
pub uninterp spec fn builder_steps(builder: rowan::GreenNodeBuilder<'static>) -> Seq<GreenStep>;

/// What a green node of `rowan` holds: the calls that build it, which are
/// its nodes and tokens in the order in which they begin and end.
pub uninterp spec fn green_steps(node: rowan::GreenNode) -> Seq<GreenStep>;

/// The number of nodes that the first `n` calls leave started.
pub open spec fn green_depth(steps: Seq<GreenStep>, n: int) -> int
    decreases n,
{
    if n <= 0 {
        0
    } else {
        green_depth(steps, n - 1) + match steps[n - 1] {
            GreenStep::Open(_) => 1int,
            GreenStep::Leaf(_, _) => 0int,
            GreenStep::Close => -1int,
        }
    }
}

/// The number of bytes in the tokens of the first `n` calls.
pub open spec fn green_text_len(steps: Seq<GreenStep>, n: int) -> int
    decreases n,
{
    if n <= 0 {
        0
    } else {
        green_text_len(steps, n - 1) + match steps[n - 1] {
            GreenStep::Leaf(_, text) => text.len() as int,
            _ => 0int,
        }
    }
}

/// The calls build exactly one node, with everything else inside it.
pub open spec fn green_rooted(steps: Seq<GreenStep>) -> bool {
    &&& steps.len() >= 2
    &&& steps[0] is Open
    &&& green_depth(steps, steps.len() as int) == 0
    &&& forall|m: int| 0 < m < steps.len() ==> #[trigger] green_depth(steps, m) >= 1
}

/// `rowan::GreenNodeBuilder::new`: a builder that has received no call.
#[verifier::external_body]
fn green_builder_new() -> (builder: rowan::GreenNodeBuilder<'static>)
    ensures
        builder_steps(builder) == Seq::<GreenStep>::empty(),
{
    rowan::GreenNodeBuilder::new()
}

/// `rowan::GreenNodeBuilder::start_node`: pushes the kind on the list of
/// started nodes; it cannot fail.
#[verifier::external_body]
fn green_start_node(builder: &mut rowan::GreenNodeBuilder<'static>, kind: u16)
    ensures
        builder_steps(*final(builder)) == builder_steps(*old(builder)).push(GreenStep::Open(kind)),
{
    builder.start_node(rowan::SyntaxKind(kind))
}

/// `rowan::GreenNodeBuilder::token`: adds a token with the given kind and
/// text to the children collected so far; it cannot fail.
#[verifier::external_body]
fn green_token(builder: &mut rowan::GreenNodeBuilder<'static>, kind: u16, text: &str)
    ensures
        builder_steps(*final(builder)) == builder_steps(*old(builder)).push(
            GreenStep::Leaf(kind, text.spec_bytes()),
        ),
{
    builder.token(rowan::SyntaxKind(kind), text.into())
}

/// `rowan::GreenNodeBuilder::finish_node`: takes the last started node off
/// the list and makes it the parent of the children collected since. It
/// panics where no node is started, and it adds up the lengths of the
/// children's texts in 32 bits.
#[verifier::external_body]
fn green_finish_node(builder: &mut rowan::GreenNodeBuilder<'static>)
    requires
        green_depth(builder_steps(*old(builder)), builder_steps(*old(builder)).len() as int) >= 1,
        green_text_len(builder_steps(*old(builder)), builder_steps(*old(builder)).len() as int)
            <= u32::MAX,
    ensures
        builder_steps(*final(builder)) == builder_steps(*old(builder)).push(GreenStep::Close),
{
    builder.finish_node()
}

/// `rowan::GreenNodeBuilder::finish`: hands out the one node that was built.
/// It panics unless exactly one child was collected and that child is a node.
#[verifier::external_body]
fn green_finish(builder: rowan::GreenNodeBuilder<'static>) -> (node: rowan::GreenNode)
    requires
        green_rooted(builder_steps(builder)),
    ensures
        green_steps(node) == builder_steps(builder),
{
    builder.finish()
}

/// `Clone` of `rowan::GreenNode`: another handle to the same node.
#[verifier::external_body]
pub(crate) fn green_clone(node: &rowan::GreenNode) -> (copy: rowan::GreenNode)
    ensures
        green_steps(copy) == green_steps(*node),
{
    node.clone()
}

/// Builds a green tree of `rowan` call by call, and collects syntax errors.
pub struct SyntaxTreeBuilder {
    errors: Vec<SyntaxError>,
    inner: rowan::GreenNodeBuilder<'static>,
}

impl SyntaxTreeBuilder {
    /// The calls received so far.
    pub closed spec fn steps(self) -> Seq<GreenStep> {
        builder_steps(self.inner)
    }

    /// The errors collected so far.
    pub closed spec fn errors(self) -> Seq<SyntaxError> {
        self.errors@
    }

    /// A builder that has received no call and holds no error.
    pub fn new() -> (builder: SyntaxTreeBuilder)
        ensures
            builder.steps() == Seq::<GreenStep>::empty(),
            builder.errors() == Seq::<SyntaxError>::empty(),
    {
        SyntaxTreeBuilder { errors: Vec::new(), inner: green_builder_new() }
    }

    /// Adds a token of kind `kind` with the text `text`.
    pub fn token(&mut self, kind: SyntaxKind, text: &str)
        ensures
            final(self).steps() == old(self).steps().push(
                GreenStep::Leaf(kind.raw() as u16, text.spec_bytes()),
            ),
            final(self).errors() == old(self).errors(),
    {
        green_token(&mut self.inner, kind.to_raw(), text);
    }

    /// Starts a node of kind `kind`.
    pub fn start_node(&mut self, kind: SyntaxKind)
        ensures
            final(self).steps() == old(self).steps().push(GreenStep::Open(kind.raw() as u16)),
            final(self).errors() == old(self).errors(),
    {
        green_start_node(&mut self.inner, kind.to_raw());
    }

    /// Finishes the innermost started node. There must be one, and the text
    /// added so far must be addressable in 32 bits.
    pub fn finish_node(&mut self)
        requires
            green_depth(old(self).steps(), old(self).steps().len() as int) >= 1,
            green_text_len(old(self).steps(), old(self).steps().len() as int) <= u32::MAX,
        ensures
            final(self).steps() == old(self).steps().push(GreenStep::Close),
            final(self).errors() == old(self).errors(),
    {
        green_finish_node(&mut self.inner);
    }

    /// Adds a syntax error.
    pub fn error(&mut self, error: SyntaxError)
        ensures
            final(self).steps() == old(self).steps(),
            final(self).errors() == old(self).errors().push(error),
    {
        self.errors.push(error);
    }

    /// The node that was built, and the errors.
    pub fn finish(self) -> (r: (rowan::GreenNode, Vec<SyntaxError>))
        requires
            green_rooted(self.steps()),
        ensures
            green_steps(r.0) == self.steps(),
            r.1@ == self.errors(),
    {
        (green_finish(self.inner), self.errors)
    }
}

/// The calls that rebuild, as a green tree, the tree that `steps` build over
/// the text `bytes`: kinds become raw kinds and ranges become the text they
/// cover.
pub open spec fn green_of(steps: Seq<Step>, bytes: Seq<u8>) -> Seq<GreenStep> {
    steps.map(
        |i: int, step: Step|
            match step {
                Step::Open(kind) => GreenStep::Open(kind.raw() as u16),
                Step::Leaf(kind, range) => GreenStep::Leaf(kind.raw() as u16, range.of(bytes)),
                Step::Close => GreenStep::Close,
            },
    )
}

/// A prefix of a sequence of calls agrees with the whole on depths and
/// lengths.
pub proof fn lemma_green_take(g: Seq<GreenStep>, i: int, n: int)
    requires
        0 <= n <= i <= g.len(),
    ensures
        green_depth(g.take(i), n) == green_depth(g, n),
        green_text_len(g.take(i), n) == green_text_len(g, n),
    decreases n,
{
    if n > 0 {
        lemma_green_take(g, i, n - 1);
        assert(g.take(i)[n - 1] == g[n - 1]);
    }
}

/// The green calls open and close as the steps do, and their tokens are as
/// long as the ranges of the leaves.
pub proof fn lemma_green_of(steps: Seq<Step>, bytes: Seq<u8>, n: int)
    requires
        0 <= n <= steps.len(),
        chained(leaf_tokens(steps, steps.len() as int)),
        chain_end(leaf_tokens(steps, steps.len() as int)) <= bytes.len(),
    ensures
        green_depth(green_of(steps, bytes), n) == step_depth(steps, n),
        green_text_len(green_of(steps, bytes), n) == chain_end(leaf_tokens(steps, n)),
        chain_end(leaf_tokens(steps, n)) <= chain_end(leaf_tokens(steps, steps.len() as int)),
    decreases n,
{
    let all = leaf_tokens(steps, steps.len() as int);
    lemma_leaf_prefix(steps, n, steps.len() as int);
    let k = leaf_tokens(steps, n).len() as int;
    if k > 0 {
        lemma_chain_grows(all, k - 1, all.len() - 1);
    }
    if n > 0 {
        lemma_green_of(steps, bytes, n - 1);
        lemma_leaf_prefix(steps, n - 1, steps.len() as int);
        match steps[n - 1] {
            Step::Leaf(kind, range) => {
                assert(leaf_tokens(steps, n)[k - 1] == Token { kind, range });
                assert(all.take(k)[k - 1] == all[k - 1]);
                if k > 1 {
                    assert(all.take(k - 1)[k - 2] == all[k - 2]);
                    assert(all[k - 2].range.end == all[k - 1].range.start);
                }
                lemma_chain_grows(all, k - 1, all.len() - 1);
            },
            _ => {},
        }
    }
}

/// The tokens of a chain end in the order in which they stand.
pub proof fn lemma_chain_grows(tokens: Seq<Token>, j: int, k: int)
    requires
        chained(tokens),
        0 <= j <= k < tokens.len(),
    ensures
        tokens[j].range.end <= tokens[k].range.end,
    decreases k - j,
{
    if j < k {
        lemma_chain_grows(tokens, j, k - 1);
        assert(tokens[k - 1].range.end == tokens[k].range.start);
    }
}

/// Builds the green tree of `rowan` that `steps` describe over `text`.
pub fn build_green(text: &str, steps: &[Step]) -> (node: rowan::GreenNode)
    requires
        text.spec_bytes().len() <= u32::MAX,
        steps_rooted(steps@),
        chained(leaf_tokens(steps@, steps@.len() as int)),
        chain_end(leaf_tokens(steps@, steps@.len() as int)) <= text.spec_bytes().len(),
        forall|i: int|
            0 <= i < leaf_tokens(steps@, steps@.len() as int).len() ==> range_ok(
                (#[trigger] leaf_tokens(steps@, steps@.len() as int)[i]).range,
                text.spec_bytes(),
            ),
    ensures
        green_steps(node) == green_of(steps@, text.spec_bytes()),
{
    let ghost bytes = text.spec_bytes();
    let ghost g = green_of(steps@, bytes);
    let mut builder = SyntaxTreeBuilder::new();
    let mut i: usize = 0;
    assert(builder.steps() =~= g.take(0));
    while i < steps.len()
        invariant
            0 <= i <= steps@.len(),
            bytes == text.spec_bytes(),
            bytes.len() <= u32::MAX,
            g == green_of(steps@, bytes),
            steps_rooted(steps@),
            chained(leaf_tokens(steps@, steps@.len() as int)),
            chain_end(leaf_tokens(steps@, steps@.len() as int)) <= bytes.len(),
            forall|i: int|
                0 <= i < leaf_tokens(steps@, steps@.len() as int).len() ==> range_ok(
                    (#[trigger] leaf_tokens(steps@, steps@.len() as int)[i]).range,
                    bytes,
                ),
            builder.steps() == g.take(i as int),
        decreases steps@.len() - i,
    {
        proof {
            lemma_green_take(g, i as int, i as int);
            lemma_green_of(steps@, bytes, i as int);
            lemma_leaf_prefix(steps@, i + 1, steps@.len() as int);
            if i > 0 {
                assert(step_depth(steps@, i as int) >= 1);
            }
            assert(g.take(i + 1) =~= g.take(i as int).push(g[i as int]));
        }
        match steps[i] {
            Step::Open(kind) => {
                builder.start_node(kind);
            },
            Step::Leaf(kind, range) => {
                proof {
                    let k = leaf_tokens(steps@, i as int).len() as int;
                    assert(leaf_tokens(steps@, i + 1)[k] == Token { kind, range });
                    assert(leaf_tokens(steps@, steps@.len() as int)[k] == Token { kind, range });
                }
                builder.token(kind, slice_str(text, range));
            },
            Step::Close => {
                builder.finish_node();
            },
        }
        i += 1;
    }
    proof {
        assert(g.take(steps@.len() as int) =~= g);
        assert forall|m: int| 0 <= m <= g.len() implies green_depth(g, m) == step_depth(
            steps@,
            m,
        ) by {
            lemma_green_of(steps@, bytes, m);
        }
    }
    builder.finish().0
}

} // verus!
