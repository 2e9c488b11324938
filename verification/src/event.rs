//! The structural events that the grammar emits.

use vstd::prelude::*;
use crate::syntax_kind::SyntaxKind;

verus! {

/// What the grammar was looking for where it found something else.
#[derive(Clone, Copy, PartialEq, Eq, Debug, Structural)]
pub enum Expected {
    /// A key of an entry or of a table header.
    Key,
    /// A value.
    Value,
    /// A token of the given kind.
    Kind(SyntaxKind),
}

/// One step of the grammar over the significant tokens.
#[derive(Clone, Copy, PartialEq, Eq, Debug, Structural)]
pub enum Event {
    /// A node of the given kind begins.
    Start(SyntaxKind),
    /// The next significant token is consumed, under the given kind.
    Token(SyntaxKind),
    /// The innermost open node, which is of the given kind, ends.
    Finish(SyntaxKind),
    /// The token at hand is not what the grammar expects.
    Error(Expected),
}

/// How an event changes the number of open nodes.
pub open spec fn delta(e: Event) -> int {
    match e {
        Event::Start(_) => 1,
        Event::Finish(_) => -1,
        _ => 0,
    }
}

/// The number of nodes left open by the first `n` events.
pub open spec fn depth(events: Seq<Event>, n: int) -> int
    decreases n,
{
    if n <= 0 {
        0
    } else {
        depth(events, n - 1) + delta(events[n - 1])
    }
}

/// The number of tokens consumed by the first `n` events.
pub open spec fn token_count(events: Seq<Event>, n: int) -> int
    decreases n,
{
    if n <= 0 {
        0
    } else {
        token_count(events, n - 1) + if events[n - 1] is Token { 1int } else { 0int }
    }
}

/// Every node that the events start they also finish, and none is finished
/// before it was started.
pub open spec fn balanced(events: Seq<Event>) -> bool {
    &&& depth(events, events.len() as int) == 0
    &&& forall|n: int| 0 <= n <= events.len() ==> #[trigger] depth(events, n) >= 0
}

/// The events describe exactly one node, with all the others inside it.
pub open spec fn rooted(events: Seq<Event>) -> bool {
    &&& events.len() >= 2
    &&& events[0] is Start
    &&& depth(events, events.len() as int) == 0
    &&& forall|n: int| 0 < n < events.len() ==> #[trigger] depth(events, n) >= 1
}

/// Depths and token counts add up over events put one after the other.
pub proof fn lemma_depth_concat(a: Seq<Event>, b: Seq<Event>, n: int)
    requires
        0 <= n <= b.len(),
    ensures
        depth(a + b, a.len() + n) == depth(a, a.len() as int) + depth(b, n),
        token_count(a + b, a.len() + n) == token_count(a, a.len() as int) + token_count(b, n),
        forall|m: int| 0 <= m <= a.len() ==> #[trigger] depth(a + b, m) == depth(a, m),
    decreases n,
{
    assert forall|m: int| 0 <= m <= a.len() implies #[trigger] depth(a + b, m) == depth(a, m) by {
        lemma_depth_prefix(a, b, m);
    }
    lemma_depth_prefix(a, b, a.len() as int);
    if n > 0 {
        lemma_depth_concat(a, b, n - 1);
        assert((a + b)[a.len() + n - 1] == b[n - 1]);
    }
}

/// What comes after the first `m` events does not change their depth nor
/// their token count.
pub proof fn lemma_depth_prefix(a: Seq<Event>, b: Seq<Event>, m: int)
    requires
        0 <= m <= a.len(),
    ensures
        depth(a + b, m) == depth(a, m),
        token_count(a + b, m) == token_count(a, m),
    decreases m,
{
    if m > 0 {
        lemma_depth_prefix(a, b, m - 1);
        assert((a + b)[m - 1] == a[m - 1]);
    }
}

/// Balanced runs of events, put one after the other, are balanced.
pub proof fn lemma_balanced_concat(a: Seq<Event>, b: Seq<Event>)
    requires
        balanced(a),
        balanced(b),
    ensures
        balanced(a + b),
        token_count(a + b, (a + b).len() as int) == token_count(a, a.len() as int) + token_count(
            b,
            b.len() as int,
        ),
{
    lemma_depth_concat(a, b, b.len() as int);
    assert forall|n: int| 0 <= n <= (a + b).len() implies #[trigger] depth(a + b, n) >= 0 by {
        if n <= a.len() {
            lemma_depth_prefix(a, b, n);
        } else {
            lemma_depth_concat(a, b, n - a.len());
        }
    }
}

/// A balanced run of events between a start and a finish is one node.
pub proof fn lemma_wrap(kind: SyntaxKind, a: Seq<Event>)
    requires
        balanced(a),
    ensures
        rooted(seq![Event::Start(kind)] + a + seq![Event::Finish(kind)]),
        balanced(seq![Event::Start(kind)] + a + seq![Event::Finish(kind)]),
        token_count(
            seq![Event::Start(kind)] + a + seq![Event::Finish(kind)],
            (a.len() + 2) as int,
        ) == token_count(a, a.len() as int),
{
    let s = seq![Event::Start(kind)];
    let f = seq![Event::Finish(kind)];
    let all = s + a + f;
    assert(depth(s, 1) == 1) by {
        assert(depth(s, 0) == 0);
    }
    assert(token_count(s, 1) == 0) by {
        assert(token_count(s, 0) == 0);
    }
    assert(depth(f, 1) == -1) by {
        assert(depth(f, 0) == 0);
    }
    assert(token_count(f, 1) == 0) by {
        assert(token_count(f, 0) == 0);
    }
    lemma_depth_concat(s, a, a.len() as int);
    lemma_depth_concat(s + a, f, 1);
    assert forall|n: int| 0 < n < all.len() implies #[trigger] depth(all, n) >= 1 by {
        lemma_depth_prefix(s + a, f, n);
        lemma_depth_concat(s, a, n - 1);
    }
    assert forall|n: int| 0 <= n <= all.len() implies #[trigger] depth(all, n) >= 0 by {
        if n == 0 {
        } else if n < all.len() {
        } else {
        }
    }
}

/// The kinds of the nodes that the first `n` events leave open, from the
/// outermost to the innermost.
pub open spec fn open_kinds(events: Seq<Event>, n: int) -> Seq<SyntaxKind>
    decreases n,
{
    if n <= 0 {
        seq![]
    } else {
        match events[n - 1] {
            Event::Start(kind) => open_kinds(events, n - 1).push(kind),
            Event::Finish(_) => if open_kinds(events, n - 1).len() > 0 {
                open_kinds(events, n - 1).drop_last()
            } else {
                open_kinds(events, n - 1)
            },
            _ => open_kinds(events, n - 1),
        }
    }
}

/// The event at `n` finishes the innermost open node under the kind under
/// which the node was started.
pub open spec fn finish_matches(events: Seq<Event>, n: int) -> bool {
    0 <= n < events.len() && events[n] is Finish ==> open_kinds(events, n).len() > 0
        && events[n] == Event::Finish(open_kinds(events, n)[open_kinds(events, n).len() - 1])
}

/// Every finish names the kind of the node that it finishes.
pub open spec fn finishes_match(events: Seq<Event>) -> bool {
    forall|n: int| #[trigger] finish_matches(events, n)
}

/// As long as no node is finished that was not started, there are as many
/// open kinds as the depth says.
pub proof fn lemma_open_kinds_len(events: Seq<Event>, n: int)
    requires
        0 <= n <= events.len(),
        forall|m: int| 0 <= m <= n ==> #[trigger] depth(events, m) >= 0,
    ensures
        open_kinds(events, n).len() == depth(events, n),
    decreases n,
{
    if n > 0 {
        lemma_open_kinds_len(events, n - 1);
        assert(depth(events, n) >= 0);
    }
}

/// Balanced events leave the kinds open that were open before them.
pub proof fn lemma_open_kinds_concat(a: Seq<Event>, b: Seq<Event>, m: int)
    requires
        0 <= m <= b.len(),
        forall|j: int| 0 <= j <= b.len() ==> #[trigger] depth(b, j) >= 0,
    ensures
        open_kinds(a + b, a.len() + m) == open_kinds(a, a.len() as int) + open_kinds(b, m),
    decreases m,
{
    if m > 0 {
        lemma_open_kinds_concat(a, b, m - 1);
        lemma_open_kinds_len(b, m - 1);
        lemma_open_kinds_len(b, m);
        assert((a + b)[a.len() + m - 1] == b[m - 1]);
        let before = open_kinds(a, a.len() as int);
        let inner = open_kinds(b, m - 1);
        match b[m - 1] {
            Event::Start(kind) => {
                assert((before + inner).push(kind) =~= before + inner.push(kind));
            },
            Event::Finish(_) => {
                assert(depth(b, m) >= 0);
                assert(inner.len() > 0);
                assert((before + inner).drop_last() =~= before + inner.drop_last());
            },
            _ => {},
        }
    } else {
        lemma_open_kinds_prefix(a, b, a.len() as int);
        assert(open_kinds(a, a.len() as int) + open_kinds(b, 0) =~= open_kinds(a, a.len() as int));
    }
}

/// What comes after the first `m` events does not change the kinds that
/// they leave open.
pub proof fn lemma_open_kinds_prefix(a: Seq<Event>, b: Seq<Event>, m: int)
    requires
        0 <= m <= a.len(),
    ensures
        open_kinds(a + b, m) == open_kinds(a, m),
    decreases m,
{
    if m > 0 {
        lemma_open_kinds_prefix(a, b, m - 1);
        assert((a + b)[m - 1] == a[m - 1]);
    }
}

/// Balanced events in which every finish matches, put one after the other,
/// are such events.
pub proof fn lemma_finishes_concat(a: Seq<Event>, b: Seq<Event>)
    requires
        finishes_match(a),
        finishes_match(b),
        forall|j: int| 0 <= j <= b.len() ==> #[trigger] depth(b, j) >= 0,
    ensures
        finishes_match(a + b),
{
    let all = a + b;
    assert forall|n: int| #[trigger] finish_matches(all, n) by {
        if 0 <= n < a.len() {
            lemma_open_kinds_prefix(a, b, n);
            assert(all[n] == a[n]);
            assert(finish_matches(a, n));
        } else if a.len() <= n < all.len() {
            let m = n - a.len();
            lemma_open_kinds_concat(a, b, m);
            lemma_open_kinds_len(b, m);
            assert(all[n] == b[m]);
            assert(finish_matches(b, m));
            if b[m] is Finish {
                let before = open_kinds(a, a.len() as int);
                let inner = open_kinds(b, m);
                assert((before + inner)[(before + inner).len() - 1] == inner[inner.len() - 1]);
            }
        }
    }
}

} // verus!
