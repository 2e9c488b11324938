//! The grammar, as functions from the kinds of the significant tokens and a
//! position to the events of one rule and the position after it.
//!
//! ```text
//! doc          := entries (table | array_table)*
//! entries      := entry*
//! entry        := keys '=' value
//! keys         := key ('.' key)*
//! key          := bare key | single-line string
//! value        := literal | array | dict
//! array        := '[' (value ','?)* ']'
//! dict         := '{' (entry ','?)* '}'
//! table        := table_header entries
//! array_table  := table_header entries
//! table_header := '[' keys ']'  |  '[[' keys ']]'
//! ```
//!
//! A token that a rule cannot use is reported and wrapped, alone, in an
//! `ERROR` node; at the end of the input the report is all there is.

use vstd::prelude::*;
use crate::event::{
    balanced, depth, finish_matches, finishes_match, lemma_balanced_concat, lemma_depth_concat,
    lemma_depth_prefix, lemma_finishes_concat, lemma_open_kinds_len, lemma_wrap, open_kinds,
    rooted, token_count, Event, Expected,
};
use crate::syntax_kind::SyntaxKind;
use crate::token_source::kind_at;

verus! {

/// The kinds that a run of bare-key bytes can have.
pub open spec fn is_word_kind(kind: SyntaxKind) -> bool {
    kind == SyntaxKind::BARE_KEY_LIKE || kind == SyntaxKind::INT || kind == SyntaxKind::FLOAT
        || kind == SyntaxKind::DATE_TIME || kind == SyntaxKind::TRUE || kind == SyntaxKind::FALSE
}

/// The strings that can stand as a key.
pub open spec fn is_line_string(kind: SyntaxKind) -> bool {
    kind == SyntaxKind::BASIC_LINE_STRING || kind == SyntaxKind::LITERAL_LINE_STRING
}

/// The tokens that an entry can begin with.
pub open spec fn is_key_start(kind: SyntaxKind) -> bool {
    is_word_kind(kind) || is_line_string(kind)
}

/// The tokens that are a value by themselves.
pub open spec fn is_literal(kind: SyntaxKind) -> bool {
    kind == SyntaxKind::INT || kind == SyntaxKind::FLOAT || kind == SyntaxKind::DATE_TIME || kind
        == SyntaxKind::TRUE || kind == SyntaxKind::FALSE || kind == SyntaxKind::BASIC_LINE_STRING
        || kind == SyntaxKind::BASIC_MULTILINE_STRING || kind == SyntaxKind::LITERAL_LINE_STRING
        || kind == SyntaxKind::LITERAL_MULTILINE_STRING
}

/// The events `r` inside a node of the given kind.
pub open spec fn wrap(kind: SyntaxKind, r: (Seq<Event>, int)) -> (Seq<Event>, int) {
    (seq![Event::Start(kind)] + r.0 + seq![Event::Finish(kind)], r.1)
}

/// One rule after another.
pub open spec fn then(a: (Seq<Event>, int), b: (Seq<Event>, int)) -> (Seq<Event>, int) {
    (a.0 + b.0, b.1)
}

/// Nothing is consumed and nothing emitted.
pub open spec fn nothing(p: int) -> (Seq<Event>, int) {
    (Seq::<Event>::empty(), p)
}

/// The token at `p` is consumed under the kind `kind`.
pub open spec fn s_bump(p: int, kind: SyntaxKind) -> (Seq<Event>, int) {
    (seq![Event::Token(kind)], p + 1)
}

/// The report that `expected` is missing at `p`: at the end of the input the
/// report alone, else the report and the token at `p` inside an `ERROR` node.
pub open spec fn s_bump_error(k: Seq<SyntaxKind>, p: int, expected: Expected) -> (
    Seq<Event>,
    int,
) {
    if 0 <= p < k.len() {
        (
            seq![
                Event::Start(SyntaxKind::ERROR),
                Event::Error(expected),
                Event::Token(k[p]),
                Event::Finish(SyntaxKind::ERROR),
            ],
            p + 1,
        )
    } else {
        (seq![Event::Error(expected)], p)
    }
}

/// A token of kind `kind` is consumed, or its absence reported.
pub open spec fn s_eat(k: Seq<SyntaxKind>, p: int, kind: SyntaxKind) -> (Seq<Event>, int) {
    if 0 <= p < k.len() && k[p] == kind {
        s_bump(p, kind)
    } else {
        s_bump_error(k, p, Expected::Kind(kind))
    }
}

/// `key`: a run of bare-key bytes, relabelled `BARE_KEY`, or a single-line
/// string.
pub open spec fn s_key(k: Seq<SyntaxKind>, p: int) -> (Seq<Event>, int) {
    wrap(
        SyntaxKind::KEY,
        if 0 <= p < k.len() && is_word_kind(k[p]) {
            s_bump(p, SyntaxKind::BARE_KEY)
        } else if 0 <= p < k.len() && is_line_string(k[p]) {
            s_bump(p, k[p])
        } else {
            s_bump_error(k, p, Expected::Key)
        },
    )
}

/// Where a list of keys ends: at the end of the input, at `]` and at `=`.
pub open spec fn keys_stop(k: Seq<SyntaxKind>, p: int) -> bool {
    p < 0 || p >= k.len() || k[p] == SyntaxKind::R_BRACK || k[p] == SyntaxKind::EQ
}

/// `('.' key)*`, up to where the keys stop.
pub open spec fn s_keys_rest(k: Seq<SyntaxKind>, p: int) -> (Seq<Event>, int)
    decreases k.len() - p,
{
    if keys_stop(k, p) {
        nothing(p)
    } else {
        let dot = s_eat(k, p, SyntaxKind::DOT);
        let key = s_key(k, dot.1);
        then(then(dot, key), s_keys_rest(k, key.1))
    }
}

/// `keys`: nothing where the keys stop at once, else `key ('.' key)*`.
pub open spec fn s_keys(k: Seq<SyntaxKind>, p: int) -> (Seq<Event>, int) {
    if keys_stop(k, p) {
        nothing(p)
    } else {
        let key = s_key(k, p);
        then(key, s_keys_rest(k, key.1))
    }
}

/// The keys end inside the input, not before they began.
pub proof fn lemma_keys_end(k: Seq<SyntaxKind>, p: int)
    requires
        0 <= p <= k.len(),
    ensures
        p <= s_keys_rest(k, p).1 <= k.len(),
        p <= s_keys(k, p).1 <= k.len(),
        !keys_stop(k, p) ==> p < s_keys(k, p).1,
        keys_stop(k, s_keys(k, p).1),
        keys_stop(k, s_keys_rest(k, p).1),
    decreases k.len() - p,
{
    if !keys_stop(k, p) {
        lemma_keys_end(k, s_key(k, s_eat(k, p, SyntaxKind::DOT).1).1);
        lemma_keys_end(k, s_key(k, p).1);
    }
}

/// `value`: a literal in an `ATOM_LITERAL` node, an array, a dict, or, where
/// no value begins, the report of that in a `VALUE` node.
pub open spec fn s_val(k: Seq<SyntaxKind>, p: int) -> (Seq<Event>, int)
    decreases k.len() - p, 1int,
{
    if 0 <= p < k.len() && is_literal(k[p]) {
        wrap(SyntaxKind::ATOM_LITERAL, s_bump(p, k[p]))
    } else if 0 <= p < k.len() && k[p] == SyntaxKind::L_BRACK {
        s_array(k, p)
    } else if 0 <= p < k.len() && k[p] == SyntaxKind::L_CURLY {
        s_dict(k, p)
    } else {
        wrap(SyntaxKind::VALUE, s_bump_error(k, p, Expected::Value))
    }
}

/// `array`, at a `[`: the values up to the `]`, each followed by a comma
/// unless the `]` comes next.
pub open spec fn s_array(k: Seq<SyntaxKind>, p: int) -> (Seq<Event>, int)
    decreases k.len() - p, 0int,
{
    if 0 <= p < k.len() {
        let items = s_array_items(k, p + 1);
        wrap(
            SyntaxKind::ARRAY,
            then(then(s_bump(p, k[p]), items), s_eat(k, items.1, SyntaxKind::R_BRACK)),
        )
    } else {
        nothing(p)
    }
}

/// `(value ','?)*`, up to the `]` or the end of the input.
pub open spec fn s_array_items(k: Seq<SyntaxKind>, p: int) -> (Seq<Event>, int)
    decreases k.len() - p, 2int,
{
    if p < 0 || p >= k.len() || k[p] == SyntaxKind::R_BRACK {
        nothing(p)
    } else {
        let val = s_val(k, p);
        let item = if kind_at(k, val.1) != SyntaxKind::R_BRACK {
            then(val, s_eat(k, val.1, SyntaxKind::COMMA))
        } else {
            val
        };
        if p < item.1 <= k.len() {
            then(item, s_array_items(k, item.1))
        } else {
            // never so: a value takes at least the token it begins at (`lemma_ok_val`)
            item
        }
    }
}

/// `dict`, at a `{`: the entries up to the `}`, each followed by a comma
/// unless the `}` comes next.
pub open spec fn s_dict(k: Seq<SyntaxKind>, p: int) -> (Seq<Event>, int)
    decreases k.len() - p, 0int,
{
    if 0 <= p < k.len() {
        let items = s_dict_items(k, p + 1);
        wrap(
            SyntaxKind::DICT,
            then(then(s_bump(p, k[p]), items), s_eat(k, items.1, SyntaxKind::R_CURLY)),
        )
    } else {
        nothing(p)
    }
}

/// `(entry ','?)*`, up to the `}` or the end of the input.
pub open spec fn s_dict_items(k: Seq<SyntaxKind>, p: int) -> (Seq<Event>, int)
    decreases k.len() - p, 3int,
{
    if p < 0 || p >= k.len() || k[p] == SyntaxKind::R_CURLY {
        nothing(p)
    } else {
        let entry = s_entry(k, p);
        let item = if kind_at(k, entry.1) != SyntaxKind::R_CURLY {
            then(entry, s_eat(k, entry.1, SyntaxKind::COMMA))
        } else {
            entry
        };
        if p < item.1 <= k.len() {
            then(item, s_dict_items(k, item.1))
        } else {
            // never so: an entry inside the input takes a token (`lemma_ok_entry`)
            item
        }
    }
}

/// `entry`: `keys '=' value` in an `ENTRY` node.
pub open spec fn s_entry(k: Seq<SyntaxKind>, p: int) -> (Seq<Event>, int)
    decreases k.len() - p, 2int,
{
    if 0 <= p <= k.len() {
        let keys = s_keys(k, p);
        let eq = s_eat(k, keys.1, SyntaxKind::EQ);
        proof {
            lemma_keys_end(k, p);
        }
        wrap(SyntaxKind::ENTRY, then(then(keys, eq), s_val(k, eq.1)))
    } else {
        nothing(p)
    }
}

/// The error at `i` stands in an `ERROR` node of its own, with the one token
/// that it is about.
pub open spec fn error_is_wrapped(events: Seq<Event>, i: int) -> bool {
    &&& 0 < i && i + 2 < events.len()
    &&& events[i - 1] == Event::Start(SyntaxKind::ERROR)
    &&& events[i + 1] is Token
    &&& events[i + 2] == Event::Finish(SyntaxKind::ERROR)
}

/// Every error among the events is wrapped with its token, or is reported
/// where no token is left: `base` tokens were consumed before the events, and
/// there are `total`.
pub open spec fn errors_local(events: Seq<Event>, base: int, total: int) -> bool {
    forall|i: int| #[trigger]
        is_error_at(events, i) ==> error_is_wrapped(events, i) || base + token_count(events, i)
            == total
}

/// An error stands at `i`.
pub open spec fn is_error_at(events: Seq<Event>, i: int) -> bool {
    0 <= i < events.len() && events[i] is Error
}

/// An `ERROR` node starts at `i`.
pub open spec fn error_starts_at(events: Seq<Event>, i: int) -> bool {
    0 <= i < events.len() && events[i] == Event::Start(SyntaxKind::ERROR)
}

/// Every `ERROR` node among the events holds an error and one token, and
/// nothing else.
pub open spec fn error_nodes_single(events: Seq<Event>) -> bool {
    forall|i: int| #[trigger]
        error_starts_at(events, i) ==> i + 3 < events.len() && events[i + 1] is Error && events[i
            + 2] is Token && events[i + 3] == Event::Finish(SyntaxKind::ERROR)
}

/// What holds of the result `r` of every rule that begins at `p`: it ends
/// inside the input and not before `p`, its events are balanced, every
/// finish names the kind of its node, it consumes exactly the tokens between
/// the two positions, and an error costs one token at most.
pub open spec fn ok(k: Seq<SyntaxKind>, p: int, r: (Seq<Event>, int)) -> bool {
    &&& p <= r.1 <= k.len()
    &&& balanced(r.0)
    &&& finishes_match(r.0)
    &&& token_count(r.0, r.0.len() as int) == r.1 - p
    &&& errors_local(r.0, p, k.len() as int)
    &&& error_nodes_single(r.0)
}

/// Consuming a token is well formed.
pub proof fn lemma_ok_bump(k: Seq<SyntaxKind>, p: int, kind: SyntaxKind)
    requires
        0 <= p < k.len(),
    ensures
        ok(k, p, s_bump(p, kind)),
{
    reveal_with_fuel(depth, 2);
    reveal_with_fuel(token_count, 2);
    reveal_with_fuel(open_kinds, 2);
}

/// Reporting an error is well formed, and inside the input it takes the
/// token at hand.
pub proof fn lemma_ok_bump_error(k: Seq<SyntaxKind>, p: int, expected: Expected)
    requires
        0 <= p <= k.len(),
    ensures
        ok(k, p, s_bump_error(k, p, expected)),
        p < k.len() ==> s_bump_error(k, p, expected).1 == p + 1,
{
    reveal_with_fuel(depth, 5);
    reveal_with_fuel(token_count, 5);
    reveal_with_fuel(open_kinds, 5);
    let events = s_bump_error(k, p, expected).0;
    assert forall|n: int| #[trigger] finish_matches(events, n) by {
        if n == 3 && p < k.len() {
            assert(open_kinds(events, 3) =~= seq![SyntaxKind::ERROR]);
        }
    }
}

/// Eating a token is well formed, and inside the input it takes the token
/// at hand.
pub proof fn lemma_ok_eat(k: Seq<SyntaxKind>, p: int, kind: SyntaxKind)
    requires
        0 <= p <= k.len(),
    ensures
        ok(k, p, s_eat(k, p, kind)),
        p < k.len() ==> s_eat(k, p, kind).1 == p + 1,
{
    lemma_ok_bump_error(k, p, Expected::Kind(kind));
    if p < k.len() {
        lemma_ok_bump(k, p, kind);
    }
}

/// One well-formed rule after another is well formed.
pub proof fn lemma_ok_then(k: Seq<SyntaxKind>, p: int, a: (Seq<Event>, int), b: (Seq<Event>, int))
    requires
        ok(k, p, a),
        ok(k, a.1, b),
    ensures
        ok(k, p, then(a, b)),
{
    let all = a.0 + b.0;
    lemma_balanced_concat(a.0, b.0);
    lemma_finishes_concat(a.0, b.0);
    assert forall|i: int| #[trigger] is_error_at(all, i) implies error_is_wrapped(all, i) || p
        + token_count(all, i) == k.len() by {
        if i < a.0.len() {
            lemma_depth_prefix(a.0, b.0, i);
            assert(all[i] == a.0[i]);
            assert(is_error_at(a.0, i));
            if error_is_wrapped(a.0, i) {
                assert(all[i - 1] == a.0[i - 1]);
                assert(all[i + 1] == a.0[i + 1]);
                assert(all[i + 2] == a.0[i + 2]);
            }
        } else {
            let j = i - a.0.len();
            lemma_depth_concat(a.0, b.0, j);
            assert(all[i] == b.0[j]);
            assert(is_error_at(b.0, j));
            if error_is_wrapped(b.0, j) {
                assert(all[i - 1] == b.0[j - 1]);
                assert(all[i + 1] == b.0[j + 1]);
                assert(all[i + 2] == b.0[j + 2]);
            }
        }
    }
    assert forall|i: int| #[trigger] error_starts_at(all, i) implies i + 3 < all.len() && all[i
        + 1] is Error && all[i + 2] is Token && all[i + 3] == Event::Finish(SyntaxKind::ERROR) by {
        if i < a.0.len() {
            assert(all[i] == a.0[i]);
            assert(error_starts_at(a.0, i));
            assert(all[i + 1] == a.0[i + 1]);
            assert(all[i + 2] == a.0[i + 2]);
            assert(all[i + 3] == a.0[i + 3]);
        } else {
            let j = i - a.0.len();
            assert(all[i] == b.0[j]);
            assert(error_starts_at(b.0, j));
            assert(all[i + 1] == b.0[j + 1]);
            assert(all[i + 2] == b.0[j + 2]);
            assert(all[i + 3] == b.0[j + 3]);
        }
    }
}

/// A well-formed rule inside a node is well formed, and is one node.
pub proof fn lemma_ok_wrap(k: Seq<SyntaxKind>, p: int, kind: SyntaxKind, r: (Seq<Event>, int))
    requires
        ok(k, p, r),
        kind != SyntaxKind::ERROR,
    ensures
        ok(k, p, wrap(kind, r)),
        rooted(wrap(kind, r).0),
{
    lemma_wrap(kind, r.0);
    let open = (seq![Event::Start(kind)], p);
    let close = (seq![Event::Finish(kind)], r.1);
    assert(wrap(kind, r).0 =~= then(then(open, r), close).0);
    let inner = then(open, r);
    let all = wrap(kind, r).0;
    lemma_ok_then_open(k, p, open, r);
    assert forall|n: int| #[trigger] finish_matches(all, n) by {
        crate::event::lemma_open_kinds_prefix(inner.0, close.0, if 0 <= n <= inner.0.len() { n } else { 0 });
        if 0 <= n < inner.0.len() {
            assert(all[n] == inner.0[n]);
            assert(finish_matches(inner.0, n));
        } else if n == inner.0.len() {
            crate::event::lemma_open_kinds_concat(open.0, r.0, r.0.len() as int);
            lemma_open_kinds_len(r.0, r.0.len() as int);
            assert(open_kinds(open.0, 1) =~= seq![kind]) by {
                reveal_with_fuel(open_kinds, 2);
            }
            assert(open_kinds(inner.0, inner.0.len() as int) =~= seq![kind]);
        }
    }
    assert forall|i: int| #[trigger] is_error_at(all, i) implies error_is_wrapped(all, i) || p
        + token_count(all, i) == k.len() by {
        lemma_depth_prefix(inner.0, close.0, i);
        assert(all[i] == inner.0[i]);
        assert(is_error_at(inner.0, i));
        if error_is_wrapped(inner.0, i) {
            assert(all[i - 1] == inner.0[i - 1]);
            assert(all[i + 1] == inner.0[i + 1]);
            assert(all[i + 2] == inner.0[i + 2]);
        }
    }
    assert forall|i: int| #[trigger] error_starts_at(all, i) implies i + 3 < all.len() && all[i
        + 1] is Error && all[i + 2] is Token && all[i + 3] == Event::Finish(SyntaxKind::ERROR) by {
        assert(all[i] == inner.0[i]);
        assert(error_starts_at(inner.0, i));
        assert(all[i + 1] == inner.0[i + 1]);
        assert(all[i + 2] == inner.0[i + 2]);
        assert(all[i + 3] == inner.0[i + 3]);
    }
}

/// What `lemma_ok_then` says of errors, for events that begin with the start
/// of a node, which alone are not balanced.
proof fn lemma_ok_then_open(k: Seq<SyntaxKind>, p: int, a: (Seq<Event>, int), b: (Seq<Event>, int))
    requires
        a.0.len() == 1,
        a.0[0] is Start,
        a.0[0] != Event::Start(SyntaxKind::ERROR),
        a.1 == p,
        ok(k, p, b),
    ensures
        errors_local(then(a, b).0, p, k.len() as int),
        error_nodes_single(then(a, b).0),
        finishes_match(then(a, b).0),
{
    let all = a.0 + b.0;
    assert(finishes_match(a.0)) by {
        reveal_with_fuel(open_kinds, 2);
        assert forall|n: int| #[trigger] finish_matches(a.0, n) by {}
    }
    lemma_finishes_concat(a.0, b.0);
    assert(token_count(a.0, 1) == 0) by {
        reveal_with_fuel(token_count, 2);
    }
    assert forall|i: int| #[trigger] is_error_at(all, i) implies error_is_wrapped(all, i) || p
        + token_count(all, i) == k.len() by {
        let j = i - 1;
        lemma_depth_concat(a.0, b.0, j);
        assert(all[i] == b.0[j]);
        assert(is_error_at(b.0, j));
        if error_is_wrapped(b.0, j) {
            assert(all[i - 1] == b.0[j - 1]);
            assert(all[i + 1] == b.0[j + 1]);
            assert(all[i + 2] == b.0[j + 2]);
        }
    }
    assert forall|i: int| #[trigger] error_starts_at(all, i) implies i + 3 < all.len() && all[i
        + 1] is Error && all[i + 2] is Token && all[i + 3] == Event::Finish(SyntaxKind::ERROR) by {
        let j = i - 1;
        assert(all[i] == b.0[j]);
        assert(error_starts_at(b.0, j));
        assert(all[i + 1] == b.0[j + 1]);
        assert(all[i + 2] == b.0[j + 2]);
        assert(all[i + 3] == b.0[j + 3]);
    }
}

/// A key is well formed, and inside the input it takes the token at hand.
pub proof fn lemma_ok_key(k: Seq<SyntaxKind>, p: int)
    requires
        0 <= p <= k.len(),
    ensures
        ok(k, p, s_key(k, p)),
        p < k.len() ==> s_key(k, p).1 == p + 1,
{
    lemma_ok_bump_error(k, p, Expected::Key);
    let inner = if 0 <= p < k.len() && is_word_kind(k[p]) {
        lemma_ok_bump(k, p, SyntaxKind::BARE_KEY);
        s_bump(p, SyntaxKind::BARE_KEY)
    } else if 0 <= p < k.len() && is_line_string(k[p]) {
        lemma_ok_bump(k, p, k[p]);
        s_bump(p, k[p])
    } else {
        s_bump_error(k, p, Expected::Key)
    };
    lemma_ok_wrap(k, p, SyntaxKind::KEY, inner);
}

/// The keys after the first are well formed.
pub proof fn lemma_ok_keys_rest(k: Seq<SyntaxKind>, p: int)
    requires
        0 <= p <= k.len(),
    ensures
        ok(k, p, s_keys_rest(k, p)),
    decreases k.len() - p,
{
    if keys_stop(k, p) {
    } else {
        let dot = s_eat(k, p, SyntaxKind::DOT);
        let key = s_key(k, dot.1);
        lemma_ok_eat(k, p, SyntaxKind::DOT);
        lemma_ok_key(k, dot.1);
        lemma_ok_keys_rest(k, key.1);
        lemma_ok_then(k, p, dot, key);
        lemma_ok_then(k, p, then(dot, key), s_keys_rest(k, key.1));
    }
}

/// A list of keys is well formed.
pub proof fn lemma_ok_keys(k: Seq<SyntaxKind>, p: int)
    requires
        0 <= p <= k.len(),
    ensures
        ok(k, p, s_keys(k, p)),
{
    if !keys_stop(k, p) {
        let key = s_key(k, p);
        lemma_ok_key(k, p);
        lemma_ok_keys_rest(k, key.1);
        lemma_ok_then(k, p, key, s_keys_rest(k, key.1));
    }
}

/// A value is well formed, and inside the input it takes at least the token
/// it begins at.
pub proof fn lemma_ok_val(k: Seq<SyntaxKind>, p: int)
    requires
        0 <= p <= k.len(),
    ensures
        ok(k, p, s_val(k, p)),
        p < k.len() ==> p < s_val(k, p).1,
    decreases k.len() - p, 1int,
{
    if p < k.len() && is_literal(k[p]) {
        lemma_ok_bump(k, p, k[p]);
        lemma_ok_wrap(k, p, SyntaxKind::ATOM_LITERAL, s_bump(p, k[p]));
    } else if p < k.len() && k[p] == SyntaxKind::L_BRACK {
        lemma_ok_array(k, p);
    } else if p < k.len() && k[p] == SyntaxKind::L_CURLY {
        lemma_ok_dict(k, p);
    } else {
        lemma_ok_bump_error(k, p, Expected::Value);
        lemma_ok_wrap(k, p, SyntaxKind::VALUE, s_bump_error(k, p, Expected::Value));
    }
}

/// An array is well formed and takes at least its `[`.
pub proof fn lemma_ok_array(k: Seq<SyntaxKind>, p: int)
    requires
        0 <= p < k.len(),
    ensures
        ok(k, p, s_array(k, p)),
        p < s_array(k, p).1,
    decreases k.len() - p, 0int,
{
    let open = s_bump(p, k[p]);
    let items = s_array_items(k, p + 1);
    let close = s_eat(k, items.1, SyntaxKind::R_BRACK);
    lemma_ok_bump(k, p, k[p]);
    lemma_ok_array_items(k, p + 1);
    lemma_ok_eat(k, items.1, SyntaxKind::R_BRACK);
    lemma_ok_then(k, p, open, items);
    lemma_ok_then(k, p, then(open, items), close);
    lemma_ok_wrap(k, p, SyntaxKind::ARRAY, then(then(open, items), close));
}

/// The values of an array are well formed and end at a `]` or at the end of
/// the input.
pub proof fn lemma_ok_array_items(k: Seq<SyntaxKind>, p: int)
    requires
        0 <= p <= k.len(),
    ensures
        ok(k, p, s_array_items(k, p)),
        ({
            let e = s_array_items(k, p).1;
            e >= k.len() || k[e] == SyntaxKind::R_BRACK
        }),
    decreases k.len() - p, 2int,
{
    if p >= k.len() || k[p] == SyntaxKind::R_BRACK {
    } else {
        let val = s_val(k, p);
        lemma_ok_val(k, p);
        let item = if kind_at(k, val.1) != SyntaxKind::R_BRACK {
            lemma_ok_eat(k, val.1, SyntaxKind::COMMA);
            lemma_ok_then(k, p, val, s_eat(k, val.1, SyntaxKind::COMMA));
            then(val, s_eat(k, val.1, SyntaxKind::COMMA))
        } else {
            val
        };
        lemma_ok_array_items(k, item.1);
        lemma_ok_then(k, p, item, s_array_items(k, item.1));
    }
}

/// An inline table is well formed and takes at least its `{`.
pub proof fn lemma_ok_dict(k: Seq<SyntaxKind>, p: int)
    requires
        0 <= p < k.len(),
    ensures
        ok(k, p, s_dict(k, p)),
        p < s_dict(k, p).1,
    decreases k.len() - p, 0int,
{
    let open = s_bump(p, k[p]);
    let items = s_dict_items(k, p + 1);
    let close = s_eat(k, items.1, SyntaxKind::R_CURLY);
    lemma_ok_bump(k, p, k[p]);
    lemma_ok_dict_items(k, p + 1);
    lemma_ok_eat(k, items.1, SyntaxKind::R_CURLY);
    lemma_ok_then(k, p, open, items);
    lemma_ok_then(k, p, then(open, items), close);
    lemma_ok_wrap(k, p, SyntaxKind::DICT, then(then(open, items), close));
}

/// The entries of an inline table are well formed and end at a `}` or at the
/// end of the input.
pub proof fn lemma_ok_dict_items(k: Seq<SyntaxKind>, p: int)
    requires
        0 <= p <= k.len(),
    ensures
        ok(k, p, s_dict_items(k, p)),
        ({
            let e = s_dict_items(k, p).1;
            e >= k.len() || k[e] == SyntaxKind::R_CURLY
        }),
    decreases k.len() - p, 3int,
{
    if p >= k.len() || k[p] == SyntaxKind::R_CURLY {
    } else {
        let entry = s_entry(k, p);
        lemma_ok_entry(k, p);
        let item = if kind_at(k, entry.1) != SyntaxKind::R_CURLY {
            lemma_ok_eat(k, entry.1, SyntaxKind::COMMA);
            lemma_ok_then(k, p, entry, s_eat(k, entry.1, SyntaxKind::COMMA));
            then(entry, s_eat(k, entry.1, SyntaxKind::COMMA))
        } else {
            entry
        };
        lemma_ok_dict_items(k, item.1);
        lemma_ok_then(k, p, item, s_dict_items(k, item.1));
    }
}

/// An entry is well formed, and inside the input it takes at least one token.
pub proof fn lemma_ok_entry(k: Seq<SyntaxKind>, p: int)
    requires
        0 <= p <= k.len(),
    ensures
        ok(k, p, s_entry(k, p)),
        p < k.len() ==> p < s_entry(k, p).1,
    decreases k.len() - p, 2int,
{
    let keys = s_keys(k, p);
    let eq = s_eat(k, keys.1, SyntaxKind::EQ);
    lemma_keys_end(k, p);
    lemma_ok_keys(k, p);
    lemma_ok_eat(k, keys.1, SyntaxKind::EQ);
    lemma_ok_val(k, eq.1);
    lemma_ok_then(k, p, keys, eq);
    lemma_ok_then(k, p, then(keys, eq), s_val(k, eq.1));
    lemma_ok_wrap(k, p, SyntaxKind::ENTRY, then(then(keys, eq), s_val(k, eq.1)));
}

/// `entries`: up to a `[` or the end of the input, an entry wherever a key
/// can begin, and the report of a missing key for any other token.
pub open spec fn s_entries(k: Seq<SyntaxKind>, p: int) -> (Seq<Event>, int)
    decreases k.len() - p,
{
    if p < 0 || p >= k.len() || k[p] == SyntaxKind::L_BRACK {
        nothing(p)
    } else {
        let item = if is_key_start(k[p]) {
            s_entry(k, p)
        } else {
            s_bump_error(k, p, Expected::Key)
        };
        proof {
            lemma_ok_entry(k, p);
        }
        then(item, s_entries(k, item.1))
    }
}

/// `table_header`, at a `[`, or at `[[` for an array of tables.
pub open spec fn s_table_header(k: Seq<SyntaxKind>, p: int, array: bool) -> (Seq<Event>, int) {
    let open = if array {
        then(s_bump(p, SyntaxKind::L_BRACK), s_bump(p + 1, SyntaxKind::L_BRACK))
    } else {
        s_bump(p, SyntaxKind::L_BRACK)
    };
    let keys = s_keys(k, open.1);
    let close = s_eat(k, keys.1, SyntaxKind::R_BRACK);
    let close = if array {
        then(close, s_eat(k, close.1, SyntaxKind::R_BRACK))
    } else {
        close
    };
    wrap(SyntaxKind::TABLE_HEADER, then(then(open, keys), close))
}

/// `table` or, with `array`, `array_table`: a header and the entries under it.
pub open spec fn s_table(k: Seq<SyntaxKind>, p: int, array: bool) -> (Seq<Event>, int) {
    let header = s_table_header(k, p, array);
    wrap(
        if array {
            SyntaxKind::ARRAY_TABLE
        } else {
            SyntaxKind::TABLE
        },
        then(header, s_entries(k, header.1)),
    )
}

/// Whether `[[` stands at `p`.
pub open spec fn at_array_table(k: Seq<SyntaxKind>, p: int) -> bool {
    kind_at(k, p) == SyntaxKind::L_BRACK && kind_at(k, p + 1) == SyntaxKind::L_BRACK
}

/// A run of entries is well formed and ends at a `[` or at the end of the
/// input.
pub proof fn lemma_ok_entries(k: Seq<SyntaxKind>, p: int)
    requires
        0 <= p <= k.len(),
    ensures
        ok(k, p, s_entries(k, p)),
        ({
            let e = s_entries(k, p).1;
            e >= k.len() || k[e] == SyntaxKind::L_BRACK
        }),
    decreases k.len() - p,
{
    if p >= k.len() || k[p] == SyntaxKind::L_BRACK {
    } else {
        let item = if is_key_start(k[p]) {
            s_entry(k, p)
        } else {
            s_bump_error(k, p, Expected::Key)
        };
        lemma_ok_entry(k, p);
        lemma_ok_bump_error(k, p, Expected::Key);
        lemma_ok_entries(k, item.1);
        lemma_ok_then(k, p, item, s_entries(k, item.1));
    }
}

/// A table, and its header, are well formed; the table takes at least its
/// `[` and ends at a `[` or at the end of the input.
pub proof fn lemma_ok_table(k: Seq<SyntaxKind>, p: int, array: bool)
    requires
        0 <= p < k.len(),
        k[p] == SyntaxKind::L_BRACK,
        array ==> at_array_table(k, p),
    ensures
        ok(k, p, s_table_header(k, p, array)),
        ok(k, p, s_table(k, p, array)),
        p < s_table(k, p, array).1,
        ({
            let e = s_table(k, p, array).1;
            e >= k.len() || k[e] == SyntaxKind::L_BRACK
        }),
{
    lemma_ok_bump(k, p, SyntaxKind::L_BRACK);
    let open = if array {
        lemma_ok_bump(k, p + 1, SyntaxKind::L_BRACK);
        lemma_ok_then(k, p, s_bump(p, SyntaxKind::L_BRACK), s_bump(p + 1, SyntaxKind::L_BRACK));
        then(s_bump(p, SyntaxKind::L_BRACK), s_bump(p + 1, SyntaxKind::L_BRACK))
    } else {
        s_bump(p, SyntaxKind::L_BRACK)
    };
    let keys = s_keys(k, open.1);
    lemma_ok_keys(k, open.1);
    let close1 = s_eat(k, keys.1, SyntaxKind::R_BRACK);
    lemma_ok_eat(k, keys.1, SyntaxKind::R_BRACK);
    let close = if array {
        lemma_ok_eat(k, close1.1, SyntaxKind::R_BRACK);
        lemma_ok_then(k, keys.1, close1, s_eat(k, close1.1, SyntaxKind::R_BRACK));
        then(close1, s_eat(k, close1.1, SyntaxKind::R_BRACK))
    } else {
        close1
    };
    lemma_ok_then(k, p, open, keys);
    lemma_ok_then(k, p, then(open, keys), close);
    lemma_ok_wrap(k, p, SyntaxKind::TABLE_HEADER, then(then(open, keys), close));
    let header = s_table_header(k, p, array);
    lemma_ok_entries(k, header.1);
    lemma_ok_then(k, p, header, s_entries(k, header.1));
    lemma_ok_wrap(
        k,
        p,
        if array {
            SyntaxKind::ARRAY_TABLE
        } else {
            SyntaxKind::TABLE
        },
        then(header, s_entries(k, header.1)),
    );
}

/// `(table | array_table)*`, from a `[` on: a table at each `[` and an item
/// of an array of tables at each `[[`. The entries before and the entries of
/// each table leave nothing but a `[` or the end of the input, so that the
/// tables go to the end of the input (`lemma_ok_tables`).
pub open spec fn s_tables(k: Seq<SyntaxKind>, p: int) -> (Seq<Event>, int)
    decreases k.len() - p,
{
    if p < 0 || p >= k.len() || k[p] != SyntaxKind::L_BRACK {
        nothing(p)
    } else {
        let item = s_table(k, p, at_array_table(k, p));
        proof {
            lemma_ok_table(k, p, at_array_table(k, p));
        }
        then(item, s_tables(k, item.1))
    }
}

/// From a `[` or from the end of the input, the tables are well formed and
/// go to the end of the input.
pub proof fn lemma_ok_tables(k: Seq<SyntaxKind>, p: int)
    requires
        0 <= p <= k.len(),
        p < k.len() ==> k[p] == SyntaxKind::L_BRACK,
    ensures
        ok(k, p, s_tables(k, p)),
        s_tables(k, p).1 == k.len(),
    decreases k.len() - p,
{
    if p < k.len() {
        let item = s_table(k, p, at_array_table(k, p));
        lemma_ok_table(k, p, at_array_table(k, p));
        lemma_ok_tables(k, item.1);
        lemma_ok_then(k, p, item, s_tables(k, item.1));
    }
}

/// `doc`: the events of a whole document, in a `DOC` node.
pub open spec fn s_doc(k: Seq<SyntaxKind>) -> Seq<Event> {
    let entries = s_entries(k, 0);
    wrap(SyntaxKind::DOC, then(entries, s_tables(k, entries.1))).0
}

/// The events of a document form one node, started and finished in step,
/// and consume every significant token.
pub proof fn lemma_doc(k: Seq<SyntaxKind>)
    ensures
        rooted(s_doc(k)),
        balanced(s_doc(k)),
        token_count(s_doc(k), s_doc(k).len() as int) == k.len(),
        s_doc(k)[0] == Event::Start(SyntaxKind::DOC),
        s_doc(k)[s_doc(k).len() - 1] == Event::Finish(SyntaxKind::DOC),
        errors_local(s_doc(k), 0, k.len() as int),
        error_nodes_single(s_doc(k)),
        finishes_match(s_doc(k)),
{
    let entries = s_entries(k, 0);
    let tables = s_tables(k, entries.1);
    lemma_ok_entries(k, 0);
    lemma_ok_tables(k, entries.1);
    lemma_ok_then(k, 0, entries, tables);
    lemma_ok_wrap(k, 0, SyntaxKind::DOC, then(entries, tables));
}

} // verus!
