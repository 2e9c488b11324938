//! The tree sink: replays the events of the grammar over all the tokens,
//! decides for each node which of the whitespace and comments around it
//! belong inside it, and writes down the steps that build the tree.

use vstd::prelude::*;
use vstd::string::StringSliceAdditionalSpecFns;
use crate::event::{depth, rooted, token_count, Event, Expected};
use crate::lexer::{Token, LF};
use crate::syntax_error::SyntaxError;
use crate::syntax_kind::SyntaxKind;
use crate::text::TextRange;
use crate::token_source::significant_upto;

verus! {

/// One step of building the tree.
#[derive(Clone, Copy, PartialEq, Eq, Debug, Structural)]
pub enum Step {
    /// A node of the given kind is opened inside the innermost open node.
    Open(SyntaxKind),
    /// A token of the given kind, covering the given bytes, is added to the
    /// innermost open node.
    Leaf(SyntaxKind, TextRange),
    /// The innermost open node is closed.
    Close,
}

/// The number of line feeds among `bytes`.
pub open spec fn newline_count(bytes: Seq<u8>) -> nat
    decreases bytes.len(),
{
    if bytes.len() == 0 {
        0
    } else {
        newline_count(bytes.drop_last()) + if bytes.last() == LF { 1nat } else { 0nat }
    }
}

/// Whitespace that holds an empty line: two line feeds or more.
pub open spec fn is_blank_gap(t: Token, s: Seq<u8>) -> bool {
    t.kind == SyntaxKind::WHITESPACE && newline_count(t.range.of(s)) >= 2
}

/// Whitespace that ends a line.
pub open spec fn is_line_break(t: Token, s: Seq<u8>) -> bool {
    t.kind == SyntaxKind::WHITESPACE && newline_count(t.range.of(s)) >= 1
}

/// The end of the run of trivia that starts at `i`: the position of the next
/// significant token, or the number of tokens where there is none.
pub open spec fn trivia_end(raw: Seq<Token>, i: int) -> int
    decreases raw.len() - i,
{
    if 0 <= i < raw.len() && !raw[i].spec_is_significant() {
        trivia_end(raw, i + 1)
    } else {
        i
    }
}

/// The walk back from `j` to `lo` over the trivia before a node: `best` moves
/// to each comment passed, and the walk ends at whitespace with an empty line.
pub open spec fn attach_back(raw: Seq<Token>, s: Seq<u8>, lo: int, j: int, best: int) -> int
    decreases j - lo,
{
    if j <= lo {
        best
    } else if raw[j - 1].kind == SyntaxKind::COMMENT {
        attach_back(raw, s, lo, j - 1, j - 1)
    } else if is_blank_gap(raw[j - 1], s) {
        best
    } else {
        attach_back(raw, s, lo, j - 1, best)
    }
}

/// The walk forward from `j` to `hi` over the trivia after a node: `best`
/// moves past each comment met, and the walk ends at whitespace that ends the
/// line.
pub open spec fn attach_fwd(raw: Seq<Token>, s: Seq<u8>, j: int, hi: int, best: int) -> int
    decreases hi - j,
{
    if j >= hi {
        best
    } else if raw[j].kind == SyntaxKind::COMMENT {
        attach_fwd(raw, s, j + 1, hi, j + 1)
    } else if is_line_break(raw[j], s) {
        best
    } else {
        attach_fwd(raw, s, j + 1, hi, best)
    }
}

/// Of the trivia `raw[lo..hi]` before a node of kind `kind`, where the part
/// that belongs inside the node begins. A document takes all of it. An entry
/// and a table take the comments that no empty line parts from them, with the
/// whitespace after each. Any other node takes none.
pub open spec fn leading_start(raw: Seq<Token>, s: Seq<u8>, lo: int, hi: int, kind: SyntaxKind) -> int {
    if kind == SyntaxKind::DOC {
        lo
    } else if kind == SyntaxKind::ENTRY || kind == SyntaxKind::TABLE {
        attach_back(raw, s, lo, hi, hi)
    } else {
        hi
    }
}

/// Of the trivia `raw[lo..hi]` after a node of kind `kind`, where the part
/// that belongs inside the node ends. A document takes all of it. An entry
/// takes the comments on its own line, with the whitespace before each. Any
/// other node takes none.
pub open spec fn trailing_end(raw: Seq<Token>, s: Seq<u8>, lo: int, hi: int, kind: SyntaxKind) -> int {
    if kind == SyntaxKind::DOC {
        hi
    } else if kind == SyntaxKind::ENTRY {
        attach_fwd(raw, s, lo, hi, lo)
    } else {
        lo
    }
}

/// The tokens `raw[a..b]` as leaves, each under its own kind.
pub open spec fn leaves(raw: Seq<Token>, a: int, b: int) -> Seq<Step>
    decreases b - a,
{
    if b <= a {
        seq![]
    } else {
        leaves(raw, a, b - 1).push(Step::Leaf(raw[b - 1].kind, raw[b - 1].range))
    }
}

/// Where an error found with `pos` tokens consumed is reported: at the next
/// significant token, or at the last token where none is left, or at the
/// start of an empty text.
pub open spec fn error_range(raw: Seq<Token>, pos: int) -> TextRange {
    if raw.len() == 0 {
        TextRange { start: 0, end: 0 }
    } else {
        let from = if pos >= raw.len() { raw.len() - 1 } else { pos };
        let at = trivia_end(raw, from);
        if at < raw.len() {
            raw[at].range
        } else {
            raw[raw.len() - 1].range
        }
    }
}

/// What one event does to the sink, whose state is the number of tokens
/// consumed, the steps, and the errors.
/// - At the start of a node, the trivia that stays outside is added, then the
///   node is opened.
/// - A token event adds the trivia before the next significant token, then
///   that token under the event's kind.
/// - At the finish of a node, the trivia that belongs inside is added, then
///   the node is closed.
/// - An error is written down with the place where the sink stands.
pub open spec fn sink_event(
    raw: Seq<Token>,
    s: Seq<u8>,
    st: (int, Seq<Step>, Seq<SyntaxError>),
    e: Event,
) -> (int, Seq<Step>, Seq<SyntaxError>) {
    let hi = trivia_end(raw, st.0);
    match e {
        Event::Start(kind) => {
            let a = leading_start(raw, s, st.0, hi, kind);
            (a, (st.1 + leaves(raw, st.0, a)).push(Step::Open(kind)), st.2)
        },
        Event::Token(kind) => {
            if 0 <= hi < raw.len() {
                (hi + 1, (st.1 + leaves(raw, st.0, hi)).push(Step::Leaf(kind, raw[hi].range)), st.2)
            } else {
                // no significant token is left: nothing to consume
                st
            }
        },
        Event::Finish(kind) => {
            let b = trailing_end(raw, s, st.0, hi, kind);
            (b, (st.1 + leaves(raw, st.0, b)).push(Step::Close), st.2)
        },
        Event::Error(expected) => (
            st.0,
            st.1,
            st.2.push(SyntaxError { expected, range: error_range(raw, st.0) }),
        ),
    }
}

/// The state of the sink after the first `n` events.
pub open spec fn sink_fold(raw: Seq<Token>, s: Seq<u8>, events: Seq<Event>, n: int) -> (
    int,
    Seq<Step>,
    Seq<SyntaxError>,
)
    decreases n,
{
    if n <= 0 {
        (0, seq![], seq![])
    } else {
        sink_event(raw, s, sink_fold(raw, s, events, n - 1), events[n - 1])
    }
}

/// Every token lies inside a text of `len` bytes.
pub open spec fn tokens_fit(raw: Seq<Token>, len: int) -> bool {
    forall|i: int| 0 <= i < raw.len() ==> (#[trigger] raw[i]).range.fits(len)
}

/// A run of trivia ends inside the tokens, at a significant token or at the
/// end, and holds trivia only.
pub proof fn lemma_trivia_end(raw: Seq<Token>, i: int)
    requires
        0 <= i <= raw.len(),
    ensures
        i <= trivia_end(raw, i) <= raw.len(),
        trivia_end(raw, i) < raw.len() ==> raw[trivia_end(raw, i)].spec_is_significant(),
        forall|j: int| i <= j < trivia_end(raw, i) ==> !(#[trigger] raw[j]).spec_is_significant(),
    decreases raw.len() - i,
{
    if i < raw.len() && !raw[i].spec_is_significant() {
        lemma_trivia_end(raw, i + 1);
    }
}

/// The walk back ends between `lo` and where it began.
pub proof fn lemma_attach_back(raw: Seq<Token>, s: Seq<u8>, lo: int, j: int, best: int)
    requires
        lo <= j <= best,
    ensures
        lo <= attach_back(raw, s, lo, j, best) <= best,
    decreases j - lo,
{
    if j <= lo {
    } else if raw[j - 1].kind == SyntaxKind::COMMENT {
        lemma_attach_back(raw, s, lo, j - 1, j - 1);
    } else if is_blank_gap(raw[j - 1], s) {
    } else {
        lemma_attach_back(raw, s, lo, j - 1, best);
    }
}

/// The walk forward ends between where it began and `hi`.
pub proof fn lemma_attach_fwd(raw: Seq<Token>, s: Seq<u8>, j: int, hi: int, best: int)
    requires
        best <= j <= hi,
    ensures
        best <= attach_fwd(raw, s, j, hi, best) <= hi,
    decreases hi - j,
{
    if j >= hi {
    } else if raw[j].kind == SyntaxKind::COMMENT {
        lemma_attach_fwd(raw, s, j + 1, hi, j + 1);
    } else if is_line_break(raw[j], s) {
    } else {
        lemma_attach_fwd(raw, s, j + 1, hi, best);
    }
}

/// The sink: all the tokens of a text, how many of them are consumed, and
/// the steps and errors written so far.
pub struct TextTreeSink<'t> {
    text: &'t str,
    tokens: &'t [Token],
    token_pos: usize,
    steps: Vec<Step>,
    errors: Vec<SyntaxError>,
}

impl<'t> TextTreeSink<'t> {
    /// All the tokens of the text.
    pub closed spec fn raw(self) -> Seq<Token> {
        self.tokens@
    }

    /// The bytes of the text.
    pub closed spec fn bytes(self) -> Seq<u8> {
        self.text.spec_bytes()
    }

    /// The number of tokens consumed, the steps and the errors.
    pub closed spec fn state(self) -> (int, Seq<Step>, Seq<SyntaxError>) {
        (self.token_pos as int, self.steps@, self.errors@)
    }

    /// The sink stands among the tokens, which lie inside the text.
    pub closed spec fn wf(self) -> bool {
        &&& self.token_pos <= self.tokens@.len()
        &&& tokens_fit(self.tokens@, self.text.spec_bytes().len() as int)
    }

    /// The sink came from `before` and now has the state `st`.
    pub open spec fn moved(self, before: Self, st: (int, Seq<Step>, Seq<SyntaxError>)) -> bool {
        &&& self.wf()
        &&& self.raw() == before.raw()
        &&& self.bytes() == before.bytes()
        &&& self.state() == st
    }

    /// A sink over the tokens of `text`, with nothing consumed.
    pub fn new(text: &'t str, tokens: &'t [Token]) -> (sink: Self)
        requires
            tokens_fit(tokens@, text.spec_bytes().len() as int),
        ensures
            sink.wf(),
            sink.raw() == tokens@,
            sink.bytes() == text.spec_bytes(),
            sink.state() == (0int, Seq::<Step>::empty(), Seq::<SyntaxError>::empty()),
    {
        TextTreeSink { text, tokens, token_pos: 0, steps: Vec::new(), errors: Vec::new() }
    }

    /// The steps and the errors written.
    pub fn finish_all(self) -> (r: (Vec<Step>, Vec<SyntaxError>))
        ensures
            r.0@ == self.state().1,
            r.1@ == self.state().2,
    {
        (self.steps, self.errors)
    }

    /// The end of the run of trivia at the sink's place.
    fn whitespace(&self) -> (end: usize)
        requires
            self.wf(),
        ensures
            end as int == trivia_end(self.raw(), self.state().0),
            self.state().0 <= end <= self.raw().len(),
    {
        let mut end = self.token_pos;
        while end < self.tokens.len() && !self.tokens[end].is_significant()
            invariant
                self.token_pos <= end <= self.tokens@.len(),
                trivia_end(self.tokens@, end as int) == trivia_end(
                    self.tokens@,
                    self.token_pos as int,
                ),
            decreases self.tokens@.len() - end,
        {
            end += 1;
        }
        end
    }

    /// The number of line feeds in the token.
    fn newlines(&self, token: Token) -> (n: usize)
        requires
            token.range.fits(self.bytes().len() as int),
        ensures
            n == newline_count(token.range.of(self.bytes())),
    {
        let bytes = self.text.as_bytes();
        let mut n: usize = 0;
        let mut i = token.range.start;
        assert(bytes@.subrange(token.range.start as int, i as int) =~= Seq::<u8>::empty());
        while i < token.range.end
            invariant
                token.range.start <= i <= token.range.end <= bytes@.len(),
                n == newline_count(bytes@.subrange(token.range.start as int, i as int)),
                n <= i - token.range.start,
            decreases token.range.end - i,
        {
            assert(bytes@.subrange(token.range.start as int, i + 1).drop_last() =~= bytes@.subrange(
                token.range.start as int,
                i as int,
            ));
            if bytes[i] == LF {
                n += 1;
            }
            i += 1;
        }
        n
    }

    /// How many of the trivia before a node of kind `kind` belong inside it;
    /// `end` is where the trivia end.
    fn leading_ws(&self, end: usize, kind: SyntaxKind) -> (n: usize)
        requires
            self.wf(),
            self.state().0 <= end <= self.raw().len(),
        ensures
            n <= end - self.state().0,
            end - n == leading_start(self.raw(), self.bytes(), self.state().0, end as int, kind),
    {
        match kind {
            SyntaxKind::DOC => end - self.token_pos,
            SyntaxKind::ENTRY | SyntaxKind::TABLE => {
                let mut best = end;
                let mut j = end;
                while j > self.token_pos
                    invariant
                        self.wf(),
                        self.token_pos <= j <= best <= end <= self.tokens@.len(),
                        attach_back(
                            self.tokens@,
                            self.text.spec_bytes(),
                            self.token_pos as int,
                            j as int,
                            best as int,
                        ) == attach_back(
                            self.tokens@,
                            self.text.spec_bytes(),
                            self.token_pos as int,
                            end as int,
                            end as int,
                        ),
                    ensures
                        self.token_pos <= best <= end,
                        best as int == attach_back(
                            self.tokens@,
                            self.text.spec_bytes(),
                            self.token_pos as int,
                            end as int,
                            end as int,
                        ),
                    decreases j,
                {
                    let token = self.tokens[j - 1];
                    if token.kind == SyntaxKind::COMMENT {
                        best = j - 1;
                    } else if token.kind == SyntaxKind::WHITESPACE && self.newlines(token) >= 2 {
                        break ;
                    }
                    j -= 1;
                }
                end - best
            },
            _ => 0,
        }
    }

    /// How many of the trivia after a node of kind `kind` belong inside it;
    /// `end` is where the trivia end.
    fn trailing_ws(&self, end: usize, kind: SyntaxKind) -> (n: usize)
        requires
            self.wf(),
            self.state().0 <= end <= self.raw().len(),
        ensures
            n <= end - self.state().0,
            self.state().0 + n == trailing_end(
                self.raw(),
                self.bytes(),
                self.state().0,
                end as int,
                kind,
            ),
    {
        match kind {
            SyntaxKind::DOC => end - self.token_pos,
            SyntaxKind::ENTRY => {
                let mut best = self.token_pos;
                let mut j = self.token_pos;
                while j < end
                    invariant
                        self.wf(),
                        self.token_pos <= best <= j <= end <= self.tokens@.len(),
                        attach_fwd(
                            self.tokens@,
                            self.text.spec_bytes(),
                            j as int,
                            end as int,
                            best as int,
                        ) == attach_fwd(
                            self.tokens@,
                            self.text.spec_bytes(),
                            self.token_pos as int,
                            end as int,
                            self.token_pos as int,
                        ),
                    ensures
                        self.token_pos <= best <= end,
                        best as int == attach_fwd(
                            self.tokens@,
                            self.text.spec_bytes(),
                            self.token_pos as int,
                            end as int,
                            self.token_pos as int,
                        ),
                    decreases end - j,
                {
                    let token = self.tokens[j];
                    if token.kind == SyntaxKind::COMMENT {
                        best = j + 1;
                    } else if token.kind == SyntaxKind::WHITESPACE && self.newlines(token) >= 1 {
                        break ;
                    }
                    j += 1;
                }
                best - self.token_pos
            },
            _ => 0,
        }
    }

    /// Consumes the next token, as a leaf of kind `kind` or, with `None`, of
    /// its own kind.
    fn bump(&mut self, kind: Option<SyntaxKind>)
        requires
            old(self).wf(),
            old(self).state().0 < old(self).raw().len(),
        ensures
            final(self).moved(
                *old(self),
                (
                    old(self).state().0 + 1,
                    old(self).state().1.push(
                        Step::Leaf(
                            match kind {
                                Some(kind) => kind,
                                None => old(self).raw()[old(self).state().0].kind,
                            },
                            old(self).raw()[old(self).state().0].range,
                        ),
                    ),
                    old(self).state().2,
                ),
            ),
    {
        let token = self.tokens[self.token_pos];
        let kind = match kind {
            Some(kind) => kind,
            None => token.kind,
        };
        self.steps.push(Step::Leaf(kind, token.range));
        self.token_pos += 1;
    }

    /// Consumes the tokens up to `target`, each as a leaf of its own kind.
    fn bump_to(&mut self, target: usize)
        requires
            old(self).wf(),
            old(self).state().0 <= target <= old(self).raw().len(),
        ensures
            final(self).moved(
                *old(self),
                (
                    target as int,
                    old(self).state().1 + leaves(old(self).raw(), old(self).state().0, target as int),
                    old(self).state().2,
                ),
            ),
    {
        let ghost before = *self;
        assert(self.steps@ =~= before.steps@ + leaves(
            before.raw(),
            before.state().0,
            self.token_pos as int,
        ));
        while self.token_pos < target
            invariant
                self.wf(),
                self.raw() == before.raw(),
                self.bytes() == before.bytes(),
                before.state().0 <= self.token_pos <= target <= before.raw().len(),
                self.state().2 == before.state().2,
                self.state().1 == before.state().1 + leaves(
                    before.raw(),
                    before.state().0,
                    self.token_pos as int,
                ),
            decreases target - self.token_pos,
        {
            let ghost here = *self;
            self.bump(None);
            assert(self.state().1 =~= before.state().1 + leaves(
                before.raw(),
                before.state().0,
                self.token_pos as int,
            ));
        }
    }

    /// A node of kind `kind` starts.
    pub fn start(&mut self, kind: SyntaxKind)
        requires
            old(self).wf(),
        ensures
            final(self).moved(
                *old(self),
                sink_event(
                    old(self).raw(),
                    old(self).bytes(),
                    old(self).state(),
                    Event::Start(kind),
                ),
            ),
    {
        let end = self.whitespace();
        let n = self.leading_ws(end, kind);
        self.bump_to(end - n);
        self.steps.push(Step::Open(kind));
    }

    /// The innermost open node, of kind `kind`, is finished.
    pub fn finish(&mut self, kind: SyntaxKind)
        requires
            old(self).wf(),
        ensures
            final(self).moved(
                *old(self),
                sink_event(
                    old(self).raw(),
                    old(self).bytes(),
                    old(self).state(),
                    Event::Finish(kind),
                ),
            ),
    {
        let end = self.whitespace();
        let n = self.trailing_ws(end, kind);
        self.bump_to(self.token_pos + n);
        self.steps.push(Step::Close);
    }

    /// The next significant token is consumed under the kind `kind`, after
    /// the trivia before it.
    pub fn token(&mut self, kind: SyntaxKind)
        requires
            old(self).wf(),
        ensures
            final(self).moved(
                *old(self),
                sink_event(
                    old(self).raw(),
                    old(self).bytes(),
                    old(self).state(),
                    Event::Token(kind),
                ),
            ),
    {
        let end = self.whitespace();
        if end < self.tokens.len() {
            self.bump_to(end);
            self.bump(Some(kind));
        }
    }

    /// An error is written down, at the next significant token.
    pub fn error(&mut self, expected: Expected)
        requires
            old(self).wf(),
        ensures
            final(self).moved(
                *old(self),
                sink_event(
                    old(self).raw(),
                    old(self).bytes(),
                    old(self).state(),
                    Event::Error(expected),
                ),
            ),
    {
        if self.tokens.len() == 0 {
            self.errors.push(SyntaxError::new(expected, TextRange::new(0, 0)));
            return ;
        }
        let mut pos = self.token_pos;
        if pos == self.tokens.len() {
            pos -= 1;
        }
        let ghost from = pos;
        let mut tok = self.tokens[pos];
        loop
            invariant
                self.wf(),
                self.tokens@.len() > 0,
                from <= pos <= self.tokens@.len(),
                from as int == if self.token_pos >= self.tokens@.len() {
                    self.tokens@.len() - 1
                } else {
                    self.token_pos as int
                },
                trivia_end(self.tokens@, pos as int) == trivia_end(self.tokens@, from as int),
                pos == self.tokens@.len() ==> tok == self.tokens@[self.tokens@.len() - 1],
            ensures
                tok.range == error_range(self.tokens@, self.token_pos as int),
            decreases self.tokens@.len() - pos,
        {
            if pos >= self.tokens.len() {
                break ;
            }
            tok = self.tokens[pos];
            if tok.is_significant() {
                break ;
            }
            pos += 1;
        }
        self.errors.push(SyntaxError::new(expected, tok.range))
    }
}

/// Replays `events` over the tokens of `text`: the steps that build the tree,
/// with every token in its place, and the errors with their ranges.
pub fn run_sink(text: &str, tokens: &[Token], events: &[Event]) -> (r: (
    Vec<Step>,
    Vec<SyntaxError>,
))
    requires
        tokens_fit(tokens@, text.spec_bytes().len() as int),
    ensures
        r.0@ == sink_fold(tokens@, text.spec_bytes(), events@, events@.len() as int).1,
        r.1@ == sink_fold(tokens@, text.spec_bytes(), events@, events@.len() as int).2,
{
    let mut sink = TextTreeSink::new(text, tokens);
    let mut i: usize = 0;
    while i < events.len()
        invariant
            0 <= i <= events@.len(),
            sink.wf(),
            sink.raw() == tokens@,
            sink.bytes() == text.spec_bytes(),
            sink.state() == sink_fold(tokens@, text.spec_bytes(), events@, i as int),
        decreases events@.len() - i,
    {
        match events[i] {
            Event::Start(kind) => sink.start(kind),
            Event::Token(kind) => sink.token(kind),
            Event::Finish(kind) => sink.finish(kind),
            Event::Error(expected) => sink.error(expected),
        }
        i += 1;
    }
    sink.finish_all()
}

/// How a step changes the number of open nodes.
pub open spec fn step_delta(step: Step) -> int {
    match step {
        Step::Open(_) => 1,
        Step::Close => -1,
        Step::Leaf(_, _) => 0,
    }
}

/// The number of nodes left open by the first `n` steps.
pub open spec fn step_depth(steps: Seq<Step>, n: int) -> int
    decreases n,
{
    if n <= 0 {
        0
    } else {
        step_depth(steps, n - 1) + step_delta(steps[n - 1])
    }
}

/// The leaves among the first `n` steps, in order, as tokens.
pub open spec fn leaf_tokens(steps: Seq<Step>, n: int) -> Seq<Token>
    decreases n,
{
    if n <= 0 {
        seq![]
    } else {
        match steps[n - 1] {
            Step::Leaf(kind, range) => leaf_tokens(steps, n - 1).push(Token { kind, range }),
            _ => leaf_tokens(steps, n - 1),
        }
    }
}

/// The number of errors among the first `n` events.
pub open spec fn error_count(events: Seq<Event>, n: int) -> int
    decreases n,
{
    if n <= 0 {
        0
    } else {
        error_count(events, n - 1) + if events[n - 1] is Error { 1int } else { 0int }
    }
}

/// The kinds under which the first `n` events consume tokens, in order.
pub open spec fn token_kinds(events: Seq<Event>, n: int) -> Seq<SyntaxKind>
    decreases n,
{
    if n <= 0 {
        seq![]
    } else {
        match events[n - 1] {
            Event::Token(kind) => token_kinds(events, n - 1).push(kind),
            _ => token_kinds(events, n - 1),
        }
    }
}

/// The leaf at `i` has the kind under which the events consumed the token
/// at `i`, which is significant: the kind of the token event that stands as
/// far among the token events as the token among the significant tokens.
pub open spec fn kind_given(raw: Seq<Token>, events: Seq<Event>, n: int, leaf: Token, i: int) -> bool {
    raw[i].spec_is_significant() ==> significant_upto(raw, i).len() < token_kinds(events, n).len()
        && leaf.kind == token_kinds(events, n)[significant_upto(raw, i).len() as int]
}

/// There is a kind for each token event.
pub proof fn lemma_token_kinds(events: Seq<Event>, n: int)
    requires
        0 <= n,
    ensures
        token_kinds(events, n).len() == token_count(events, n),
    decreases n,
{
    if n > 0 {
        lemma_token_kinds(events, n - 1);
    }
}

/// The steps build exactly one node, with all the others and all the leaves
/// inside it.
pub open spec fn steps_rooted(steps: Seq<Step>) -> bool {
    &&& steps.len() >= 2
    &&& steps[0] is Open
    &&& step_depth(steps, steps.len() as int) == 0
    &&& forall|m: int| 0 < m < steps.len() ==> #[trigger] step_depth(steps, m) >= 1
}

/// A leaf stands for a token: it covers the same bytes and, where the token
/// is trivia, has the same kind.
pub open spec fn same_place(leaf: Token, token: Token) -> bool {
    leaf.range == token.range && (!token.spec_is_significant() ==> leaf.kind == token.kind)
}

/// What comes after the first `m` steps does not change their depth nor
/// their leaves.
pub proof fn lemma_steps_prefix(a: Seq<Step>, b: Seq<Step>, m: int)
    requires
        0 <= m <= a.len(),
    ensures
        step_depth(a + b, m) == step_depth(a, m),
        leaf_tokens(a + b, m) == leaf_tokens(a, m),
    decreases m,
{
    if m > 0 {
        lemma_steps_prefix(a, b, m - 1);
        assert((a + b)[m - 1] == a[m - 1]);
    }
}

/// Depths and leaves add up over steps put one after the other.
pub proof fn lemma_steps_concat(a: Seq<Step>, b: Seq<Step>, m: int)
    requires
        0 <= m <= b.len(),
    ensures
        step_depth(a + b, a.len() + m) == step_depth(a, a.len() as int) + step_depth(b, m),
        leaf_tokens(a + b, a.len() + m) == leaf_tokens(a, a.len() as int) + leaf_tokens(b, m),
    decreases m,
{
    if m > 0 {
        lemma_steps_concat(a, b, m - 1);
        assert((a + b)[a.len() + m - 1] == b[m - 1]);
        assert(leaf_tokens(a + b, a.len() + m) =~= leaf_tokens(a, a.len() as int) + leaf_tokens(
            b,
            m,
        ));
    } else {
        lemma_steps_prefix(a, b, a.len() as int);
        assert(leaf_tokens(a, a.len() as int) + leaf_tokens(b, 0) =~= leaf_tokens(
            a,
            a.len() as int,
        ));
    }
}

/// Tokens added as leaves open and close nothing, and are those tokens.
pub proof fn lemma_leaves(raw: Seq<Token>, x: int, y: int)
    requires
        0 <= x <= y <= raw.len(),
    ensures
        leaves(raw, x, y).len() == y - x,
        forall|m: int| 0 <= m <= y - x ==> #[trigger] step_depth(leaves(raw, x, y), m) == 0,
        leaf_tokens(leaves(raw, x, y), y - x) == raw.subrange(x, y),
    decreases y - x,
{
    if y > x {
        lemma_leaves(raw, x, y - 1);
        let prev = leaves(raw, x, y - 1);
        let last = seq![Step::Leaf(raw[y - 1].kind, raw[y - 1].range)];
        let all = leaves(raw, x, y);
        assert(all =~= prev + last);
        assert(step_depth(last, 0) == 0);
        assert(leaf_tokens(last, 0) =~= Seq::<Token>::empty());
        assert(leaf_tokens(last, 1) =~= seq![raw[y - 1]]);
        assert forall|m: int| 0 <= m <= y - x implies #[trigger] step_depth(all, m) == 0 by {
            if m <= y - 1 - x {
                lemma_steps_prefix(prev, last, m);
            } else {
                lemma_steps_concat(prev, last, 1);
            }
        }
        lemma_steps_concat(prev, last, 1);
        assert(raw.subrange(x, y) =~= raw.subrange(x, y - 1) + seq![raw[y - 1]]);
    } else {
        assert(raw.subrange(x, y) =~= Seq::<Token>::empty());
    }
}

/// Over a run of trivia the number of significant tokens stays the same.
pub proof fn lemma_significant_trivia(raw: Seq<Token>, pos: int, a: int)
    requires
        0 <= pos <= a <= trivia_end(raw, pos),
        pos <= raw.len(),
    ensures
        significant_upto(raw, a).len() == significant_upto(raw, pos).len(),
    decreases a - pos,
{
    lemma_trivia_end(raw, pos);
    if a > pos {
        lemma_significant_trivia(raw, pos, a - 1);
        assert(!raw[a - 1].spec_is_significant());
    }
}

/// The number of tokens consumed does not go down.
pub proof fn lemma_token_count_grows(events: Seq<Event>, n: int, m: int)
    requires
        0 <= n <= m,
    ensures
        token_count(events, n) <= token_count(events, m),
    decreases m - n,
{
    if n < m {
        lemma_token_count_grows(events, n, m - 1);
    }
}

/// What holds of the sink's state `st` after `n` events of a document.
pub open spec fn sink_inv(
    raw: Seq<Token>,
    events: Seq<Event>,
    n: int,
    st: (int, Seq<Step>, Seq<SyntaxError>),
) -> bool {
    &&& 0 <= st.0 <= raw.len()
    &&& significant_upto(raw, st.0).len() == token_count(events, n)
    &&& step_depth(st.1, st.1.len() as int) == depth(events, n)
    &&& forall|m: int| 0 < m < st.1.len() ==> #[trigger] step_depth(st.1, m) >= 1
    &&& (n == 0 ==> st.1.len() == 0)
    &&& (n > 0 ==> st.1.len() > 0 && st.1[0] == Step::Open(SyntaxKind::DOC))
    &&& leaf_tokens(st.1, st.1.len() as int).len() == st.0
    &&& forall|i: int|
        0 <= i < st.0 ==> same_place(#[trigger] leaf_tokens(st.1, st.1.len() as int)[i], raw[i])
    &&& forall|i: int|
        0 <= i < st.0 ==> kind_given(
            raw,
            events,
            n,
            #[trigger] leaf_tokens(st.1, st.1.len() as int)[i],
            i,
        )
    &&& st.2.len() == error_count(events, n)
}

/// The events are those of one document over the tokens `raw`: one node,
/// opened as `DOC`, with a token event for each significant token.
pub open spec fn events_fit(raw: Seq<Token>, events: Seq<Event>) -> bool {
    &&& rooted(events)
    &&& events[0] == Event::Start(SyntaxKind::DOC)
    &&& events[events.len() - 1] == Event::Finish(SyntaxKind::DOC)
    &&& token_count(events, events.len() as int) == significant_upto(raw, raw.len() as int).len()
}

proof fn lemma_sink_added(
    raw: Seq<Token>,
    events: Seq<Event>,
    n: int,
    st: (int, Seq<Step>, Seq<SyntaxError>),
    a: int,
    last: Step,
)
    requires
        sink_inv(raw, events, n, st),
        rooted(events),
        0 <= n < events.len(),
        st.0 <= a <= raw.len(),
        n == 0 ==> a == st.0 && last == Step::Open(SyntaxKind::DOC),
        depth(events, n) + step_delta(last) >= 1 || n + 1 == events.len(),
    ensures
        ({
            let steps = (st.1 + leaves(raw, st.0, a)).push(last);
            let old_leaves = leaf_tokens(st.1, st.1.len() as int);
            &&& step_depth(steps, steps.len() as int) == depth(events, n) + step_delta(last)
            &&& forall|m: int| 0 < m < steps.len() ==> #[trigger] step_depth(steps, m) >= 1
            &&& steps.len() > 0 && steps[0] == Step::Open(SyntaxKind::DOC)
            &&& leaf_tokens(steps, steps.len() as int) == old_leaves + raw.subrange(st.0, a) + (
            match last {
                Step::Leaf(kind, range) => seq![Token { kind, range }],
                _ => seq![],
            })
        }),
{
    let mid = leaves(raw, st.0, a);
    let tail = seq![last];
    let body = st.1 + mid;
    let steps = body.push(last);
    lemma_leaves(raw, st.0, a);
    assert(steps =~= body + tail);
    assert(step_depth(tail, 0) == 0);
    assert(step_depth(tail, 1) == step_delta(last));
    assert(leaf_tokens(tail, 0) =~= Seq::<Token>::empty());
    lemma_steps_concat(st.1, mid, mid.len() as int);
    lemma_steps_concat(body, tail, 1);
    assert forall|m: int| 0 < m < steps.len() implies #[trigger] step_depth(steps, m) >= 1 by {
        lemma_steps_prefix(body, tail, m);
        if m < st.1.len() {
            lemma_steps_prefix(st.1, mid, m);
        } else {
            lemma_steps_concat(st.1, mid, m - st.1.len());
        }
    }
    if st.1.len() > 0 {
        assert(steps[0] == st.1[0]);
    } else {
        assert(mid.len() == 0);
    }
    assert(leaf_tokens(tail, 1) =~= match last {
        Step::Leaf(kind, range) => seq![Token { kind, range }],
        _ => seq![],
    });
}

/// One event keeps the sink in order.
proof fn lemma_sink_step(raw: Seq<Token>, s: Seq<u8>, events: Seq<Event>, n: int)
    requires
        events_fit(raw, events),
        0 <= n < events.len(),
        sink_inv(raw, events, n, sink_fold(raw, s, events, n)),
    ensures
        sink_inv(raw, events, n + 1, sink_fold(raw, s, events, n + 1)),
        n + 1 == events.len() ==> sink_fold(raw, s, events, n + 1).0 == raw.len(),
{
    let st = sink_fold(raw, s, events, n);
    let next = sink_fold(raw, s, events, n + 1);
    let e = events[n];
    let hi = trivia_end(raw, st.0);
    let old_leaves = leaf_tokens(st.1, st.1.len() as int);
    lemma_trivia_end(raw, st.0);
    lemma_token_count_grows(events, n + 1, events.len() as int);
    lemma_token_kinds(events, n);
    lemma_token_kinds(events, n + 1);
    assert(depth(events, n + 1) >= 1 || n + 1 == events.len());
    if n > 0 {
        assert(depth(events, n) >= 1);
    }
    match e {
        Event::Start(kind) => {
            let a = leading_start(raw, s, st.0, hi, kind);
            lemma_attach_back(raw, s, st.0, hi, hi);
            lemma_significant_trivia(raw, st.0, a);
            lemma_sink_added(raw, events, n, st, a, Step::Open(kind));
            let new_leaves = leaf_tokens(next.1, next.1.len() as int);
            assert(new_leaves =~= old_leaves + raw.subrange(st.0, a));
            assert forall|i: int| 0 <= i < a implies same_place(#[trigger] new_leaves[i], raw[i])
                && kind_given(raw, events, n + 1, new_leaves[i], i) by {
                if i < st.0 {
                    assert(new_leaves[i] == old_leaves[i]);
                    assert(kind_given(raw, events, n, old_leaves[i], i));
                }
            }
        },
        Event::Token(kind) => {
            if hi >= raw.len() {
                lemma_significant_trivia(raw, st.0, raw.len() as int);
                assert(false);
            }
            lemma_significant_trivia(raw, st.0, hi);
            let leaf = Token { kind, range: raw[hi].range };
            lemma_sink_added(raw, events, n, st, hi, Step::Leaf(kind, raw[hi].range));
            let new_leaves = leaf_tokens(next.1, next.1.len() as int);
            assert(new_leaves =~= old_leaves + raw.subrange(st.0, hi) + seq![leaf]);
            assert forall|i: int| 0 <= i < hi + 1 implies same_place(
                #[trigger] new_leaves[i],
                raw[i],
            ) && kind_given(raw, events, n + 1, new_leaves[i], i) by {
                if i < st.0 {
                    assert(new_leaves[i] == old_leaves[i]);
                    assert(kind_given(raw, events, n, old_leaves[i], i));
                    if raw[i].spec_is_significant() {
                        lemma_significant_grows(raw, i + 1, st.0);
                    }
                } else if i == hi {
                    assert(new_leaves[i] == leaf);
                }
            }
        },
        Event::Finish(kind) => {
            let b = trailing_end(raw, s, st.0, hi, kind);
            lemma_attach_fwd(raw, s, st.0, hi, st.0);
            lemma_significant_trivia(raw, st.0, b);
            lemma_sink_added(raw, events, n, st, b, Step::Close);
            let new_leaves = leaf_tokens(next.1, next.1.len() as int);
            assert(new_leaves =~= old_leaves + raw.subrange(st.0, b));
            assert forall|i: int| 0 <= i < b implies same_place(#[trigger] new_leaves[i], raw[i])
                && kind_given(raw, events, n + 1, new_leaves[i], i) by {
                if i < st.0 {
                    assert(new_leaves[i] == old_leaves[i]);
                    assert(kind_given(raw, events, n, old_leaves[i], i));
                }
            }
            if n + 1 == events.len() {
                if hi < raw.len() {
                    lemma_significant_trivia(raw, st.0, hi);
                    crate::token_source::lemma_significant_upto(raw, raw.len() as int);
                    lemma_significant_grows(raw, hi + 1, raw.len() as int);
                    assert(false);
                }
            }
        },
        Event::Error(expected) => {
            assert(n > 0);
            assert forall|i: int| 0 <= i < st.0 implies kind_given(
                raw,
                events,
                n + 1,
                #[trigger] old_leaves[i],
                i,
            ) by {
                assert(kind_given(raw, events, n, old_leaves[i], i));
            }
        },
    }
}

/// The number of significant tokens does not go down.
pub proof fn lemma_significant_grows(raw: Seq<Token>, a: int, b: int)
    requires
        0 <= a <= b <= raw.len(),
    ensures
        significant_upto(raw, a).len() <= significant_upto(raw, b).len(),
    decreases b - a,
{
    if a < b {
        lemma_significant_grows(raw, a, b - 1);
    }
}

proof fn lemma_sink_inv(raw: Seq<Token>, s: Seq<u8>, events: Seq<Event>, n: int)
    requires
        events_fit(raw, events),
        0 <= n <= events.len(),
    ensures
        sink_inv(raw, events, n, sink_fold(raw, s, events, n)),
        n == events.len() ==> sink_fold(raw, s, events, n).0 == raw.len(),
    decreases n,
{
    if n > 0 {
        lemma_sink_inv(raw, s, events, n - 1);
        lemma_sink_step(raw, s, events, n - 1);
    } else {
        assert(leaf_tokens(Seq::<Step>::empty(), 0) =~= Seq::<Token>::empty());
    }
}

/// The sink consumes every token exactly once and in order, whatever the
/// events of the document are: its steps build one node that holds a leaf for
/// each token, over the same bytes, with the kind of the token where it is
/// trivia and else the kind that its token event gives it; and there is one
/// error for each error event.
pub proof fn lemma_sink(raw: Seq<Token>, s: Seq<u8>, events: Seq<Event>)
    requires
        events_fit(raw, events),
    ensures
        ({
            let st = sink_fold(raw, s, events, events.len() as int);
            let leaf = leaf_tokens(st.1, st.1.len() as int);
            &&& st.0 == raw.len()
            &&& steps_rooted(st.1)
            &&& st.1[0] == Step::Open(SyntaxKind::DOC)
            &&& leaf.len() == raw.len()
            &&& forall|i: int| 0 <= i < raw.len() ==> same_place(#[trigger] leaf[i], raw[i])
            &&& forall|i: int|
                0 <= i < raw.len() ==> kind_given(
                    raw,
                    events,
                    events.len() as int,
                    #[trigger] leaf[i],
                    i,
                )
            &&& st.2.len() == error_count(events, events.len() as int)
        }),
{
    lemma_sink_inv(raw, s, events, events.len() as int);
    let st = sink_fold(raw, s, events, events.len() as int);
    assert(st.1.len() >= 2) by {
        // the first event opens the document and the last one closes it
        lemma_sink_inv(raw, s, events, 1);
        lemma_sink_len(raw, s, events, 1, events.len() as int);
        lemma_sink_len(raw, s, events, events.len() - 1, events.len() as int);
    }
}

/// The sink only ever adds steps.
proof fn lemma_sink_len(raw: Seq<Token>, s: Seq<u8>, events: Seq<Event>, n: int, m: int)
    requires
        0 <= n <= m <= events.len(),
    ensures
        sink_fold(raw, s, events, n).1.len() <= sink_fold(raw, s, events, m).1.len(),
        n < m && m == events.len() && events[m - 1] is Finish ==> sink_fold(raw, s, events, n).1.len()
            < sink_fold(raw, s, events, m).1.len(),
    decreases m - n,
{
    if n < m {
        lemma_sink_len(raw, s, events, n, m - 1);
    }
}

/// Whatever the events are, the sink stays among the tokens.
pub proof fn lemma_sink_pos(raw: Seq<Token>, s: Seq<u8>, events: Seq<Event>, n: int)
    requires
        0 <= n <= events.len(),
    ensures
        0 <= sink_fold(raw, s, events, n).0 <= raw.len(),
    decreases n,
{
    if n > 0 {
        lemma_sink_pos(raw, s, events, n - 1);
        let st = sink_fold(raw, s, events, n - 1);
        let hi = trivia_end(raw, st.0);
        lemma_trivia_end(raw, st.0);
        lemma_attach_back(raw, s, st.0, hi, hi);
        lemma_attach_fwd(raw, s, st.0, hi, st.0);
    }
}

/// An error is reported at one of the tokens, or, where there is none, at
/// the start of the text.
pub proof fn lemma_error_range(raw: Seq<Token>, pos: int)
    requires
        0 <= pos <= raw.len(),
    ensures
        raw.len() == 0 ==> error_range(raw, pos) == (TextRange { start: 0, end: 0 }),
        raw.len() > 0 ==> exists|x: int| 0 <= x < raw.len() && error_range(raw, pos) == raw[x].range,
{
    if raw.len() > 0 {
        let from = if pos >= raw.len() { raw.len() - 1 } else { pos };
        lemma_trivia_end(raw, from);
        let at = trivia_end(raw, from);
        if at < raw.len() {
            assert(error_range(raw, pos) == raw[at].range);
        } else {
            assert(error_range(raw, pos) == raw[raw.len() - 1].range);
        }
    }
}

} // verus!
