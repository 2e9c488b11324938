//! The view of the tokens that the grammar works on: the significant tokens
//! only, with a cursor and lookahead.

use vstd::prelude::*;
use vstd::string::StringSliceAdditionalSpecFns;
use crate::lexer::Token;
use crate::syntax_kind::SyntaxKind;

verus! {

/// The positions, among the first `n` of `raw`, of the significant tokens, in
/// order.
pub open spec fn significant_upto(raw: Seq<Token>, n: int) -> Seq<int>
    decreases n,
{
    if n <= 0 {
        seq![]
    } else if raw[n - 1].spec_is_significant() {
        significant_upto(raw, n - 1).push(n - 1)
    } else {
        significant_upto(raw, n - 1)
    }
}

/// The positions in `raw` of all its significant tokens, in order.
pub open spec fn significant_positions(raw: Seq<Token>) -> Seq<int> {
    significant_upto(raw, raw.len() as int)
}

/// The kinds of the significant tokens of `raw`, in order.
pub open spec fn significant_kinds(raw: Seq<Token>) -> Seq<SyntaxKind> {
    significant_positions(raw).map(|i: int, p: int| raw[p].kind)
}

/// The kind at `p`, or `EOF` past the end.
pub open spec fn kind_at(kinds: Seq<SyntaxKind>, p: int) -> SyntaxKind {
    if 0 <= p < kinds.len() {
        kinds[p]
    } else {
        SyntaxKind::EOF
    }
}

/// The positions of the significant tokens are strictly increasing positions
/// of significant tokens, and none is missing.
pub proof fn lemma_significant_upto(raw: Seq<Token>, n: int)
    requires
        0 <= n <= raw.len(),
    ensures
        significant_upto(raw, n).len() <= n,
        forall|i: int|
            0 <= i < significant_upto(raw, n).len() ==> {
                let p = #[trigger] significant_upto(raw, n)[i];
                0 <= p < n && raw[p].spec_is_significant()
            },
        forall|i: int, j: int|
            0 <= i < j < significant_upto(raw, n).len() ==> significant_upto(raw, n)[i]
                < significant_upto(raw, n)[j],
        forall|p: int|
            0 <= p < n && (#[trigger] raw[p]).spec_is_significant() ==> significant_upto(
                raw,
                n,
            ).contains(p),
    decreases n,
{
    if n > 0 {
        lemma_significant_upto(raw, n - 1);
        let prev = significant_upto(raw, n - 1);
        let cur = significant_upto(raw, n);
        assert forall|p: int| 0 <= p < n && (#[trigger] raw[p]).spec_is_significant() implies cur.contains(
            p,
        ) by {
            if p < n - 1 {
                let i = choose|i: int| 0 <= i < prev.len() && prev[i] == p;
                assert(cur[i] == p);
            } else {
                assert(cur[cur.len() - 1] == p);
            }
        }
    }
}

/// A read-only cursor over the significant tokens of a text.
pub struct TextTokenSource<'t> {
    text: &'t str,
    /// The tokens that are no trivia, each with its position among all tokens.
    significant_tokens: Vec<(Token, usize)>,
    /// The current position.
    curr: usize,
}

impl<'t> TextTokenSource<'t> {
    /// The kinds of the significant tokens, in order.
    pub closed spec fn kinds(&self) -> Seq<SyntaxKind> {
        self.significant_tokens@.map(|i: int, t: (Token, usize)| t.0.kind)
    }

    /// For each significant token, its position among all tokens.
    pub closed spec fn positions(&self) -> Seq<int> {
        self.significant_tokens@.map(|i: int, t: (Token, usize)| t.1 as int)
    }

    /// The significant tokens themselves.
    pub closed spec fn tokens(&self) -> Seq<Token> {
        self.significant_tokens@.map(|i: int, t: (Token, usize)| t.0)
    }

    /// The cursor: how many significant tokens lie behind it.
    pub closed spec fn pos(&self) -> int {
        self.curr as int
    }

    /// The bytes of the text that the tokens were cut from.
    pub closed spec fn bytes(&self) -> Seq<u8> {
        self.text.spec_bytes()
    }

    /// The cursor is within bounds and every token lies inside the text.
    #[verifier::type_invariant]
    pub closed spec fn wf(&self) -> bool {
        &&& self.curr <= self.significant_tokens@.len()
        &&& forall|i: int|
            0 <= i < self.significant_tokens@.len() ==> (
            #[trigger] self.significant_tokens@[i]).0.range.fits(
                self.text.spec_bytes().len() as int,
            )
    }

    /// Kinds, positions and tokens are of one length, and agree.
    pub proof fn lemma_lengths(&self)
        ensures
            self.kinds().len() == self.positions().len(),
            self.kinds().len() == self.tokens().len(),
            forall|i: int|
                0 <= i < self.tokens().len() ==> (#[trigger] self.tokens()[i]).kind
                    == self.kinds()[i],
            self.wf() ==> 0 <= self.pos() <= self.kinds().len(),
    {
    }

    /// The kind of the significant token at `idx`, or `EOF` past the end.
    pub fn at(&self, idx: usize) -> (kind: SyntaxKind)
        ensures
            kind == kind_at(self.kinds(), idx as int),
    {
        if idx < self.significant_tokens.len() {
            self.significant_tokens[idx].0.kind
        } else {
            SyntaxKind::EOF
        }
    }

    /// The kind of the token at the cursor, or `EOF` at the end.
    pub fn current(&self) -> (kind: SyntaxKind)
        ensures
            kind == kind_at(self.kinds(), self.pos()),
    {
        self.at(self.curr)
    }

    /// The kind of the token `n` places after the cursor, or `EOF` past the end.
    pub fn lookahead_nth(&self, n: usize) -> (kind: SyntaxKind)
        ensures
            kind == kind_at(self.kinds(), self.pos() + n),
    {
        if n < self.significant_tokens.len() && self.curr < self.significant_tokens.len() - n {
            self.significant_tokens[self.curr + n].0.kind
        } else {
            SyntaxKind::EOF
        }
    }

    /// Whether the cursor has passed the last significant token.
    pub fn at_end(&self) -> (r: bool)
        ensures
            r == (self.pos() >= self.kinds().len()),
    {
        proof {
            use_type_invariant(&*self);
        }
        self.curr >= self.significant_tokens.len()
    }

    /// Moves the cursor over one token; at the end it stays.
    pub fn bump(&mut self)
        ensures
            final(self).wf(),
            final(self).kinds() == old(self).kinds(),
            final(self).positions() == old(self).positions(),
            final(self).tokens() == old(self).tokens(),
            final(self).bytes() == old(self).bytes(),
            final(self).pos() == if old(self).pos() < old(self).kinds().len() {
                old(self).pos() + 1
            } else {
                old(self).pos()
            },
    {
        proof {
            use_type_invariant(&*self);
        }
        if self.curr < self.significant_tokens.len() {
            self.curr = self.curr + 1;
        }
    }

    /// Whether the token at the cursor spells exactly `kw`.
    #[verifier::loop_isolation(false)]
    pub fn is_keyword(&self, kw: &str) -> (r: bool)
        ensures
            r == (self.pos() < self.tokens().len() && self.tokens()[self.pos()].range.of(
                self.bytes(),
            ) == kw.spec_bytes()),
    {
        proof {
            use_type_invariant(&*self);
        }
        if self.curr >= self.significant_tokens.len() {
            return false;
        }
        let range = self.significant_tokens[self.curr].0.range;
        let bytes = self.text.as_bytes();
        let word = kw.as_bytes();
        assert(range.fits(bytes@.len() as int));
        if range.end - range.start != word.len() {
            assert(range.of(bytes@).len() != word@.len());
            return false;
        }
        let mut i: usize = 0;
        while i < word.len()
            invariant
                range.fits(bytes@.len() as int),
                range.end - range.start == word@.len(),
                0 <= i <= word@.len(),
                forall|j: int| 0 <= j < i ==> bytes@[range.start + j] == word@[j],
            decreases word@.len() - i,
        {
            if bytes[range.start + i] != word[i] {
                assert(range.of(bytes@)[i as int] != word@[i as int]);
                return false;
            }
            i += 1;
        }
        assert(range.of(bytes@) =~= word@);
        true
    }

    /// The view of `raw_tokens` that hides whitespace and comments, with the
    /// cursor on the first significant token.
    pub fn new(text: &'t str, raw_tokens: &[Token]) -> (source: TextTokenSource<'t>)
        requires
            forall|i: int|
                0 <= i < raw_tokens@.len() ==> (#[trigger] raw_tokens@[i]).range.fits(
                    text.spec_bytes().len() as int,
                ),
        ensures
            source.wf(),
            source.pos() == 0,
            source.bytes() == text.spec_bytes(),
            source.positions() == significant_positions(raw_tokens@),
            source.kinds() == significant_kinds(raw_tokens@),
            source.tokens() == significant_positions(raw_tokens@).map(
                |i: int, p: int| raw_tokens@[p],
            ),
    {
        let mut significant: Vec<(Token, usize)> = Vec::new();
        let mut i: usize = 0;
        while i < raw_tokens.len()
            invariant
                0 <= i <= raw_tokens@.len(),
                significant@.len() == significant_upto(raw_tokens@, i as int).len(),
                forall|j: int|
                    0 <= j < significant@.len() ==> {
                        let t = #[trigger] significant@[j];
                        &&& t.1 as int == significant_upto(raw_tokens@, i as int)[j]
                        &&& 0 <= t.1 < i
                        &&& t.0 == raw_tokens@[t.1 as int]
                    },
            decreases raw_tokens@.len() - i,
        {
            let token = raw_tokens[i];
            if token.is_significant() {
                significant.push((token, i));
            }
            i += 1;
        }
        let source = TextTokenSource { text, significant_tokens: significant, curr: 0 };
        proof {
            let positions = significant_positions(raw_tokens@);
            assert(source.positions() =~= positions);
            assert(source.kinds() =~= significant_kinds(raw_tokens@));
            assert(source.tokens() =~= positions.map(|i: int, p: int| raw_tokens@[p]));
        }
        source
    }
}

} // verus!
