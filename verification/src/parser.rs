//! The recursive-descent parser: walks the significant tokens and records
//! the events of the grammar.

use vstd::prelude::*;
use crate::event::{Event, Expected};
use crate::grammar::{
    at_array_table, is_key_start, is_line_string, is_literal, is_word_kind, keys_stop,
    lemma_keys_end, lemma_ok_eat, lemma_ok_entries, lemma_ok_entry, lemma_ok_key, lemma_ok_table,
    lemma_ok_val, nothing, s_array, s_array_items, s_bump, s_bump_error, s_dict, s_dict_items,
    s_doc, s_eat, s_entries, s_entry, s_key, s_keys, s_keys_rest, s_table, s_table_header,
    s_tables, s_val, then,
};
use crate::syntax_kind::SyntaxKind;
use crate::token_source::{kind_at, TextTokenSource};

verus! {

/// The mark of a node that was started and is still to be finished.
struct Mark {
    kind: SyntaxKind,
}

impl Mark {
    fn new(kind: SyntaxKind) -> (mark: Mark)
        ensures
            mark.kind == kind,
    {
        Mark { kind }
    }
}

fn word_kind(kind: SyntaxKind) -> (r: bool)
    ensures
        r == is_word_kind(kind),
{
    match kind {
        SyntaxKind::BARE_KEY_LIKE
        | SyntaxKind::INT
        | SyntaxKind::FLOAT
        | SyntaxKind::DATE_TIME
        | SyntaxKind::TRUE
        | SyntaxKind::FALSE => true,
        _ => false,
    }
}

fn line_string(kind: SyntaxKind) -> (r: bool)
    ensures
        r == is_line_string(kind),
{
    match kind {
        SyntaxKind::BASIC_LINE_STRING | SyntaxKind::LITERAL_LINE_STRING => true,
        _ => false,
    }
}

fn literal(kind: SyntaxKind) -> (r: bool)
    ensures
        r == is_literal(kind),
{
    match kind {
        SyntaxKind::INT
        | SyntaxKind::FLOAT
        | SyntaxKind::DATE_TIME
        | SyntaxKind::TRUE
        | SyntaxKind::FALSE
        | SyntaxKind::BASIC_LINE_STRING
        | SyntaxKind::BASIC_MULTILINE_STRING
        | SyntaxKind::LITERAL_LINE_STRING
        | SyntaxKind::LITERAL_MULTILINE_STRING => true,
        _ => false,
    }
}

/// The parser: a cursor over the significant tokens and the events so far.
pub struct Parser<'t> {
    source: TextTokenSource<'t>,
    events: Vec<Event>,
}

impl<'t> Parser<'t> {
    /// The kinds of the significant tokens.
    pub closed spec fn kinds(self) -> Seq<SyntaxKind> {
        self.source.kinds()
    }

    /// How many significant tokens are consumed.
    pub closed spec fn pos(self) -> int {
        self.source.pos()
    }

    /// The events recorded so far.
    pub closed spec fn events(self) -> Seq<Event> {
        self.events@
    }

    /// The cursor is among the tokens.
    pub closed spec fn wf(self) -> bool {
        self.source.wf()
    }

    /// The parser came from `before` by the rule whose result is `r`: the
    /// rule's events were added and the cursor stands where the rule ends.
    pub open spec fn did(self, before: Self, r: (Seq<Event>, int)) -> bool {
        &&& self.wf()
        &&& self.kinds() == before.kinds()
        &&& self.events() == before.events() + r.0
        &&& self.pos() == r.1
    }

    /// A parser at the first token of `source`, with no event yet.
    pub fn new(source: TextTokenSource<'t>) -> (parser: Parser<'t>)
        requires
            source.pos() == 0,
        ensures
            parser.wf(),
            parser.kinds() == source.kinds(),
            parser.pos() == 0,
            parser.events() == Seq::<Event>::empty(),
    {
        proof {
            use_type_invariant(&source);
        }
        Parser { source, events: Vec::new() }
    }

    /// The events recorded.
    pub fn into_events(self) -> (events: Vec<Event>)
        ensures
            events@ == self.events(),
    {
        self.events
    }

    proof fn lemma_pos(self)
        requires
            self.wf(),
        ensures
            0 <= self.pos() <= self.kinds().len(),
    {
        self.source.lemma_lengths();
    }

    fn start(&mut self, kind: SyntaxKind) -> (mark: Mark)
        ensures
            final(self).did(*old(self), (seq![Event::Start(kind)], old(self).pos())),
            mark.kind == kind,
    {
        proof {
            use_type_invariant(&self.source);
        }
        self.events.push(Event::Start(kind));
        assert(self.events@ =~= old(self).events@ + seq![Event::Start(kind)]);
        Mark::new(kind)
    }

    fn finish(&mut self, mark: Mark)
        ensures
            final(self).did(*old(self), (seq![Event::Finish(mark.kind)], old(self).pos())),
    {
        proof {
            use_type_invariant(&self.source);
        }
        self.events.push(Event::Finish(mark.kind));
        assert(self.events@ =~= old(self).events@ + seq![Event::Finish(mark.kind)]);
    }

    fn error(&mut self, expected: Expected)
        ensures
            final(self).did(*old(self), (seq![Event::Error(expected)], old(self).pos())),
    {
        proof {
            use_type_invariant(&self.source);
        }
        self.events.push(Event::Error(expected));
        assert(self.events@ =~= old(self).events@ + seq![Event::Error(expected)]);
    }

    fn at(&self, lookahead: usize) -> (kind: SyntaxKind)
        ensures
            kind == kind_at(self.kinds(), self.pos() + lookahead),
    {
        self.source.lookahead_nth(lookahead)
    }

    fn current(&self) -> (kind: SyntaxKind)
        ensures
            kind == kind_at(self.kinds(), self.pos()),
    {
        self.source.current()
    }

    fn at_end(&self) -> (r: bool)
        ensures
            r == (self.pos() >= self.kinds().len()),
            0 <= self.pos() <= self.kinds().len(),
    {
        proof {
            use_type_invariant(&self.source);
        }
        proof {
            self.lemma_pos();
        }
        self.source.at_end()
    }

    fn bump(&mut self)
        requires
            old(self).pos() < old(self).kinds().len(),
        ensures
            final(self).did(
                *old(self),
                s_bump(old(self).pos(), old(self).kinds()[old(self).pos()]),
            ),
    {
        proof {
            use_type_invariant(&self.source);
        }
        proof {
            self.lemma_pos();
        }
        let kind = self.source.current();
        self.events.push(Event::Token(kind));
        self.source.bump();
        assert(self.events@ =~= old(self).events@ + seq![Event::Token(kind)]);
    }

    fn bump_remap(&mut self, kind: SyntaxKind)
        requires
            old(self).pos() < old(self).kinds().len(),
        ensures
            final(self).did(*old(self), s_bump(old(self).pos(), kind)),
    {
        proof {
            use_type_invariant(&self.source);
        }
        self.events.push(Event::Token(kind));
        self.source.bump();
        assert(self.events@ =~= old(self).events@ + seq![Event::Token(kind)]);
    }

    fn bump_error(&mut self, expected: Expected)
        ensures
            final(self).did(*old(self), s_bump_error(old(self).kinds(), old(self).pos(), expected)),
    {
        proof {
            use_type_invariant(&self.source);
        }
        if self.at_end() {
            self.error(expected);
        } else {
            let ghost before = *self;
            let m = self.start(SyntaxKind::ERROR);
            self.error(expected);
            self.bump();
            self.finish(m);
            assert(self.events() =~= before.events() + s_bump_error(
                before.kinds(),
                before.pos(),
                expected,
            ).0);
        }
    }

    fn eat(&mut self, kind: SyntaxKind)
        ensures
            final(self).did(*old(self), s_eat(old(self).kinds(), old(self).pos(), kind)),
    {
        proof {
            use_type_invariant(&self.source);
        }
        if !self.at_end() && self.current() == kind {
            self.bump()
        } else {
            self.bump_error(Expected::Kind(kind))
        }
    }

    fn key(&mut self)
        ensures
            final(self).did(*old(self), s_key(old(self).kinds(), old(self).pos())),
    {
        proof {
            use_type_invariant(&self.source);
        }
        let ghost before = *self;
        let m = self.start(SyntaxKind::KEY);
        let kind = self.current();
        if !self.at_end() && word_kind(kind) {
            self.bump_remap(SyntaxKind::BARE_KEY);
        } else if !self.at_end() && line_string(kind) {
            self.bump();
        } else {
            self.bump_error(Expected::Key);
        }
        self.finish(m);
        assert(self.events() =~= before.events() + s_key(before.kinds(), before.pos()).0);
    }

    fn at_keys_stop(&self) -> (r: bool)
        ensures
            r == keys_stop(self.kinds(), self.pos()),
            0 <= self.pos() <= self.kinds().len(),
    {
        proof {
            use_type_invariant(&self.source);
        }
        if self.at_end() {
            true
        } else {
            let kind = self.current();
            kind == SyntaxKind::R_BRACK || kind == SyntaxKind::EQ
        }
    }

    fn keys(&mut self)
        ensures
            final(self).did(*old(self), s_keys(old(self).kinds(), old(self).pos())),
    {
        proof {
            use_type_invariant(&self.source);
        }
        let ghost before = *self;
        let ghost k = self.kinds();
        if self.at_keys_stop() {
            assert(self.events() =~= before.events() + nothing(before.pos()).0);
            return ;
        }
        self.key();
        let ghost first = s_key(k, before.pos());
        proof {
            lemma_ok_key(k, before.pos());
        }
        while !self.at_keys_stop()
            invariant
                self.wf(),
                self.kinds() == k,
                0 <= self.pos() <= k.len(),
                self.events() + s_keys_rest(k, self.pos()).0 == before.events() + first.0
                    + s_keys_rest(k, first.1).0,
                s_keys_rest(k, self.pos()).1 == s_keys_rest(k, first.1).1,
            decreases k.len() - self.pos(),
        {
            let ghost here = *self;
            proof {
                lemma_ok_eat(k, here.pos(), SyntaxKind::DOT);
                lemma_ok_key(k, s_eat(k, here.pos(), SyntaxKind::DOT).1);
            }
            self.eat(SyntaxKind::DOT);
            self.key();
            proof {
                let dot = s_eat(k, here.pos(), SyntaxKind::DOT);
                let key = s_key(k, dot.1);
                let rest = s_keys_rest(k, key.1);
                assert(s_keys_rest(k, here.pos()) == then(then(dot, key), rest));
                assert(self.events() + rest.0 =~= here.events() + (dot.0 + key.0 + rest.0));
            }
        }
        proof {
            assert(s_keys_rest(k, self.pos()) == nothing(self.pos()));
            assert(self.events() =~= self.events() + s_keys_rest(k, self.pos()).0);
            assert(before.events() + first.0 + s_keys_rest(k, first.1).0 =~= before.events() + s_keys(
                k,
                before.pos(),
            ).0);
        }
    }

    fn val(&mut self)
        ensures
            final(self).did(*old(self), s_val(old(self).kinds(), old(self).pos())),
        decreases old(self).kinds().len() - old(self).pos(), 1int,
    {
        proof {
            use_type_invariant(&self.source);
        }
        let ghost before = *self;
        let ghost k = self.kinds();
        let end = self.at_end();
        let kind = self.current();
        if !end && literal(kind) {
            let m = self.start(SyntaxKind::ATOM_LITERAL);
            self.bump();
            self.finish(m);
            assert(self.events() =~= before.events() + s_val(k, before.pos()).0);
        } else if !end && kind == SyntaxKind::L_BRACK {
            self.array();
        } else if !end && kind == SyntaxKind::L_CURLY {
            self.dict();
        } else {
            let m = self.start(SyntaxKind::VALUE);
            self.bump_error(Expected::Value);
            self.finish(m);
            assert(self.events() =~= before.events() + s_val(k, before.pos()).0);
        }
    }

    fn array(&mut self)
        requires
            old(self).pos() < old(self).kinds().len(),
        ensures
            final(self).did(*old(self), s_array(old(self).kinds(), old(self).pos())),
        decreases old(self).kinds().len() - old(self).pos(), 0int,
    {
        proof {
            use_type_invariant(&self.source);
        }
        let ghost before = *self;
        let ghost k = self.kinds();
        proof {
            before.lemma_pos();
        }
        let m = self.start(SyntaxKind::ARRAY);
        self.bump();
        let ghost first = *self;
        loop
            invariant
                self.wf(),
                self.kinds() == k,
                old(self).kinds() == k,
                old(self).pos() == before.pos(),
                before.pos() < self.pos() <= k.len(),
                self.events() + s_array_items(k, self.pos()).0 == first.events() + s_array_items(
                    k,
                    first.pos(),
                ).0,
                s_array_items(k, self.pos()).1 == s_array_items(k, first.pos()).1,
            ensures
                self.wf(),
                self.kinds() == k,
                self.events() == first.events() + s_array_items(k, first.pos()).0,
                self.pos() == s_array_items(k, first.pos()).1,
            decreases k.len() - self.pos(),
        {
            if self.at_end() || self.current() == SyntaxKind::R_BRACK {
                assert(self.events() =~= self.events() + s_array_items(k, self.pos()).0);
                break ;
            }
            let ghost here = *self;
            proof {
                lemma_ok_val(k, here.pos());
                lemma_ok_eat(k, s_val(k, here.pos()).1, SyntaxKind::COMMA);
            }
            self.val();
            if self.current() != SyntaxKind::R_BRACK {
                self.eat(SyntaxKind::COMMA)
            }
            proof {
                let val = s_val(k, here.pos());
                let item = if kind_at(k, val.1) != SyntaxKind::R_BRACK {
                    then(val, s_eat(k, val.1, SyntaxKind::COMMA))
                } else {
                    val
                };
                let rest = s_array_items(k, item.1);
                assert(self.events() =~= here.events() + item.0);
                assert(s_array_items(k, here.pos()) == then(item, rest));
                assert(self.events() + rest.0 =~= here.events() + (item.0 + rest.0));
            }
        }
        self.eat(SyntaxKind::R_BRACK);
        self.finish(m);
        assert(self.events() =~= before.events() + s_array(k, before.pos()).0);
    }

    fn dict(&mut self)
        requires
            old(self).pos() < old(self).kinds().len(),
        ensures
            final(self).did(*old(self), s_dict(old(self).kinds(), old(self).pos())),
        decreases old(self).kinds().len() - old(self).pos(), 0int,
    {
        proof {
            use_type_invariant(&self.source);
        }
        let ghost before = *self;
        let ghost k = self.kinds();
        proof {
            before.lemma_pos();
        }
        let m = self.start(SyntaxKind::DICT);
        self.bump();
        let ghost first = *self;
        loop
            invariant
                self.wf(),
                self.kinds() == k,
                old(self).kinds() == k,
                old(self).pos() == before.pos(),
                before.pos() < self.pos() <= k.len(),
                self.events() + s_dict_items(k, self.pos()).0 == first.events() + s_dict_items(
                    k,
                    first.pos(),
                ).0,
                s_dict_items(k, self.pos()).1 == s_dict_items(k, first.pos()).1,
            ensures
                self.wf(),
                self.kinds() == k,
                self.events() == first.events() + s_dict_items(k, first.pos()).0,
                self.pos() == s_dict_items(k, first.pos()).1,
            decreases k.len() - self.pos(),
        {
            if self.at_end() || self.current() == SyntaxKind::R_CURLY {
                assert(self.events() =~= self.events() + s_dict_items(k, self.pos()).0);
                break ;
            }
            let ghost here = *self;
            proof {
                lemma_ok_entry(k, here.pos());
                lemma_ok_eat(k, s_entry(k, here.pos()).1, SyntaxKind::COMMA);
            }
            self.entry();
            if self.current() != SyntaxKind::R_CURLY {
                self.eat(SyntaxKind::COMMA)
            }
            proof {
                let entry = s_entry(k, here.pos());
                let item = if kind_at(k, entry.1) != SyntaxKind::R_CURLY {
                    then(entry, s_eat(k, entry.1, SyntaxKind::COMMA))
                } else {
                    entry
                };
                let rest = s_dict_items(k, item.1);
                assert(self.events() =~= here.events() + item.0);
                assert(s_dict_items(k, here.pos()) == then(item, rest));
                assert(self.events() + rest.0 =~= here.events() + (item.0 + rest.0));
            }
        }
        self.eat(SyntaxKind::R_CURLY);
        self.finish(m);
        assert(self.events() =~= before.events() + s_dict(k, before.pos()).0);
    }

    fn entry(&mut self)
        ensures
            final(self).did(*old(self), s_entry(old(self).kinds(), old(self).pos())),
        decreases old(self).kinds().len() - old(self).pos(), 2int,
    {
        proof {
            use_type_invariant(&self.source);
        }
        let ghost before = *self;
        let ghost k = self.kinds();
        proof {
            before.lemma_pos();
            lemma_keys_end(k, before.pos());
            lemma_ok_eat(k, s_keys(k, before.pos()).1, SyntaxKind::EQ);
        }
        let m = self.start(SyntaxKind::ENTRY);
        self.keys();
        self.eat(SyntaxKind::EQ);
        self.val();
        self.finish(m);
        assert(self.events() =~= before.events() + s_entry(k, before.pos()).0);
    }

    fn entries(&mut self)
        ensures
            final(self).did(*old(self), s_entries(old(self).kinds(), old(self).pos())),
    {
        proof {
            use_type_invariant(&self.source);
        }
        let ghost before = *self;
        let ghost k = self.kinds();
        loop
            invariant
                self.wf(),
                self.kinds() == k,
                self.events() + s_entries(k, self.pos()).0 == before.events() + s_entries(
                    k,
                    before.pos(),
                ).0,
                s_entries(k, self.pos()).1 == s_entries(k, before.pos()).1,
            ensures
                self.wf(),
                self.kinds() == k,
                self.events() == before.events() + s_entries(k, before.pos()).0,
                self.pos() == s_entries(k, before.pos()).1,
            decreases k.len() - self.pos(),
        {
            if self.at_end() || self.current() == SyntaxKind::L_BRACK {
                assert(self.events() =~= self.events() + s_entries(k, self.pos()).0);
                break ;
            }
            let ghost here = *self;
            proof {
                lemma_ok_entry(k, here.pos());
            }
            let kind = self.current();
            if word_kind(kind) || line_string(kind) {
                self.entry()
            } else {
                self.bump_error(Expected::Key)
            }
            proof {
                let item = if is_key_start(k[here.pos()]) {
                    s_entry(k, here.pos())
                } else {
                    s_bump_error(k, here.pos(), Expected::Key)
                };
                let rest = s_entries(k, item.1);
                assert(s_entries(k, here.pos()) == then(item, rest));
                assert(self.events() + rest.0 =~= here.events() + (item.0 + rest.0));
            }
        }
    }

    fn table_header(&mut self, array: bool)
        requires
            kind_at(old(self).kinds(), old(self).pos()) == SyntaxKind::L_BRACK,
            array ==> at_array_table(old(self).kinds(), old(self).pos()),
        ensures
            final(self).did(*old(self), s_table_header(old(self).kinds(), old(self).pos(), array)),
    {
        proof {
            use_type_invariant(&self.source);
        }
        let ghost before = *self;
        let ghost k = self.kinds();
        let m = self.start(SyntaxKind::TABLE_HEADER);
        self.bump();
        if array {
            self.bump();
        }
        self.keys();
        self.eat(SyntaxKind::R_BRACK);
        if array {
            self.eat(SyntaxKind::R_BRACK);
        }
        self.finish(m);
        assert(self.events() =~= before.events() + s_table_header(k, before.pos(), array).0);
    }

    fn table(&mut self)
        requires
            kind_at(old(self).kinds(), old(self).pos()) == SyntaxKind::L_BRACK,
        ensures
            final(self).did(*old(self), s_table(old(self).kinds(), old(self).pos(), false)),
    {
        proof {
            use_type_invariant(&self.source);
        }
        let ghost before = *self;
        let m = self.start(SyntaxKind::TABLE);
        self.table_header(false);
        self.entries();
        self.finish(m);
        assert(self.events() =~= before.events() + s_table(before.kinds(), before.pos(), false).0);
    }

    fn array_table(&mut self)
        requires
            at_array_table(old(self).kinds(), old(self).pos()),
        ensures
            final(self).did(*old(self), s_table(old(self).kinds(), old(self).pos(), true)),
    {
        proof {
            use_type_invariant(&self.source);
        }
        let ghost before = *self;
        let m = self.start(SyntaxKind::ARRAY_TABLE);
        self.table_header(true);
        self.entries();
        self.finish(m);
        assert(self.events() =~= before.events() + s_table(before.kinds(), before.pos(), true).0);
    }

    fn doc(&mut self)
        requires
            old(self).pos() == 0,
        ensures
            final(self).wf(),
            final(self).kinds() == old(self).kinds(),
            final(self).events() == old(self).events() + s_doc(old(self).kinds()),
            final(self).pos() == old(self).kinds().len(),
    {
        proof {
            use_type_invariant(&self.source);
        }
        let ghost before = *self;
        let ghost k = self.kinds();
        let m = self.start(SyntaxKind::DOC);
        self.entries();
        let ghost first = *self;
        proof {
            lemma_ok_entries(k, 0);
        }
        while !self.at_end()
            invariant
                self.wf(),
                self.kinds() == k,
                0 <= self.pos() <= k.len(),
                self.pos() < k.len() ==> k[self.pos()] == SyntaxKind::L_BRACK,
                self.events() + s_tables(k, self.pos()).0 == first.events() + s_tables(
                    k,
                    first.pos(),
                ).0,
            decreases k.len() - self.pos(),
        {
            let ghost here = *self;
            proof {
                lemma_ok_table(k, here.pos(), at_array_table(k, here.pos()));
            }
            if self.at(1) == SyntaxKind::L_BRACK {
                self.array_table()
            } else {
                self.table()
            }
            proof {
                let item = s_table(k, here.pos(), at_array_table(k, here.pos()));
                let rest = s_tables(k, item.1);
                assert(s_tables(k, here.pos()) == then(item, rest));
                assert(self.events() + rest.0 =~= here.events() + (item.0 + rest.0));
            }
        }
        proof {
            assert(self.events() =~= self.events() + s_tables(k, self.pos()).0);
        }
        self.finish(m);
        assert(self.events() =~= before.events() + s_doc(k));
    }

    /// Parses the whole input: records the events of the document.
    pub fn parse(&mut self)
        requires
            old(self).pos() == 0,
        ensures
            final(self).wf(),
            final(self).kinds() == old(self).kinds(),
            final(self).events() == old(self).events() + s_doc(old(self).kinds()),
            final(self).pos() == old(self).kinds().len(),
    {
        proof {
            use_type_invariant(&self.source);
        }
        self.doc();
    }
}

/// The events of the document whose significant tokens `source` shows.
pub fn parse_events(source: TextTokenSource) -> (events: Vec<Event>)
    requires
        source.pos() == 0,
    ensures
        events@ == s_doc(source.kinds()),
{
    proof {
        use_type_invariant(&source);
    }
    let mut parser = Parser::new(source);
    parser.parse();
    parser.into_events()
}

} // verus!
