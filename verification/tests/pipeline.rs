use tom_syntax::event::{Event, Expected};
use tom_syntax::lexer::{tokenize, Token};
use tom_syntax::parser::{parse_events, Parser};
use tom_syntax::sink::{run_sink, Step, TextTreeSink};
use tom_syntax::syntax_kind::SyntaxKind;
use tom_syntax::text::TextRange;
use tom_syntax::token_source::TextTokenSource;
use tom_syntax::tree::{ParseTree, TreeBuilder};
use tom_syntax::{TomlFile, TomlNode};

fn events_of(text: &str) -> Vec<Event> {
    let tokens = tokenize(text);
    parse_events(TextTokenSource::new(text, &tokens))
}

fn steps_of(text: &str) -> Vec<Step> {
    let tokens = tokenize(text);
    let events = parse_events(TextTokenSource::new(text, &tokens));
    run_sink(text, &tokens, &events).0
}

#[test]
fn the_token_source_hides_trivia() {
    let text = " a = # c\n 1";
    let tokens = tokenize(text);
    let mut source = TextTokenSource::new(text, &tokens);
    assert_eq!(source.current(), SyntaxKind::BARE_KEY_LIKE);
    assert_eq!(source.at(0), SyntaxKind::BARE_KEY_LIKE);
    assert_eq!(source.at(1), SyntaxKind::EQ);
    assert_eq!(source.at(2), SyntaxKind::INT);
    assert_eq!(source.at(3), SyntaxKind::EOF);
    assert_eq!(source.at(usize::MAX), SyntaxKind::EOF);
    assert_eq!(source.lookahead_nth(1), SyntaxKind::EQ);
    assert_eq!(source.lookahead_nth(3), SyntaxKind::EOF);
    assert_eq!(source.lookahead_nth(usize::MAX), SyntaxKind::EOF);
    assert!(!source.at_end());
    source.bump();
    assert_eq!(source.current(), SyntaxKind::EQ);
    assert_eq!(source.lookahead_nth(1), SyntaxKind::INT);
    source.bump();
    source.bump();
    assert!(source.at_end());
    assert_eq!(source.current(), SyntaxKind::EOF);
    source.bump();
    assert!(source.at_end());
    assert_eq!(source.current(), SyntaxKind::EOF);
}

#[test]
fn the_token_source_knows_keywords() {
    let text = "true truex  = ";
    let tokens = tokenize(text);
    let mut source = TextTokenSource::new(text, &tokens);
    assert!(source.is_keyword("true"));
    assert!(!source.is_keyword("tru"));
    assert!(!source.is_keyword("truex"));
    assert!(!source.is_keyword(""));
    source.bump();
    assert!(source.is_keyword("truex"));
    assert!(!source.is_keyword("true"));
    source.bump();
    assert!(source.is_keyword("="));
    source.bump();
    assert!(!source.is_keyword("="));
    assert!(!source.is_keyword(""));
}

#[test]
fn a_token_source_of_nothing_is_at_its_end() {
    let source = TextTokenSource::new("", &[]);
    assert!(source.at_end());
    assert_eq!(source.current(), SyntaxKind::EOF);
    let only_trivia = tokenize(" # c\n");
    assert!(TextTokenSource::new(" # c\n", &only_trivia).at_end());
}

#[test]
fn events_of_an_entry() {
    assert_eq!(
        events_of("a = 1"),
        vec![
            Event::Start(SyntaxKind::DOC),
            Event::Start(SyntaxKind::ENTRY),
            Event::Start(SyntaxKind::KEY),
            Event::Token(SyntaxKind::BARE_KEY),
            Event::Finish(SyntaxKind::KEY),
            Event::Token(SyntaxKind::EQ),
            Event::Start(SyntaxKind::ATOM_LITERAL),
            Event::Token(SyntaxKind::INT),
            Event::Finish(SyntaxKind::ATOM_LITERAL),
            Event::Finish(SyntaxKind::ENTRY),
            Event::Finish(SyntaxKind::DOC),
        ]
    );
}

#[test]
fn events_of_an_empty_text() {
    assert_eq!(events_of(""), vec![Event::Start(SyntaxKind::DOC), Event::Finish(SyntaxKind::DOC)]);
    assert_eq!(events_of(" # c\n"), vec![Event::Start(SyntaxKind::DOC), Event::Finish(SyntaxKind::DOC)]);
}

#[test]
fn events_of_an_error_wrap_the_token() {
    assert_eq!(
        events_of("]"),
        vec![
            Event::Start(SyntaxKind::DOC),
            Event::Start(SyntaxKind::ERROR),
            Event::Error(Expected::Key),
            Event::Token(SyntaxKind::R_BRACK),
            Event::Finish(SyntaxKind::ERROR),
            Event::Finish(SyntaxKind::DOC),
        ]
    );
}

#[test]
fn events_of_an_array_table_header() {
    assert_eq!(
        events_of("[[a.b]]"),
        vec![
            Event::Start(SyntaxKind::DOC),
            Event::Start(SyntaxKind::ARRAY_TABLE),
            Event::Start(SyntaxKind::TABLE_HEADER),
            Event::Token(SyntaxKind::L_BRACK),
            Event::Token(SyntaxKind::L_BRACK),
            Event::Start(SyntaxKind::KEY),
            Event::Token(SyntaxKind::BARE_KEY),
            Event::Finish(SyntaxKind::KEY),
            Event::Token(SyntaxKind::DOT),
            Event::Start(SyntaxKind::KEY),
            Event::Token(SyntaxKind::BARE_KEY),
            Event::Finish(SyntaxKind::KEY),
            Event::Token(SyntaxKind::R_BRACK),
            Event::Token(SyntaxKind::R_BRACK),
            Event::Finish(SyntaxKind::TABLE_HEADER),
            Event::Finish(SyntaxKind::ARRAY_TABLE),
            Event::Finish(SyntaxKind::DOC),
        ]
    );
}

#[test]
fn the_parser_can_be_driven_by_hand() {
    let text = "x = {}";
    let tokens = tokenize(text);
    let mut parser = Parser::new(TextTokenSource::new(text, &tokens));
    parser.parse();
    assert_eq!(parser.into_events(), events_of(text));
}

#[test]
fn events_are_balanced_and_take_every_token() {
    for text in ["", "a = 1", "a = [1, [2, {b = 3}]]", "= = =", "[[[[", "a.b.c", "{", "a = [", "[t]\nx"] {
        let tokens = tokenize(text);
        let significant = tokens.iter().filter(|t| t.is_significant()).count();
        let events = events_of(text);
        let mut depth = 0i64;
        let mut consumed = 0;
        for (i, event) in events.iter().enumerate() {
            match event {
                Event::Start(_) => depth += 1,
                Event::Finish(_) => depth -= 1,
                Event::Token(_) => consumed += 1,
                Event::Error(_) => {
                    let wrapped = i > 0
                        && events[i - 1] == Event::Start(SyntaxKind::ERROR)
                        && matches!(events[i + 1], Event::Token(_))
                        && events[i + 2] == Event::Finish(SyntaxKind::ERROR);
                    assert!(wrapped || consumed == significant);
                }
            }
            assert!(depth >= 1 || i + 1 == events.len());
        }
        assert_eq!(depth, 0);
        assert_eq!(consumed, significant);
    }
}

#[test]
fn steps_put_the_trivia_in_place() {
    assert_eq!(
        steps_of("# c\na=1 # d\n"),
        vec![
            Step::Open(SyntaxKind::DOC),
            Step::Open(SyntaxKind::ENTRY),
            Step::Leaf(SyntaxKind::COMMENT, TextRange::new(0, 3)),
            Step::Leaf(SyntaxKind::WHITESPACE, TextRange::new(3, 4)),
            Step::Open(SyntaxKind::KEY),
            Step::Leaf(SyntaxKind::BARE_KEY, TextRange::new(4, 5)),
            Step::Close,
            Step::Leaf(SyntaxKind::EQ, TextRange::new(5, 6)),
            Step::Open(SyntaxKind::ATOM_LITERAL),
            Step::Leaf(SyntaxKind::INT, TextRange::new(6, 7)),
            Step::Close,
            Step::Leaf(SyntaxKind::WHITESPACE, TextRange::new(7, 8)),
            Step::Leaf(SyntaxKind::COMMENT, TextRange::new(8, 11)),
            Step::Close,
            Step::Leaf(SyntaxKind::WHITESPACE, TextRange::new(11, 12)),
            Step::Close,
        ]
    );
}

#[test]
fn the_sink_can_be_driven_by_hand() {
    let text = "a # c\n";
    let tokens = tokenize(text);
    let mut sink = TextTreeSink::new(text, &tokens);
    sink.start(SyntaxKind::DOC);
    sink.start(SyntaxKind::ENTRY);
    sink.token(SyntaxKind::BARE_KEY);
    sink.error(Expected::Value);
    sink.finish(SyntaxKind::ENTRY);
    sink.finish(SyntaxKind::DOC);
    let (steps, errors) = sink.finish_all();
    assert_eq!(
        steps,
        vec![
            Step::Open(SyntaxKind::DOC),
            Step::Open(SyntaxKind::ENTRY),
            Step::Leaf(SyntaxKind::BARE_KEY, TextRange::new(0, 1)),
            Step::Leaf(SyntaxKind::WHITESPACE, TextRange::new(1, 2)),
            Step::Leaf(SyntaxKind::COMMENT, TextRange::new(2, 5)),
            Step::Close,
            Step::Leaf(SyntaxKind::WHITESPACE, TextRange::new(5, 6)),
            Step::Close,
        ]
    );
    assert_eq!(errors.len(), 1);
    assert_eq!(errors[0].expected, Expected::Value);
    assert_eq!(errors[0].range(), TextRange::new(5, 6));
}

#[test]
fn an_error_in_an_empty_text_stands_at_its_start() {
    let mut sink = TextTreeSink::new("", &[]);
    sink.error(Expected::Key);
    let (_, errors) = sink.finish_all();
    assert_eq!(errors[0].range(), TextRange::new(0, 0));
}

#[test]
fn a_token_event_without_a_token_does_nothing() {
    let tokens = vec![Token { kind: SyntaxKind::WHITESPACE, range: TextRange::new(0, 1) }];
    let mut sink = TextTreeSink::new(" ", &tokens);
    sink.token(SyntaxKind::INT);
    let (steps, errors) = sink.finish_all();
    assert_eq!(steps, vec![]);
    assert_eq!(errors, vec![]);
}

#[test]
fn the_tree_builder_lays_the_nodes_out_in_order() {
    let mut builder = TreeBuilder::new();
    builder.start_node(SyntaxKind::DOC);
    builder.token(SyntaxKind::WHITESPACE, TextRange::new(0, 2));
    builder.start_node(SyntaxKind::KEY);
    builder.token(SyntaxKind::BARE_KEY, TextRange::new(2, 5));
    builder.finish_node();
    builder.start_node(SyntaxKind::VALUE);
    builder.finish_node();
    builder.finish_node();
    let tree = builder.finish();
    assert_eq!(tree.len(), 5);
    let rows: Vec<(SyntaxKind, bool, usize, TextRange, Option<usize>, usize)> =
        (0..5).map(|i| *tree.node(i)).map(|n| (n.kind, n.token, n.depth, n.range, n.parent, n.end)).collect();
    assert_eq!(
        rows,
        vec![
            (SyntaxKind::DOC, false, 0, TextRange::new(0, 5), None, 5),
            (SyntaxKind::WHITESPACE, true, 1, TextRange::new(0, 2), Some(0), 2),
            (SyntaxKind::KEY, false, 1, TextRange::new(2, 5), Some(0), 4),
            (SyntaxKind::BARE_KEY, true, 2, TextRange::new(2, 5), Some(2), 4),
            (SyntaxKind::VALUE, false, 1, TextRange::new(5, 5), Some(0), 5),
        ]
    );
    assert_eq!(tree.children(0), vec![1, 2, 4]);
    assert_eq!(tree.children(2), vec![3]);
    assert_eq!(tree.children(4), Vec::<usize>::new());
    assert_eq!(tree.children(1), Vec::<usize>::new());
}

#[test]
fn a_tree_is_built_from_steps() {
    let steps = steps_of("a = 1");
    let tree = ParseTree::build(&steps);
    assert_eq!(tree.len(), 9);
    assert_eq!(tree.node(0).kind, SyntaxKind::DOC);
    assert_eq!(tree.node(0).end, 9);
    assert_eq!(tree.node(8).kind, SyntaxKind::INT);
    assert_eq!(tree.node(8).range, TextRange::new(4, 5));
}

#[test]
fn nodes_are_told_apart_by_their_tree() {
    let one = TomlFile::new("a = 1".to_string());
    let other = TomlFile::new("a = 1".to_string());
    let a = one.parse_tree();
    let b = other.parse_tree();
    assert!(a.same_node(&one.parse_tree()));
    assert!(!a.same_node(&b));
    assert!(!a.same_node(&a.child_nodes()[0]));
    let entry: TomlNode = a.child_nodes()[0];
    assert!(entry.same_node(&a.first_child().unwrap()));
}

#[test]
fn a_node_in_short() {
    let file = TomlFile::new("a = 1\n".to_string());
    assert_eq!(file.parse_tree().debug(), "DOC@0..6");
    assert_eq!(file.parse_tree().child_nodes()[0].debug(), "ENTRY@0..5");
}

#[test]
fn the_same_node_given_whether_the_trees_are_one() {
    let file = TomlFile::new("a = 1".to_string());
    let root = file.parse_tree();
    let entry = root.child_nodes()[0];
    assert!(root.same_node_given(&file.parse_tree(), true));
    assert!(!root.same_node_given(&file.parse_tree(), false));
    assert!(!root.same_node_given(&entry, true));
    assert!(!root.same_node_given(&entry, false));
    assert!(entry.same_node_given(&root.first_child().unwrap(), true));
}
