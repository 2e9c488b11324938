use rowan::{NodeOrToken, WalkEvent};
use tom_syntax::file::{NodeId, TomlNode};
use tom_syntax::green::SyntaxTreeBuilder;
use tom_syntax::parse::{parse, try_parse};
use tom_syntax::syntax_error::SyntaxError;
use tom_syntax::event::Expected;
use tom_syntax::syntax_kind::SyntaxKind;
use tom_syntax::text::TextRange;

fn preorder(green: &rowan::GreenNode) -> Vec<(u16, usize, usize, bool)> {
    let root = rowan::cursor::SyntaxNode::new_root(green.clone());
    let mut out = Vec::new();
    for event in root.preorder_with_tokens() {
        if let WalkEvent::Enter(element) = event {
            let range = element.text_range();
            let token = matches!(element, NodeOrToken::Token(_));
            out.push((element.kind().0, usize::from(range.start()), usize::from(range.end()), token));
        }
    }
    out
}

#[test]
fn the_green_tree_holds_the_text() {
    for text in ["", "a = 1\nb = 2\n", "[t]\na=1\n", "a = ", "\u{e9} = \"\u{20ac}\" # \u{1f600}\n", "# c\n\nx = [1, {y = 'z'}] # e\n"] {
        let parsed = parse(text);
        let root = rowan::cursor::SyntaxNode::new_root(parsed.green().clone());
        assert_eq!(root.text().to_string(), text);
        assert_eq!(root.kind().0, SyntaxKind::DOC.to_raw());
        assert_eq!(usize::from(root.text_range().end()), text.len());
    }
}

#[test]
fn the_green_tree_has_the_nodes_of_the_file() {
    for text in ["", "a = 1\nb = 2\n", "[[arr]]\nx=1\n[[arr]]\ny=2\n", "a = {,}", "# c\n\nx = [1, {y = 'z'}] # e\n"] {
        let parsed = parse(text);
        let file = parsed.toml_file();
        let mut nodes = Vec::new();
        for i in 0..file.node_count() {
            let node = TomlNode::at(file, NodeId(i)).unwrap();
            nodes.push((node.kind().to_raw(), node.range().start, node.range().end, node.is_token()));
        }
        assert_eq!(preorder(parsed.green()), nodes);
    }
}

#[test]
fn a_parse_has_the_tree_and_the_errors() {
    let parsed = parse("a = 1\nb = \n");
    assert_eq!(parsed.syntax_node().kind(), SyntaxKind::DOC);
    assert_eq!(parsed.tree().tables().collect().len(), 0);
    assert_eq!(parsed.errors().len(), 1);
    assert_eq!(parsed.errors()[0].message(), "expected a value");
    assert!(parsed.ok().is_err());
    assert_eq!(parsed.ok().err().unwrap().len(), 1);
    assert_eq!(parsed.toml_file().text(), "a = 1\nb = \n");
}

#[test]
fn a_parse_without_errors_is_ok() {
    let parsed = parse("a = 1\n");
    assert_eq!(parsed.errors().len(), 0);
    assert!(parsed.ok().is_ok());
}

#[test]
fn try_parse_parses_what_parse_takes() {
    let parsed = try_parse("a = 1").unwrap();
    assert_eq!(parsed.toml_file().text(), "a = 1");
    assert_eq!(parsed.errors().len(), 0);
}

#[test]
fn the_builder_builds_the_nodes_it_is_told() {
    let mut builder = SyntaxTreeBuilder::new();
    builder.start_node(SyntaxKind::DOC);
    builder.start_node(SyntaxKind::KEY);
    builder.token(SyntaxKind::BARE_KEY, "ab");
    builder.finish_node();
    builder.token(SyntaxKind::WHITESPACE, " ");
    builder.error(SyntaxError::new(Expected::Value, TextRange::new(2, 3)));
    builder.finish_node();
    let (green, errors) = builder.finish();
    assert_eq!(errors, vec![SyntaxError::new(Expected::Value, TextRange::new(2, 3))]);
    assert_eq!(
        preorder(&green),
        vec![
            (SyntaxKind::DOC.to_raw(), 0, 3, false),
            (SyntaxKind::KEY.to_raw(), 0, 2, false),
            (SyntaxKind::BARE_KEY.to_raw(), 0, 2, true),
            (SyntaxKind::WHITESPACE.to_raw(), 2, 3, true),
        ]
    );
    let root = rowan::cursor::SyntaxNode::new_root(green);
    assert_eq!(root.text().to_string(), "ab ");
}

fn shared<T: Send + Sync>() {}

#[test]
fn a_parse_can_be_shared_between_threads() {
    shared::<tom_syntax::parse::Parse>();
    shared::<tom_syntax::file::TomlFile>();
}
