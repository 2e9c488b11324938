use tom_syntax::ast::{AstNode, EntriesOwner, KeysOwner, TableHeaderOwner, Value};
use tom_syntax::event::Expected;
use tom_syntax::file::TomlFile;
use tom_syntax::syntax_kind::SyntaxKind;
use tom_syntax::text::TextRange;

fn file(text: &str) -> TomlFile {
    TomlFile::new(text.to_string())
}

fn count_kind(file: &TomlFile, kind: SyntaxKind) -> usize {
    let mut n = 0;
    for i in 0..file.node_count() {
        let node = tom_syntax::file::TomlNode::at(file, tom_syntax::file::NodeId(i)).unwrap();
        if node.kind() == kind {
            n += 1;
        }
    }
    n
}

#[test]
fn two_entries_no_tables_no_errors() {
    let file = file("a = 1\nb = 2\n");
    let doc = file.ast();
    assert_eq!(doc.entries().collect().len(), 2);
    assert_eq!(doc.tables().collect().len(), 0);
    assert_eq!(doc.array_tables().collect().len(), 0);
    assert_eq!(file.errors().len(), 0);
    let entries = doc.entries().collect();
    assert_eq!(entries[0].syntax().text(), "a = 1");
    assert_eq!(entries[1].syntax().text(), "b = 2");
}

#[test]
fn a_table_with_its_header_and_entry() {
    let file = file("[t]\na=1\n");
    let doc = file.ast();
    assert_eq!(doc.entries().collect().len(), 0);
    let tables = doc.tables().collect();
    assert_eq!(tables.len(), 1);
    let header = tables[0].header().unwrap();
    let keys: Vec<&str> = header.keys().collect().iter().map(|k| k.syntax().text()).collect();
    assert_eq!(keys, vec!["t"]);
    let entries = tables[0].entries().collect();
    assert_eq!(entries.len(), 1);
    assert_eq!(entries[0].syntax().text(), "a=1");
    assert_eq!(file.errors().len(), 0);
}

#[test]
fn an_array_with_a_trailing_comma() {
    let file = file("a = [1,2,]");
    let doc = file.ast();
    let entries = doc.entries().collect();
    assert_eq!(entries.len(), 1);
    match entries[0].value() {
        Some(Value::Array(array)) => {
            let values = array.values().collect();
            assert_eq!(values.len(), 2);
            assert_eq!(values[0].syntax().text(), "1");
            assert_eq!(values[1].syntax().text(), "2");
        }
        _ => panic!("the value is an array"),
    }
    assert_eq!(file.errors().len(), 0);
}

#[test]
fn an_entry_without_a_value() {
    let file = file("a = ");
    let doc = file.ast();
    let entries = doc.entries().collect();
    assert_eq!(entries.len(), 1);
    let keys = entries[0].keys().collect();
    assert_eq!(keys.len(), 1);
    assert_eq!(keys[0].syntax().text(), "a");
    let eq = entries[0].eq_token().unwrap();
    assert_eq!(eq.kind(), SyntaxKind::EQ);
    assert_eq!(eq.range(), TextRange::new(2, 3));
    assert!(entries[0].value().is_none());
    assert_eq!(file.errors().len(), 1);
    assert_eq!(file.errors()[0].expected, Expected::Value);
    assert_eq!(file.errors()[0].message(), "expected a value");
    assert_eq!(count_kind(&file, SyntaxKind::VALUE), 1);
    assert_eq!(count_kind(&file, SyntaxKind::ERROR), 0);
}

#[test]
fn a_value_that_is_none_is_wrapped_as_an_error() {
    let file = file("a = @\n");
    let entries = file.ast().entries().collect();
    assert_eq!(entries.len(), 1);
    assert!(entries[0].value().is_none());
    assert_eq!(file.errors().len(), 1);
    assert_eq!(file.errors()[0].message(), "expected a value");
    assert_eq!(file.errors()[0].range(), TextRange::new(4, 5));
    let value = entries[0].syntax().child_nodes().into_iter().find(|n| n.kind() == SyntaxKind::VALUE).unwrap();
    let inside = value.child_nodes();
    assert_eq!(inside.len(), 1);
    assert_eq!(inside[0].kind(), SyntaxKind::ERROR);
    assert_eq!(inside[0].text(), "@");
    assert_eq!(inside[0].child_nodes().len(), 1);
}

#[test]
fn two_items_of_an_array_of_tables() {
    let file = file("[[arr]]\nx=1\n[[arr]]\ny=2\n");
    let doc = file.ast();
    assert_eq!(doc.tables().collect().len(), 0);
    let items = doc.array_tables().collect();
    assert_eq!(items.len(), 2);
    for item in items.iter() {
        let header = item.header().unwrap();
        let keys: Vec<&str> = header.keys().collect().iter().map(|k| k.syntax().text()).collect();
        assert_eq!(keys, vec!["arr"]);
        assert_eq!(item.entries().collect().len(), 1);
    }
    assert_eq!(items[0].entries().collect()[0].syntax().text(), "x=1");
    assert_eq!(items[1].entries().collect()[0].syntax().text(), "y=2");
    assert_eq!(file.errors().len(), 0);
}

#[test]
fn independent_errors_are_all_reported_and_the_rest_still_parses() {
    let file = file("a = @\nb = 2\n[t]\nc = $\nd = 4\n");
    assert_eq!(file.errors().len(), 2);
    assert_eq!(file.errors()[0].message(), "expected a value");
    assert_eq!(file.errors()[0].range(), TextRange::new(4, 5));
    assert_eq!(file.errors()[1].message(), "expected a value");
    assert_eq!(file.errors()[1].range(), TextRange::new(20, 21));
    assert_eq!(count_kind(&file, SyntaxKind::ERROR), 4);
    let doc = file.ast();
    let entries = doc.entries().collect();
    assert_eq!(entries.len(), 2);
    assert!(entries[0].value().is_none());
    assert_eq!(entries[1].syntax().text(), "b = 2");
    assert!(entries[1].value().is_some());
    let tables = doc.tables().collect();
    assert_eq!(tables.len(), 1);
    let inside = tables[0].entries().collect();
    assert_eq!(inside.len(), 2);
    assert!(inside[0].value().is_none());
    assert_eq!(inside[1].syntax().text(), "d = 4");
}

#[test]
fn a_stray_token_between_tables_is_wrapped_alone() {
    let file = file("[a]\n]\n[b]\n");
    assert_eq!(file.errors().len(), 1);
    assert_eq!(file.errors()[0].message(), "expected a key");
    assert_eq!(file.errors()[0].range(), TextRange::new(4, 5));
    assert_eq!(file.ast().tables().collect().len(), 2);
}

#[test]
fn a_token_that_starts_no_table_is_reported() {
    let file = file("[a]\nx=1\n[b\n");
    let messages: Vec<String> = file.errors().iter().map(|e| e.message()).collect();
    assert_eq!(messages, vec!["expected R_BRACK"]);
    assert_eq!(file.ast().tables().collect().len(), 2);
}

#[test]
fn a_comment_on_the_line_before_an_entry_belongs_to_it() {
    let file = file("x = 0\n# about a\na = 1\n");
    let entries = file.ast().entries().collect();
    assert_eq!(entries.len(), 2);
    assert_eq!(entries[0].syntax().text(), "x = 0");
    assert_eq!(entries[1].syntax().text(), "# about a\na = 1");
    assert_eq!(entries[1].syntax().child_nodes()[0].kind(), SyntaxKind::COMMENT);
}

#[test]
fn a_comment_parted_by_an_empty_line_does_not_belong_to_the_entry() {
    let file = file("x = 0\n# about nothing\n\na = 1\n");
    let entries = file.ast().entries().collect();
    assert_eq!(entries.len(), 2);
    assert_eq!(entries[1].syntax().text(), "a = 1");
    let comment = file.ast().syntax().child_nodes().into_iter().find(|n| n.kind() == SyntaxKind::COMMENT).unwrap();
    assert_eq!(comment.text(), "# about nothing");
    assert_eq!(comment.parent().unwrap().kind(), SyntaxKind::DOC);
}

#[test]
fn comments_in_a_row_belong_to_the_entry_up_to_an_empty_line() {
    let file = file("# far\n\n# one\n# two\na = 1\n");
    let entries = file.ast().entries().collect();
    assert_eq!(entries[0].syntax().text(), "# one\n# two\na = 1");
}

#[test]
fn a_comment_on_the_line_of_an_entry_belongs_to_it() {
    let file = file("a = 1 # same line\n# next line\nb = 2");
    let entries = file.ast().entries().collect();
    assert_eq!(entries[0].syntax().text(), "a = 1 # same line");
    assert_eq!(entries[1].syntax().text(), "# next line\nb = 2");
}

#[test]
fn a_comment_before_a_table_belongs_to_it_but_not_to_an_array_table() {
    let file = file("# t\n[t]\n# u\n[[u]]\n");
    let doc = file.ast();
    assert_eq!(doc.tables().collect()[0].syntax().text(), "# t\n[t]");
    assert_eq!(doc.array_tables().collect()[0].syntax().text(), "[[u]]");
    let comments: Vec<&str> = doc
        .syntax()
        .child_nodes()
        .iter()
        .filter(|n| n.kind() == SyntaxKind::COMMENT)
        .map(|n| n.text())
        .collect();
    assert_eq!(comments, vec!["# u"]);
}

#[test]
fn the_document_takes_the_trivia_at_both_ends() {
    let file = file("\n# top\n\na = 1\n\n# bottom\n");
    let root = file.parse_tree();
    assert_eq!(root.kind(), SyntaxKind::DOC);
    assert_eq!(root.range(), TextRange::new(0, 24));
    let kinds: Vec<SyntaxKind> = root.child_nodes().iter().map(|n| n.kind()).collect();
    assert_eq!(
        kinds,
        vec![
            SyntaxKind::WHITESPACE,
            SyntaxKind::COMMENT,
            SyntaxKind::WHITESPACE,
            SyntaxKind::ENTRY,
            SyntaxKind::WHITESPACE,
            SyntaxKind::COMMENT,
            SyntaxKind::WHITESPACE,
        ]
    );
}
