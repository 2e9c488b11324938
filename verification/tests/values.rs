use tom_syntax::ast::{
    AstNode, AstToken, BareKey, BasicLineString, Bool, Comment, DateTime, EntriesOwner, IntNumber, KeysOwner,
    LiteralLineString, StringLit, Value, Whitespace,
};
use tom_syntax::file::{NodeId, TomlFile, TomlNode};
use tom_syntax::parse::parse;
use tom_syntax::syntax_kind::{SyntaxKind, TomlLanguage};
use tom_syntax::text::TextRange;
use tom_syntax::value::{inside, parse_int};

fn first_of<'f>(file: &'f TomlFile, kind: SyntaxKind) -> TomlNode<'f> {
    for i in 0..file.node_count() {
        let node = TomlNode::at(file, NodeId(i)).unwrap();
        if node.is_token() && node.kind() == kind {
            return node;
        }
    }
    panic!("no token of the kind");
}

#[test]
fn integers_are_read_as_rust_reads_them() {
    assert_eq!(parse_int("0"), Some(0));
    assert_eq!(parse_int("42"), Some(42));
    assert_eq!(parse_int("+42"), Some(42));
    assert_eq!(parse_int("-42"), Some(-42));
    assert_eq!(parse_int("007"), Some(7));
    assert_eq!(parse_int("9223372036854775807"), Some(i64::MAX));
    assert_eq!(parse_int("-9223372036854775808"), Some(i64::MIN));
    assert_eq!(parse_int("9223372036854775808"), None);
    assert_eq!(parse_int("-9223372036854775809"), None);
    assert_eq!(parse_int("99999999999999999999999999999999999999999999"), None);
    assert_eq!(parse_int(""), None);
    assert_eq!(parse_int("-"), None);
    assert_eq!(parse_int("+"), None);
    assert_eq!(parse_int("1_000"), None);
    assert_eq!(parse_int("12a"), None);
    assert_eq!(parse_int(" 1"), None);
    assert_eq!(parse_int("--1"), None);
    for text in ["0", "-1", "+5", "123456789", "", "x", "1_0", "18446744073709551616", "-0"] {
        assert_eq!(parse_int(text), text.parse::<i64>().ok());
    }
}

#[test]
fn the_inside_of_a_text() {
    assert_eq!(inside("'ab'"), Some("ab"));
    assert_eq!(inside("\"\""), Some(""));
    assert_eq!(inside("\""), None);
    assert_eq!(inside(""), None);
    assert_eq!(inside("'\u{e9}'"), Some("\u{e9}"));
    assert_eq!(inside("\u{e9}"), None);
    assert_eq!(inside("\u{e9}x\u{e9}"), None);
}

#[test]
fn values_of_the_literal_tokens() {
    let file = TomlFile::new("a = 'x y'\nb = true\nc = false\nd = 17\ne = 1979-05-27\n".to_string());
    let string = StringLit::cast(first_of(&file, SyntaxKind::LITERAL_LINE_STRING)).unwrap();
    assert_eq!(string.value(), Some("x y"));
    assert_eq!(string.text(), "'x y'");
    assert!(Bool::cast(first_of(&file, SyntaxKind::TRUE)).unwrap().value());
    assert!(!Bool::cast(first_of(&file, SyntaxKind::FALSE)).unwrap().value());
    assert_eq!(IntNumber::cast(first_of(&file, SyntaxKind::INT)).unwrap().value(), Some(17));
    assert_eq!(DateTime::cast(first_of(&file, SyntaxKind::DATE_TIME)).unwrap().text(), "1979-05-27");
    assert!(IntNumber::cast(first_of(&file, SyntaxKind::TRUE)).is_none());
    assert!(Bool::cast(first_of(&file, SyntaxKind::INT)).is_none());
    assert!(StringLit::cast(file.parse_tree()).is_none());
}

#[test]
fn values_read_through_the_tree() {
    let file = TomlFile::new("a = \"s\"\nb = true\nc = -5\nd = [1]\ne = 1_0\nf = 2.5\n".to_string());
    let values: Vec<Value> = file.ast().entries().collect().iter().map(|e| e.value().unwrap()).collect();
    assert_eq!(values[0].as_string(), Some("s"));
    assert_eq!(values[0].as_bool(), None);
    assert_eq!(values[0].as_i64(), None);
    assert_eq!(values[1].as_bool(), Some(true));
    assert_eq!(values[1].as_string(), None);
    assert_eq!(values[2].as_i64(), Some(-5));
    assert_eq!(values[3].as_i64(), None);
    assert_eq!(values[3].as_string(), None);
    assert_eq!(values[4].as_i64(), None);
    assert_eq!(values[5].as_i64(), None);
}

#[test]
fn names_of_keys() {
    let file = TomlFile::new("a.'b c'.\"d\".92 = 1".to_string());
    let entries = file.ast().entries().collect();
    let names: Vec<Option<&str>> = entries[0].keys().collect().iter().map(|k| k.name()).collect();
    assert_eq!(names, vec![Some("a"), Some("b c"), Some("d"), Some("92")]);
    let broken = TomlFile::new("a.= 1".to_string());
    let names: Vec<Option<&str>> = broken.ast().entries().collect()[0].keys().collect().iter().map(|k| k.name()).collect();
    assert_eq!(names, vec![Some("a"), None, None]);
}

#[test]
fn tokens_are_cast_only_to_their_own_type() {
    let file = TomlFile::new("# c\na = 'x'\n\"b\" = 1".to_string());
    assert_eq!(Comment::cast(first_of(&file, SyntaxKind::COMMENT)).unwrap().text(), "# c");
    assert_eq!(Whitespace::cast(first_of(&file, SyntaxKind::WHITESPACE)).unwrap().text(), "\n");
    assert_eq!(BareKey::cast(first_of(&file, SyntaxKind::BARE_KEY)).unwrap().text(), "a");
    assert_eq!(LiteralLineString::cast(first_of(&file, SyntaxKind::LITERAL_LINE_STRING)).unwrap().text(), "'x'");
    assert_eq!(BasicLineString::cast(first_of(&file, SyntaxKind::BASIC_LINE_STRING)).unwrap().text(), "\"b\"");
    assert!(Comment::cast(first_of(&file, SyntaxKind::WHITESPACE)).is_none());
    assert!(BareKey::cast(first_of(&file, SyntaxKind::COMMENT)).is_none());
    assert!(Whitespace::cast(file.parse_tree()).is_none());
    assert!(Comment::can_cast(SyntaxKind::COMMENT));
    assert!(!Comment::can_cast(SyntaxKind::WHITESPACE));
    assert!(StringLit::can_cast(SyntaxKind::BASIC_MULTILINE_STRING));
    assert_eq!(BareKey::cast(first_of(&file, SyntaxKind::BARE_KEY)).unwrap().syntax().range(), TextRange::new(4, 5));
}

#[test]
fn siblings_before_and_after() {
    let file = TomlFile::new("a = 1".to_string());
    let entry = file.parse_tree().child_nodes()[0];
    let children = entry.child_nodes();
    assert_eq!(children.len(), 5);
    assert!(children[0].prev_sibling().is_none());
    for i in 1..children.len() {
        assert_eq!(children[i].prev_sibling().unwrap().id(), children[i - 1].id());
    }
    assert_eq!(entry.last_child().unwrap().id(), children[4].id());
    assert_eq!(entry.last_child().unwrap().kind(), SyntaxKind::ATOM_LITERAL);
    assert!(children[1].last_child().is_none());
    assert!(file.parse_tree().prev_sibling().is_none());
    assert!(file.parse_tree().next_sibling().is_none());
}

#[test]
fn the_text_of_a_node_in_chunks() {
    let file = TomlFile::new("a = [1, 2]\nb = 3\n".to_string());
    let entry = file.parse_tree().child_nodes()[0];
    assert_eq!(entry.chunked_text(), vec!["a", " ", "=", " ", "[", "1", ",", " ", "2", "]"]);
    assert_eq!(entry.chunked_text().concat(), entry.text());
    assert_eq!(file.parse_tree().chunked_text().concat(), file.text());
    assert_eq!(entry.chunked_substring(TextRange::new(2, 6)), vec!["=", " ", "[", "1"]);
    assert_eq!(entry.chunked_substring(TextRange::new(0, 100.min(file.text().len()))).concat(), entry.text());
    assert_eq!(entry.chunked_substring(TextRange::new(11, 16)), Vec::<&str>::new());
    assert_eq!(entry.chunked_substring(TextRange::new(3, 3)), Vec::<&str>::new());
    let comment = TomlFile::new("# long comment".to_string());
    assert_eq!(comment.parse_tree().chunked_substring(TextRange::new(2, 6)), vec!["long"]);
}

#[test]
fn a_copy_of_a_parse_shares_its_trees() {
    let parsed = parse("a = 1\n[t]\n");
    let copy = parsed.clone();
    assert_eq!(copy.debug_dump(), parsed.debug_dump());
    assert_eq!(copy.toml_file().text(), "a = 1\n[t]\n");
    assert_eq!(copy.green(), parsed.green());
    assert!(std::ptr::eq(copy.toml_file(), parsed.toml_file()));
}

#[test]
fn the_language_maps_kinds_to_raw_kinds() {
    assert_eq!(TomlLanguage::kind_to_raw(SyntaxKind::ENTRY), 28);
    assert_eq!(TomlLanguage::kind_from_raw(28), SyntaxKind::ENTRY);
    assert_eq!(TomlLanguage::kind_from_raw(1000), SyntaxKind::TOMBSTONE);
}

#[test]
fn floats_and_dates_are_values() {
    let file = TomlFile::new("a = 8.5\nb = +1e+3\nc = 1979-05-27T07:32:00-08:00\nd = 07:32:00\n".to_string());
    assert_eq!(file.errors().len(), 0);
    let texts: Vec<&str> = file.ast().entries().collect().iter().map(|e| e.value().unwrap().syntax().text()).collect();
    assert_eq!(texts, vec!["8.5", "+1e+3", "1979-05-27T07:32:00-08:00", "07:32:00"]);
}
