use tom_syntax::ast::{AstNode, AtomLiteralKind, Doc, EntriesOwner, Entry, KeysOwner, StringKind, Value};
use tom_syntax::event::Expected;
use tom_syntax::file::TomlFile;
use tom_syntax::syntax_error::SyntaxError;
use tom_syntax::syntax_kind::{SyntaxKind, KIND_COUNT};
use tom_syntax::text::{intersect, relative_range, slice_str, TextRange};

#[test]
fn raw_kinds_go_there_and_back() {
    for raw in 0..KIND_COUNT {
        assert_eq!(SyntaxKind::from_raw(raw).unwrap().to_raw(), raw);
    }
    assert_eq!(SyntaxKind::from_raw(KIND_COUNT), None);
    assert_eq!(SyntaxKind::from_raw(u16::MAX), None);
    assert_eq!(SyntaxKind::TOMBSTONE.to_raw(), 0);
    assert_eq!(SyntaxKind::DOC.to_raw(), 27);
    assert_eq!(SyntaxKind::__LAST.to_raw(), 37);
}

#[test]
fn kinds_are_ordered_as_they_are_listed() {
    assert!(SyntaxKind::TOMBSTONE < SyntaxKind::EOF);
    assert!(SyntaxKind::COMMENT < SyntaxKind::DOC);
    assert!(SyntaxKind::ATOM_LITERAL < SyntaxKind::__LAST);
}

#[test]
fn kinds_print_their_names() {
    assert_eq!(SyntaxKind::DOC.name(), "DOC");
    assert_eq!(SyntaxKind::BARE_KEY_LIKE.name(), "BARE_KEY_LIKE");
    assert_eq!(SyntaxKind::L_BRACK.name(), "L_BRACK");
    for raw in 0..KIND_COUNT {
        let kind = SyntaxKind::from_raw(raw).unwrap();
        assert_eq!(kind.name(), format!("{:?}", kind));
    }
}

#[test]
fn messages_of_the_errors() {
    assert_eq!(Expected::Key.message(), "expected a key");
    assert_eq!(Expected::Value.message(), "expected a value");
    assert_eq!(Expected::Kind(SyntaxKind::EQ).message(), "expected EQ");
    assert_eq!(Expected::Kind(SyntaxKind::R_CURLY).message(), "expected R_CURLY");
    let error = SyntaxError::new(Expected::Kind(SyntaxKind::COMMA), TextRange::new(3, 5));
    assert_eq!(error.message(), "expected COMMA");
    assert_eq!(error.range(), TextRange::new(3, 5));
}

#[test]
fn each_kind_of_error_has_its_text() {
    let messages = |text: &str| -> Vec<String> {
        TomlFile::new(text.to_string()).errors().iter().map(|e| e.message()).collect()
    };
    assert_eq!(messages("= 1"), vec!["expected a key", "expected EQ", "expected a value"]);
    assert_eq!(messages("="), vec!["expected a key"]);
    assert_eq!(messages("a = "), vec!["expected a value"]);
    assert_eq!(messages("[t]\n]"), vec!["expected a key"]);
    assert_eq!(messages("a 1"), vec!["expected DOT", "expected a key", "expected EQ", "expected a value"]);
    assert_eq!(messages("a = [1"), vec!["expected COMMA", "expected R_BRACK"]);
    assert_eq!(messages("a = {b = 1"), vec!["expected COMMA", "expected R_CURLY"]);
    assert_eq!(messages("[t"), vec!["expected R_BRACK"]);
    assert_eq!(messages("[[t]"), vec!["expected R_BRACK"]);
    assert_eq!(messages("a = [1 2]"), vec!["expected COMMA"]);
    assert_eq!(messages("a = [,]"), vec!["expected a value"]);
}

#[test]
fn errors_stand_at_the_next_significant_token() {
    let file = TomlFile::new("a =   # c\n  ]".to_string());
    assert_eq!(file.errors().len(), 1);
    assert_eq!(file.errors()[0].message(), "expected a value");
    assert_eq!(file.errors()[0].range(), TextRange::new(12, 13));
    let empty = TomlFile::new("[".to_string());
    assert_eq!(empty.errors()[0].range(), TextRange::new(0, 1));
    let only_trivia = TomlFile::new("a =  ".to_string());
    assert_eq!(only_trivia.errors()[0].range(), TextRange::new(3, 5));
}

#[test]
fn ranges_meet_where_they_share_a_byte() {
    assert_eq!(intersect(TextRange::new(0, 5), TextRange::new(3, 9)), Some(TextRange::new(3, 5)));
    assert_eq!(intersect(TextRange::new(3, 9), TextRange::new(0, 5)), Some(TextRange::new(3, 5)));
    assert_eq!(intersect(TextRange::new(0, 9), TextRange::new(3, 5)), Some(TextRange::new(3, 5)));
    assert_eq!(intersect(TextRange::new(0, 3), TextRange::new(3, 5)), None);
    assert_eq!(intersect(TextRange::new(0, 2), TextRange::new(4, 5)), None);
    assert_eq!(intersect(TextRange::new(2, 2), TextRange::new(0, 5)), None);
}

#[test]
fn ranges_are_moved_and_measured() {
    assert_eq!(relative_range(3, TextRange::new(4, 9)), TextRange::new(1, 6));
    assert_eq!(relative_range(0, TextRange::new(4, 9)), TextRange::new(4, 9));
    assert_eq!(TextRange::new(4, 9).len(), 5);
    assert_eq!(TextRange::new(4, 4).len(), 0);
    assert_eq!(TextRange::new(9, 4).len(), 0);
}

#[test]
fn text_is_cut_along_a_range() {
    assert_eq!(slice_str("hello", TextRange::new(1, 3)), "el");
    assert_eq!(slice_str("hello", TextRange::new(0, 5)), "hello");
    assert_eq!(slice_str("hello", TextRange::new(2, 2)), "");
    assert_eq!(slice_str("a\u{e9}b", TextRange::new(1, 3)), "\u{e9}");
}

#[test]
fn a_node_is_cast_only_to_its_own_type() {
    let file = TomlFile::new("a = 1".to_string());
    let root = file.parse_tree();
    assert!(Doc::cast(root).is_some());
    assert!(Entry::cast(root).is_none());
    assert!(Value::cast(root).is_none());
    assert!(Doc::can_cast(SyntaxKind::DOC));
    assert!(!Doc::can_cast(SyntaxKind::TABLE));
    assert!(Value::can_cast(SyntaxKind::ARRAY));
    assert!(Value::can_cast(SyntaxKind::DICT));
    assert!(Value::can_cast(SyntaxKind::ATOM_LITERAL));
    assert!(!Value::can_cast(SyntaxKind::VALUE));
    let entry = root.child_nodes()[0];
    assert!(Entry::cast(entry).is_some());
    assert!(Doc::cast(entry).is_none());
    assert_eq!(Entry::cast(entry).unwrap().syntax().id(), entry.id());
}

#[test]
fn literals_know_what_they_are() {
    let file = TomlFile::new(
        "a = 1\nb = 1e5\nc = true\nd = false\ne = 1979-05-27\nf = 'x'\ng = \"x\"\nh = '''x'''\ni = \"\"\"x\"\"\"\n".to_string(),
    );
    assert_eq!(file.errors().len(), 0);
    let kinds: Vec<Option<AtomLiteralKind>> = file
        .ast()
        .entries()
        .collect()
        .iter()
        .map(|e| match e.value() {
            Some(Value::AtomLiteral(literal)) => literal.kind(),
            _ => None,
        })
        .collect();
    assert_eq!(
        kinds,
        vec![
            Some(AtomLiteralKind::Int),
            Some(AtomLiteralKind::Float),
            Some(AtomLiteralKind::Bool(true)),
            Some(AtomLiteralKind::Bool(false)),
            Some(AtomLiteralKind::DateTime),
            Some(AtomLiteralKind::String { kind: StringKind::Literal, multiline: false }),
            Some(AtomLiteralKind::String { kind: StringKind::Basic, multiline: false }),
            Some(AtomLiteralKind::String { kind: StringKind::Literal, multiline: true }),
            Some(AtomLiteralKind::String { kind: StringKind::Basic, multiline: true }),
        ]
    );
}

#[test]
fn the_token_of_a_literal() {
    let file = TomlFile::new("a = 'x'".to_string());
    let entries = file.ast().entries().collect();
    match entries[0].value() {
        Some(Value::AtomLiteral(literal)) => {
            let token = literal.token().unwrap();
            assert_eq!(token.kind(), SyntaxKind::LITERAL_LINE_STRING);
            assert_eq!(token.text(), "'x'");
        }
        _ => panic!("the value is a literal"),
    }
}

#[test]
fn dotted_keys_and_inline_tables() {
    let file = TomlFile::new("a.\"b\".'c' = { x.y = 1, z = [] }".to_string());
    assert_eq!(file.errors().len(), 0);
    let entries = file.ast().entries().collect();
    assert_eq!(entries.len(), 1);
    let keys: Vec<&str> = entries[0].keys().collect().iter().map(|k| k.syntax().text()).collect();
    assert_eq!(keys, vec!["a", "\"b\"", "'c'"]);
    match entries[0].value() {
        Some(Value::Dict(dict)) => {
            let inner = dict.entries().collect();
            assert_eq!(inner.len(), 2);
            assert_eq!(inner[0].keys().collect().len(), 2);
            assert!(matches!(inner[1].value(), Some(Value::Array(_))));
        }
        _ => panic!("the value is an inline table"),
    }
}

#[test]
fn typed_children_come_one_by_one() {
    let file = TomlFile::new("a = 1\n[t]\nb = 2\nc = 3\n".to_string());
    let doc = file.ast();
    let mut own = doc.entries();
    assert_eq!(own.next().unwrap().syntax().text(), "a = 1");
    assert!(own.next().is_none());
    assert!(own.next().is_none());
    let tables = doc.tables().collect();
    let mut inside = tables[0].entries();
    assert_eq!(inside.next().unwrap().syntax().text(), "b = 2");
    assert_eq!(inside.next().unwrap().syntax().text(), "c = 3");
    assert!(inside.next().is_none());
}

#[test]
fn an_array_a_dict_and_a_literal_are_values() {
    let file = TomlFile::new("a = [1]\nb = {}\nc = 1\n".to_string());
    let entries = file.ast().entries().collect();
    match entries[0].value() {
        Some(Value::Array(array)) => {
            let value: Value = array.into();
            assert!(matches!(value, Value::Array(_)));
            assert_eq!(value.syntax().kind(), SyntaxKind::ARRAY);
        }
        _ => panic!("the value is an array"),
    }
    match entries[1].value() {
        Some(Value::Dict(dict)) => {
            let value = Value::from(dict);
            assert!(matches!(value, Value::Dict(_)));
            assert_eq!(value.syntax().text(), "{}");
        }
        _ => panic!("the value is an inline table"),
    }
    match entries[2].value() {
        Some(Value::AtomLiteral(literal)) => {
            let value = Value::from(literal);
            assert!(matches!(value, Value::AtomLiteral(_)));
            assert_eq!(value.syntax().text(), "1");
        }
        _ => panic!("the value is a literal"),
    }
}
