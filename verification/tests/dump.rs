use tom_syntax::dump::decimal;
use tom_syntax::file::TomlFile;
use tom_syntax::parse::parse;

#[test]
fn dump_of_an_entry() {
    let file = TomlFile::new("a = 1\n".to_string());
    assert_eq!(
        file.debug_dump(),
        "DOC@0..6\n  ENTRY@0..5\n    KEY@0..1\n      BARE_KEY@0..1 \"a\"\n    WHITESPACE@1..2\n    EQ@2..3 \"=\"\n    WHITESPACE@3..4\n    ATOM_LITERAL@4..5\n      INT@4..5 \"1\"\n  WHITESPACE@5..6\n\n"
    );
}

#[test]
fn dump_of_an_empty_text() {
    assert_eq!(TomlFile::new(String::new()).debug_dump(), "DOC@0..0\n\n");
}

#[test]
fn dump_with_an_error() {
    let file = TomlFile::new("a = ".to_string());
    assert_eq!(
        file.debug_dump(),
        "DOC@0..4\n  ENTRY@0..4\n    KEY@0..1\n      BARE_KEY@0..1 \"a\"\n    WHITESPACE@1..2\n    EQ@2..3 \"=\"\n    WHITESPACE@3..4\n    VALUE@4..4\n\nerror@3..4 \" \": expected a value\n"
    );
}

#[test]
fn dump_quotes_and_escapes_the_text() {
    let file = TomlFile::new("k = \"a\\\"b\"\n!".to_string());
    assert_eq!(
        file.debug_dump(),
        "DOC@0..12\n  ENTRY@0..10\n    KEY@0..1\n      BARE_KEY@0..1 \"k\"\n    WHITESPACE@1..2\n    EQ@2..3 \"=\"\n    WHITESPACE@3..4\n    ATOM_LITERAL@4..10\n      BASIC_LINE_STRING@4..10 \"\\\"a\\\\\\\"b\\\"\"\n  WHITESPACE@10..11\n  ERROR@11..12\n    ERROR@11..12 \"!\"\n\nerror@11..12 \"!\": expected a key\n"
    );
}

#[test]
fn dump_of_a_parse_is_the_dump_of_its_file() {
    let text = "[t]\nx = [1, 'y'] # c\n";
    assert_eq!(parse(text).debug_dump(), TomlFile::new(text.to_string()).debug_dump());
}

#[test]
fn decimal_digits() {
    assert_eq!(decimal(0), "0");
    assert_eq!(decimal(7), "7");
    assert_eq!(decimal(10), "10");
    assert_eq!(decimal(1234567890), "1234567890");
    assert_eq!(decimal(usize::MAX), usize::MAX.to_string());
}
