//! The closed set of token and node kinds.

use vstd::prelude::*;

verus! {

/// The kind of a token or of a node of the syntax tree.
#[allow(non_camel_case_types)]
#[derive(Clone, Copy, PartialEq, Eq, PartialOrd, Ord, Hash, Debug, Structural)]
pub enum SyntaxKind {
    TOMBSTONE,
    EOF,
    DOT,
    COMMA,
    L_BRACK,
    R_BRACK,
    L_CURLY,
    R_CURLY,
    EQ,
    PLUS,
    COLON,
    INT,
    FLOAT,
    STRING,
    LITERAL_LINE_STRING,
    LITERAL_MULTILINE_STRING,
    BASIC_LINE_STRING,
    BASIC_MULTILINE_STRING,
    DATE_TIME,
    TRUE,
    FALSE,
    ERROR,
    BARE_KEY,
    WHITESPACE,
    COMMENT,
    NEWLINE,
    BARE_KEY_LIKE,
    DOC,
    ENTRY,
    KEY,
    VALUE,
    ARRAY,
    DICT,
    TABLE_HEADER,
    TABLE,
    ARRAY_TABLE,
    ATOM_LITERAL,
    __LAST,
}

/// How many kinds there are; raw tags range over `0..KIND_COUNT`.
pub const KIND_COUNT: u16 = 38;

impl SyntaxKind {
    /// The position of the kind in the enumeration.
    pub open spec fn raw(self) -> int {
        match self {
            SyntaxKind::TOMBSTONE => 0,
            SyntaxKind::EOF => 1,
            SyntaxKind::DOT => 2,
            SyntaxKind::COMMA => 3,
            SyntaxKind::L_BRACK => 4,
            SyntaxKind::R_BRACK => 5,
            SyntaxKind::L_CURLY => 6,
            SyntaxKind::R_CURLY => 7,
            SyntaxKind::EQ => 8,
            SyntaxKind::PLUS => 9,
            SyntaxKind::COLON => 10,
            SyntaxKind::INT => 11,
            SyntaxKind::FLOAT => 12,
            SyntaxKind::STRING => 13,
            SyntaxKind::LITERAL_LINE_STRING => 14,
            SyntaxKind::LITERAL_MULTILINE_STRING => 15,
            SyntaxKind::BASIC_LINE_STRING => 16,
            SyntaxKind::BASIC_MULTILINE_STRING => 17,
            SyntaxKind::DATE_TIME => 18,
            SyntaxKind::TRUE => 19,
            SyntaxKind::FALSE => 20,
            SyntaxKind::ERROR => 21,
            SyntaxKind::BARE_KEY => 22,
            SyntaxKind::WHITESPACE => 23,
            SyntaxKind::COMMENT => 24,
            SyntaxKind::NEWLINE => 25,
            SyntaxKind::BARE_KEY_LIKE => 26,
            SyntaxKind::DOC => 27,
            SyntaxKind::ENTRY => 28,
            SyntaxKind::KEY => 29,
            SyntaxKind::VALUE => 30,
            SyntaxKind::ARRAY => 31,
            SyntaxKind::DICT => 32,
            SyntaxKind::TABLE_HEADER => 33,
            SyntaxKind::TABLE => 34,
            SyntaxKind::ARRAY_TABLE => 35,
            SyntaxKind::ATOM_LITERAL => 36,
            SyntaxKind::__LAST => 37,
        }
    }

    /// Whitespace and comments: kept in the tree, invisible to the grammar.
    pub open spec fn spec_is_trivia(self) -> bool {
        self == SyntaxKind::WHITESPACE || self == SyntaxKind::COMMENT
    }

    /// The name under which the kind is printed.
    pub open spec fn spec_name(self) -> Seq<char> {
        match self {
            SyntaxKind::TOMBSTONE => "TOMBSTONE"@,
            SyntaxKind::EOF => "EOF"@,
            SyntaxKind::DOT => "DOT"@,
            SyntaxKind::COMMA => "COMMA"@,
            SyntaxKind::L_BRACK => "L_BRACK"@,
            SyntaxKind::R_BRACK => "R_BRACK"@,
            SyntaxKind::L_CURLY => "L_CURLY"@,
            SyntaxKind::R_CURLY => "R_CURLY"@,
            SyntaxKind::EQ => "EQ"@,
            SyntaxKind::PLUS => "PLUS"@,
            SyntaxKind::COLON => "COLON"@,
            SyntaxKind::INT => "INT"@,
            SyntaxKind::FLOAT => "FLOAT"@,
            SyntaxKind::STRING => "STRING"@,
            SyntaxKind::LITERAL_LINE_STRING => "LITERAL_LINE_STRING"@,
            SyntaxKind::LITERAL_MULTILINE_STRING => "LITERAL_MULTILINE_STRING"@,
            SyntaxKind::BASIC_LINE_STRING => "BASIC_LINE_STRING"@,
            SyntaxKind::BASIC_MULTILINE_STRING => "BASIC_MULTILINE_STRING"@,
            SyntaxKind::DATE_TIME => "DATE_TIME"@,
            SyntaxKind::TRUE => "TRUE"@,
            SyntaxKind::FALSE => "FALSE"@,
            SyntaxKind::ERROR => "ERROR"@,
            SyntaxKind::BARE_KEY => "BARE_KEY"@,
            SyntaxKind::WHITESPACE => "WHITESPACE"@,
            SyntaxKind::COMMENT => "COMMENT"@,
            SyntaxKind::NEWLINE => "NEWLINE"@,
            SyntaxKind::BARE_KEY_LIKE => "BARE_KEY_LIKE"@,
            SyntaxKind::DOC => "DOC"@,
            SyntaxKind::ENTRY => "ENTRY"@,
            SyntaxKind::KEY => "KEY"@,
            SyntaxKind::VALUE => "VALUE"@,
            SyntaxKind::ARRAY => "ARRAY"@,
            SyntaxKind::DICT => "DICT"@,
            SyntaxKind::TABLE_HEADER => "TABLE_HEADER"@,
            SyntaxKind::TABLE => "TABLE"@,
            SyntaxKind::ARRAY_TABLE => "ARRAY_TABLE"@,
            SyntaxKind::ATOM_LITERAL => "ATOM_LITERAL"@,
            SyntaxKind::__LAST => "__LAST"@,
        }
    }

    /// Whether a token of this kind is hidden from the grammar.
    #[verifier::when_used_as_spec(spec_is_trivia)]
    pub fn is_trivia(self) -> (r: bool)
        ensures
            r == self.spec_is_trivia(),
    {
        match self {
            SyntaxKind::WHITESPACE | SyntaxKind::COMMENT => true,
            _ => false,
        }
    }

    /// The raw tag of the kind, as the tree stores it.
    pub fn to_raw(self) -> (r: u16)
        ensures
            r as int == self.raw(),
            r < KIND_COUNT,
    {
        match self {
            SyntaxKind::TOMBSTONE => 0,
            SyntaxKind::EOF => 1,
            SyntaxKind::DOT => 2,
            SyntaxKind::COMMA => 3,
            SyntaxKind::L_BRACK => 4,
            SyntaxKind::R_BRACK => 5,
            SyntaxKind::L_CURLY => 6,
            SyntaxKind::R_CURLY => 7,
            SyntaxKind::EQ => 8,
            SyntaxKind::PLUS => 9,
            SyntaxKind::COLON => 10,
            SyntaxKind::INT => 11,
            SyntaxKind::FLOAT => 12,
            SyntaxKind::STRING => 13,
            SyntaxKind::LITERAL_LINE_STRING => 14,
            SyntaxKind::LITERAL_MULTILINE_STRING => 15,
            SyntaxKind::BASIC_LINE_STRING => 16,
            SyntaxKind::BASIC_MULTILINE_STRING => 17,
            SyntaxKind::DATE_TIME => 18,
            SyntaxKind::TRUE => 19,
            SyntaxKind::FALSE => 20,
            SyntaxKind::ERROR => 21,
            SyntaxKind::BARE_KEY => 22,
            SyntaxKind::WHITESPACE => 23,
            SyntaxKind::COMMENT => 24,
            SyntaxKind::NEWLINE => 25,
            SyntaxKind::BARE_KEY_LIKE => 26,
            SyntaxKind::DOC => 27,
            SyntaxKind::ENTRY => 28,
            SyntaxKind::KEY => 29,
            SyntaxKind::VALUE => 30,
            SyntaxKind::ARRAY => 31,
            SyntaxKind::DICT => 32,
            SyntaxKind::TABLE_HEADER => 33,
            SyntaxKind::TABLE => 34,
            SyntaxKind::ARRAY_TABLE => 35,
            SyntaxKind::ATOM_LITERAL => 36,
            SyntaxKind::__LAST => 37,
        }
    }

    /// The kind with the given raw tag; `None` when no kind has it.
    pub fn from_raw(raw: u16) -> (r: Option<SyntaxKind>)
        ensures
            raw < KIND_COUNT <==> r is Some,
            r matches Some(k) ==> k.raw() == raw as int,
    {
        match raw {
            0 => Some(SyntaxKind::TOMBSTONE),
            1 => Some(SyntaxKind::EOF),
            2 => Some(SyntaxKind::DOT),
            3 => Some(SyntaxKind::COMMA),
            4 => Some(SyntaxKind::L_BRACK),
            5 => Some(SyntaxKind::R_BRACK),
            6 => Some(SyntaxKind::L_CURLY),
            7 => Some(SyntaxKind::R_CURLY),
            8 => Some(SyntaxKind::EQ),
            9 => Some(SyntaxKind::PLUS),
            10 => Some(SyntaxKind::COLON),
            11 => Some(SyntaxKind::INT),
            12 => Some(SyntaxKind::FLOAT),
            13 => Some(SyntaxKind::STRING),
            14 => Some(SyntaxKind::LITERAL_LINE_STRING),
            15 => Some(SyntaxKind::LITERAL_MULTILINE_STRING),
            16 => Some(SyntaxKind::BASIC_LINE_STRING),
            17 => Some(SyntaxKind::BASIC_MULTILINE_STRING),
            18 => Some(SyntaxKind::DATE_TIME),
            19 => Some(SyntaxKind::TRUE),
            20 => Some(SyntaxKind::FALSE),
            21 => Some(SyntaxKind::ERROR),
            22 => Some(SyntaxKind::BARE_KEY),
            23 => Some(SyntaxKind::WHITESPACE),
            24 => Some(SyntaxKind::COMMENT),
            25 => Some(SyntaxKind::NEWLINE),
            26 => Some(SyntaxKind::BARE_KEY_LIKE),
            27 => Some(SyntaxKind::DOC),
            28 => Some(SyntaxKind::ENTRY),
            29 => Some(SyntaxKind::KEY),
            30 => Some(SyntaxKind::VALUE),
            31 => Some(SyntaxKind::ARRAY),
            32 => Some(SyntaxKind::DICT),
            33 => Some(SyntaxKind::TABLE_HEADER),
            34 => Some(SyntaxKind::TABLE),
            35 => Some(SyntaxKind::ARRAY_TABLE),
            36 => Some(SyntaxKind::ATOM_LITERAL),
            37 => Some(SyntaxKind::__LAST),
            _ => None,
        }
    }

    /// The printed name of the kind.
    pub fn name(self) -> (r: &'static str)
        ensures
            r@ == self.spec_name(),
    {
        match self {
            SyntaxKind::TOMBSTONE => "TOMBSTONE",
            SyntaxKind::EOF => "EOF",
            SyntaxKind::DOT => "DOT",
            SyntaxKind::COMMA => "COMMA",
            SyntaxKind::L_BRACK => "L_BRACK",
            SyntaxKind::R_BRACK => "R_BRACK",
            SyntaxKind::L_CURLY => "L_CURLY",
            SyntaxKind::R_CURLY => "R_CURLY",
            SyntaxKind::EQ => "EQ",
            SyntaxKind::PLUS => "PLUS",
            SyntaxKind::COLON => "COLON",
            SyntaxKind::INT => "INT",
            SyntaxKind::FLOAT => "FLOAT",
            SyntaxKind::STRING => "STRING",
            SyntaxKind::LITERAL_LINE_STRING => "LITERAL_LINE_STRING",
            SyntaxKind::LITERAL_MULTILINE_STRING => "LITERAL_MULTILINE_STRING",
            SyntaxKind::BASIC_LINE_STRING => "BASIC_LINE_STRING",
            SyntaxKind::BASIC_MULTILINE_STRING => "BASIC_MULTILINE_STRING",
            SyntaxKind::DATE_TIME => "DATE_TIME",
            SyntaxKind::TRUE => "TRUE",
            SyntaxKind::FALSE => "FALSE",
            SyntaxKind::ERROR => "ERROR",
            SyntaxKind::BARE_KEY => "BARE_KEY",
            SyntaxKind::WHITESPACE => "WHITESPACE",
            SyntaxKind::COMMENT => "COMMENT",
            SyntaxKind::NEWLINE => "NEWLINE",
            SyntaxKind::BARE_KEY_LIKE => "BARE_KEY_LIKE",
            SyntaxKind::DOC => "DOC",
            SyntaxKind::ENTRY => "ENTRY",
            SyntaxKind::KEY => "KEY",
            SyntaxKind::VALUE => "VALUE",
            SyntaxKind::ARRAY => "ARRAY",
            SyntaxKind::DICT => "DICT",
            SyntaxKind::TABLE_HEADER => "TABLE_HEADER",
            SyntaxKind::TABLE => "TABLE",
            SyntaxKind::ARRAY_TABLE => "ARRAY_TABLE",
            SyntaxKind::ATOM_LITERAL => "ATOM_LITERAL",
            SyntaxKind::__LAST => "__LAST",
        }
    }
}

/// The language of the tree: how its kinds map to the raw kinds that a
/// generic tree stores.
#[derive(Clone, Copy, PartialEq, Eq, PartialOrd, Ord, Hash, Debug)]
pub enum TomlLanguage {
    Toml,
}

impl TomlLanguage {
    /// The kind with the raw tag `raw`; a tag that no kind has stands for
    /// `TOMBSTONE`.
    pub fn kind_from_raw(raw: u16) -> (kind: SyntaxKind)
        ensures
            raw < KIND_COUNT ==> kind.raw() == raw as int,
            raw >= KIND_COUNT ==> kind == SyntaxKind::TOMBSTONE,
    {
        match SyntaxKind::from_raw(raw) {
            Some(kind) => kind,
            None => SyntaxKind::TOMBSTONE,
        }
    }

    /// The raw tag of `kind`.
    pub fn kind_to_raw(kind: SyntaxKind) -> (raw: u16)
        ensures
            raw as int == kind.raw(),
            raw < KIND_COUNT,
    {
        kind.to_raw()
    }
}

} // verus!
