//! Lossless parsing of TOML-like text.
//!
//! The text is cut into tokens, a recursive-descent grammar with
//! single-token error recovery turns the significant tokens into a stream of
//! structural events, and a sink re-attaches whitespace and comments while it
//! lays the events out as a syntax tree that keeps every byte of the input.
//! Over the tree stand typed wrappers, one for each construct of the grammar.
//!
//! - [`lexer`]: the text as tokens.
//! - [`token_source`]: the significant tokens, with lookahead.
//! - [`grammar`], [`parser`]: the rules, and the parser that follows them.
//! - [`sink`]: the events of the parser with the trivia in place, as steps.
//! - [`tree`]: the tree that the steps build.
//! - [`file`]: a text with its tree and its errors, and the nodes of the tree.
//! - [`ast`], [`value`]: the typed wrappers, and the values of tokens.
//! - [`green`], [`parse`]: the same tree as a green tree of `rowan`, and the
//!   result of parsing that holds both.
//! - [`dump`]: the printed form of a tree.
//! - [`laws`]: what holds of every parse.

pub mod syntax_kind;
pub mod text;
pub mod lexer;
pub mod token_source;
pub mod event;
pub mod grammar;
pub mod parser;
pub mod syntax_error;
pub mod sink;
pub mod tree;
pub mod file;
pub mod ast;
pub mod value;
pub mod green;
pub mod parse;
pub mod dump;
pub mod laws;

pub use ast::{
    AstChildren, AstNode, AstToken, AtomLiteralKind, EntriesOwner, KeysOwner, TableHeaderOwner,
};
pub use file::{Children, CstNodeKind, NodeId, TomlFile, TomlNode};
pub use green::SyntaxTreeBuilder;
pub use parse::{parse, try_parse, Parse};
pub use syntax_error::SyntaxError;
pub use syntax_kind::{SyntaxKind, TomlLanguage};
pub use text::TextRange;
