//! Parsing a text: the entry point, and what it returns.

use std::sync::Arc;
use vstd::prelude::*;
use vstd::string::StringSliceAdditionalSpecFns;
use crate::ast::{AstNode, Doc};
use crate::file::{lemma_parse, parse_steps, spec_steps, TomlFile, TomlNode};
use crate::green::{build_green, green_clone, green_of, green_steps, GreenStep};
use crate::syntax_error::SyntaxError;

verus! {

/// `Arc::clone` of std: another pointer to the same value.
#[verifier::external_body]
fn arc_clone(arc: &Arc<TomlFile>) -> (copy: Arc<TomlFile>)
    ensures
        *copy == **arc,
{
    arc.clone()
}

/// The result of parsing: the syntax tree, also as a green tree of `rowan`,
/// and the syntax errors. There is a tree for every text. A copy shares the
/// trees with what it is a copy of, and can be handed to another thread.
pub struct Parse {
    green: rowan::GreenNode,
    file: Arc<TomlFile>,
}

impl Clone for Parse {
    fn clone(&self) -> (copy: Self)
        ensures
            copy.file() == self.file(),
            copy.green_view() == self.green_view(),
    {
        proof {
            use_type_invariant(self);
        }
        Parse { green: green_clone(&self.green), file: arc_clone(&self.file) }
    }
}

impl Parse {
    /// The text with its tree and its errors.
    pub closed spec fn file(&self) -> TomlFile {
        *self.file
    }

    /// The calls that build the green tree.
    pub closed spec fn green_view(&self) -> Seq<GreenStep> {
        green_steps(self.green)
    }

    /// The file is well formed and is the parse of its text, and the green
    /// tree is built by the same steps as the tree of the file.
    pub open spec fn wf(&self) -> bool {
        &&& self.file().wf()
        &&& self.file().parsed()
        &&& self.green_view() == green_of(spec_steps(self.file().bytes()), self.file().bytes())
    }

    /// Every parse is well formed.
    #[verifier::type_invariant]
    pub open spec fn inv(&self) -> bool {
        self.wf()
    }

    /// The root of the tree.
    pub fn syntax_node(&self) -> (root: TomlNode<'_>)
        ensures
            root.wf(),
            root.file() == self.file(),
            root.index() == 0,
    {
        proof {
            use_type_invariant(&*self);
        }
        self.file.parse_tree()
    }

    /// The document: the typed root of the tree.
    pub fn tree(&self) -> (doc: Doc<'_>)
        ensures
            doc.spec_syntax().wf(),
            doc.spec_syntax().file() == self.file(),
            doc.spec_syntax().index() == 0,
    {
        proof {
            use_type_invariant(&*self);
        }
        self.file.ast()
    }

    /// The syntax errors, in the order in which they were met.
    pub fn errors(&self) -> (errors: &Vec<SyntaxError>)
        ensures
            errors@ == self.file().spec_errors(),
    {
        self.file.errors()
    }

    /// The document where the text has no syntax error, else the errors.
    pub fn ok(&self) -> (r: Result<Doc<'_>, &Vec<SyntaxError>>)
        ensures
            r is Ok <==> self.file().spec_errors().len() == 0,
            r matches Ok(doc) ==> doc.spec_syntax().wf() && doc.spec_syntax().file() == self.file()
                && doc.spec_syntax().index() == 0,
            r matches Err(errors) ==> errors@ == self.file().spec_errors(),
    {
        proof {
            use_type_invariant(&*self);
        }
        if self.file.errors().len() == 0 {
            Ok(self.tree())
        } else {
            Err(self.file.errors())
        }
    }

    /// The green tree of `rowan`.
    pub fn green(&self) -> (green: &rowan::GreenNode)
        ensures
            green_steps(*green) == self.green_view(),
    {
        &self.green
    }

    /// The text with its tree and its errors.
    pub fn toml_file(&self) -> (file: &TomlFile)
        ensures
            *file == self.file(),
    {
        &*self.file
    }
}

/// Parses `text`, whose length must be addressable in 32 bits.
pub fn parse(text: &str) -> (r: Parse)
    requires
        text.spec_bytes().len() <= u32::MAX,
    ensures
        r.wf(),
        r.file().text_view() == text@,
{
    let (steps, errors) = parse_steps(text);
    proof {
        lemma_parse(text.spec_bytes());
    }
    let green = build_green(text, steps.as_slice());
    let file = TomlFile::from_steps(text.to_owned(), steps.as_slice(), errors);
    Parse { green, file: Arc::new(file) }
}

/// Parses `text`; `None` where the text is too long for `parse`.
pub fn try_parse(text: &str) -> (r: Option<Parse>)
    ensures
        r is Some <==> text.spec_bytes().len() <= u32::MAX,
        r matches Some(p) ==> p.wf() && p.file().text_view() == text@,
{
    if text.as_bytes().len() <= 0xffff_ffff {
        Some(parse(text))
    } else {
        None
    }
}

} // verus!
