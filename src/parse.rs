//! Parsing markup into a document: html5ever parses the text into a tree,
//! which is taken over as plain values and walked into an arena.
use vstd::prelude::*;
use std::rc::Rc;
use html5ever::tendril::TendrilSink;
use html5ever::QualName as MarkupName;
use markup5ever_rcdom::{NodeData, RcDom};
use markup5ever_rcdom::Node as TreeNode;
use crate::arena::QualName;
use crate::document::Document;
use crate::tree::{Tree, TreeKind, arena_of};
use vstd::string::StringSliceAdditionalSpecFns;

verus! {

#[verifier::external_type_specification]
#[verifier::external_body]
pub struct ExTreeNode(TreeNode);

#[verifier::external_type_specification]
#[verifier::external_body]
pub struct ExMarkupName(MarkupName);

/// The tree that html5ever's HTML parser builds for `text`.
pub uninterp spec fn parsed_tree(text: Seq<char>) -> Tree;

/// Part of the conversion in `parse_to_tree`: a qualified name as strings.
#[verifier::external_body]
fn name_of(n: &MarkupName) -> QualName {
    QualName {
        prefix: n.prefix.as_ref().map(|p| p.to_string()),
        ns: n.ns.to_string(),
        local: n.local.to_string(),
    }
}

/// Part of the conversion in `parse_to_tree`: what one tree node is, with
/// the name and attributes (in source order) of an element.
#[verifier::external_body]
fn kind_of(h: &Rc<TreeNode>) -> TreeKind {
    match &h.data {
        NodeData::Document => TreeKind::Document,
        NodeData::Element { name, attrs, .. } => TreeKind::Element(
            name_of(name),
            attrs.borrow().iter().map(|a| (name_of(&a.name), a.value.to_string())).collect(),
        ),
        NodeData::Text { contents } => TreeKind::Text(contents.borrow().to_string()),
        NodeData::Comment { contents } => TreeKind::Comment(contents.to_string()),
        _ => TreeKind::Other,
    }
}

/// Part of the conversion in `parse_to_tree`: a tree node and, in order,
/// its children.
#[verifier::external_body]
fn tree_of(h: &Rc<TreeNode>) -> Tree {
    Tree { kind: kind_of(h), children: h.children.borrow().iter().map(tree_of).collect() }
}

/// Relies on `html5ever::parse_document` with the `RcDom` sink: the tree it
/// builds depends on the text alone. It turns the text into a tendril,
/// which holds at most `u32::MAX` bytes. The tree is converted while the
/// `RcDom` still owns it.
#[verifier::external_body]
fn parse_to_tree(text: &str) -> (r: Tree)
    requires
        text.spec_bytes().len() <= u32::MAX,
    ensures
        r == parsed_tree(text@),
{
    let dom = html5ever::parse_document(RcDom::default(), Default::default()).one(text);
    tree_of(&dom.document)
}

impl Document {
    /// Parse `text` as an HTML document: the records are those of a
    /// pre-order walk of the parsed tree, in which elements, text and
    /// comments each add one and the document node and document-type
    /// declarations add none.
    pub fn parse(text: &str) -> (r: Document)
        requires
            text.spec_bytes().len() <= u32::MAX,
        ensures
            r.wf(),
            r@ == arena_of(parsed_tree(text@)),
    {
        Document::from_tree(parse_to_tree(text))
    }
}

impl<'a> From<&'a str> for Document {
    /// Parses the given text into a `Document`; a text of more than
    /// `u32::MAX` bytes, which the parser cannot take, gives an empty one.
    fn from(text: &'a str) -> (r: Document)
        ensures
            r.wf(),
            text.spec_bytes().len() <= u32::MAX ==> r@ == arena_of(parsed_tree(text@)),
            text.spec_bytes().len() > u32::MAX ==> r@.len() == 0,
    {
        if text.as_bytes().len() <= 0xffff_ffff {
            Document::parse(text)
        } else {
            crate::builder::Builder::new().finish()
        }
    }
}

impl<'a> vstd::std_specs::convert::FromSpecImpl<&'a str> for Document {
    open spec fn obeys_from_spec() -> bool {
        false
    }

    open spec fn from_spec(v: &'a str) -> Document {
        arbitrary()
    }
}

} // verus!
