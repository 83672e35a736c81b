//! The earlier document interface: `nth` demands an index in range and
//! `find` hands back a selection at once.
use vstd::prelude::*;
use crate::document::{Document, indices_from};
use crate::node::Node;
use crate::predicate::Predicate;
use crate::selection::Selection;
use crate::parse::parsed_tree;
use crate::tree::arena_of;
use vstd::string::StringSliceAdditionalSpecFns;

verus! {

/// A parsed HTML document.
pub struct Dom {
    document: Document,
}

impl Dom {
    /// The document this wraps.
    pub closed spec fn doc(&self) -> Document {
        self.document
    }

    pub open spec fn wf(&self) -> bool {
        self.doc().wf()
    }

    /// Parse `text` as an HTML document: the records are those of a
    /// pre-order walk of the parsed tree.
    pub fn from_str(text: &str) -> (r: Dom)
        requires
            text.spec_bytes().len() <= u32::MAX,
        ensures
            r.wf(),
            r.doc()@ == arena_of(parsed_tree(text@)),
    {
        Dom { document: Document::parse(text) }
    }

    /// The document this wraps.
    pub fn document(&self) -> (r: &Document)
        ensures
            *r == self.doc(),
    {
        &self.document
    }

    /// The nodes that pass `p`, as a selection.
    pub fn find<P: Predicate>(&self, p: P) -> (r: Selection<'_>)
        requires
            self.wf(),
        ensures
            r.wf(),
            r.arena() == self.doc()@,
            r.indices() == indices_from(0, self.doc()@.len() as int).filter(
                |k: int| p.holds(self.doc()@, k),
            ).to_set(),
    {
        self.document.find(p).into_selection()
    }

    /// The `n`th node, or `None` if `n` is not less than the number of
    /// nodes.
    pub fn nth(&self, n: usize) -> (r: Option<Node<'_>>)
        requires
            self.wf(),
        ensures
            match r {
                Some(node) => n < self.doc()@.len() && node.wf() && node.arena() == self.doc()@
                    && node.pos() == n,
                None => n >= self.doc()@.len(),
            },
    {
        Node::new(&self.document, n)
    }
}

} // verus!
