//! The document: an arena of node records in document order.
use vstd::prelude::*;
use crate::arena::{Raw, arena_wf};
use crate::node::Node;
use crate::predicate::Predicate;

verus! {

/// An HTML document held as a flat arena of node records.
pub struct Document {
    pub(crate) nodes: Vec<Raw>,
}

impl View for Document {
    type V = Seq<Raw>;

    closed spec fn view(&self) -> Seq<Raw> {
        self.nodes@
    }
}

impl Document {
    /// The arena is consistent and laid out in document order.
    pub open spec fn wf(&self) -> bool {
        arena_wf(self@)
    }

    pub(crate) fn from_records(nodes: Vec<Raw>) -> (r: Document)
        requires
            arena_wf(nodes@),
        ensures
            r@ == nodes@,
            r.wf(),
    {
        Document { nodes }
    }

    /// The number of nodes.
    pub fn len(&self) -> (r: usize)
        ensures
            r == self@.len(),
    {
        self.nodes.len()
    }

    /// The record of the `n`th node.
    pub fn raw(&self, n: usize) -> (r: &Raw)
        requires
            n < self@.len(),
        ensures
            *r == self@[n as int],
    {
        &self.nodes[n]
    }

    /// The nodes of the whole document that pass `predicate`, in document
    /// order.
    pub fn find<P: Predicate>(&self, predicate: P) -> (r: Find<'_, P>)
        requires
            self.wf(),
        ensures
            r.wf(),
            r.arena() == self@,
            r.predicate() == predicate,
            r.remaining() == indices_from(0, self@.len() as int).filter(|k: int| predicate.holds(self@, k)),
    {
        Find { document: self, next: 0, predicate }
    }

    /// Returns the `n`th node of the document, indexed from 0, or `None` if
    /// `n` is not less than the number of nodes.
    pub fn nth(&self, n: usize) -> (r: Option<Node<'_>>)
        requires
            self.wf(),
        ensures
            match r {
                Some(node) => n < self@.len() && node.arena() == self@ && node.pos() == n
                    && node.wf(),
                None => n >= self@.len(),
            },
    {
        Node::new(self, n)
    }
}

/// The integers `lo`, `lo + 1`, ..., `hi - 1`.
pub open spec fn indices_from(lo: int, hi: int) -> Seq<int> {
    Seq::new((hi - lo) as nat, |j: int| lo + j)
}

/// The nodes of a document that pass a predicate, in document order.
pub struct Find<'a, P> {
    document: &'a Document,
    next: usize,
    predicate: P,
}

impl<'a, P: Predicate> Find<'a, P> {
    pub closed spec fn arena(&self) -> Seq<Raw> {
        self.document@
    }

    pub closed spec fn predicate(&self) -> P {
        self.predicate
    }

    /// The indices still to come.
    pub closed spec fn remaining(&self) -> Seq<int> {
        indices_from(self.next as int, self.document@.len() as int).filter(
            |k: int| self.predicate.holds(self.document@, k),
        )
    }

    pub closed spec fn wf(&self) -> bool {
        self.document.wf() && self.next <= self.document@.len()
    }

    pub(crate) fn document(&self) -> (r: &'a Document)
        requires
            self.wf(),
        ensures
            r@ == self.arena(),
            r.wf(),
    {
        self.document
    }

    /// The next node that passes the predicate, if any.
    pub fn next(&mut self) -> (r: Option<Node<'a>>)
        requires
            old(self).wf(),
        ensures
            final(self).wf(),
            final(self).arena() == old(self).arena(),
            final(self).predicate() == old(self).predicate(),
            match r {
                Some(n) => old(self).remaining().len() > 0 && n.pos() == old(self).remaining()[0]
                    && n.arena() == old(self).arena() && n.wf() && final(self).remaining()
                    == old(self).remaining().drop_first(),
                None => old(self).remaining().len() == 0 && final(self).remaining().len() == 0,
            },
    {
        let ghost s = self.document@;
        let ghost pred = |k: int| self.predicate.holds(s, k);
        while self.next < self.document.len()
            invariant
                self.wf(),
                self.document@ == s,
                s == old(self).arena(),
                self.predicate == old(self).predicate,
                pred == (|k: int| self.predicate.holds(s, k)),
                self.remaining() == old(self).remaining(),
            decreases self.document@.len() - self.next,
        {
            let k = self.next;
            let node = Node::new(self.document, k).unwrap();
            self.next = k + 1;
            let ghost before = indices_from(k as int, s.len() as int);
            let ghost after = indices_from(k + 1, s.len() as int);
            proof {
                assert(before =~= seq![k as int] + after);
                Seq::filter_distributes_over_add(seq![k as int], after, pred);
                reveal_with_fuel(Seq::filter, 2);
                assert(seq![k as int].drop_last() =~= Seq::<int>::empty());
            }
            if self.predicate.matches(&node) {
                proof {
                    assert(seq![k as int].filter(pred) =~= seq![k as int]);
                    assert(before.filter(pred) =~= seq![k as int] + after.filter(pred));
                    assert((seq![k as int] + after.filter(pred)).drop_first() =~= after.filter(pred));
                }
                return Some(node);
            }
            proof {
                assert(seq![k as int].filter(pred) =~= Seq::<int>::empty());
                assert(before.filter(pred) =~= after.filter(pred));
            }
        }
        proof {
            assert(indices_from(self.next as int, s.len() as int) =~= Seq::<int>::empty());
            reveal_with_fuel(Seq::filter, 1);
        }
        None
    }
}

} // verus!
