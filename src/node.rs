//! Node handles and the traversals over the arena's links.
use vstd::prelude::*;
use crate::arena::{
    Data, QualName, Raw, arena_wf, descendants_from, descendants_of, in_subtree, is_ancestor,
    lemma_ancestor_chain, lemma_ancestor_lt, lemma_ancestor_trans, lemma_below_next_is_child,
    lemma_first_child_follows, lemma_next_after_subtree, lemma_next_of_leaf_follows,
    lemma_sibling_not_below, lemma_subtree_contiguous, node_wf,
};
use vstd::string::StrSliceExecFns;
use vstd::string::StringExecFns;
use crate::strings::str_eq;
use crate::predicate::Predicate;
use crate::document::Document;

verus! {

/// A single node of a document: an element, a comment or a text node.
#[derive(Clone, Copy)]
pub struct Node<'a> {
    document: &'a Document,
    index: usize,
}

/// The text a record contributes to `text()`: its own for a text node.
pub open spec fn own_text(s: Seq<Raw>, i: int) -> Seq<char> {
    match s[i].data {
        Data::Text(t) => t@,
        _ => Seq::empty(),
    }
}

/// The texts of the records `ks`, joined in that order.
pub open spec fn joined_text(s: Seq<Raw>, ks: Seq<int>) -> Seq<char>
    decreases ks.len(),
{
    if ks.len() == 0 {
        Seq::empty()
    } else {
        joined_text(s, ks.drop_last()) + own_text(s, ks.last())
    }
}

/// The text of node `i` and of all its descendants, in document order.
pub open spec fn text_of(s: Seq<Raw>, i: int) -> Seq<char> {
    joined_text(s, seq![i] + descendants_of(s, i))
}

/// The sibling chain that starts at `k`.
pub open spec fn siblings_from(s: Seq<Raw>, k: int) -> Seq<int>
    decreases s.len() - k,
{
    if 0 <= k < s.len() {
        match s[k].next {
            Some(q) => if k < q && q < s.len() {
                seq![k] + siblings_from(s, q as int)
            } else {
                seq![k]
            },
            None => seq![k],
        }
    } else {
        Seq::empty()
    }
}

/// The children of `i`, in document order.
pub open spec fn children_of(s: Seq<Raw>, i: int) -> Seq<int> {
    match s[i].first_child {
        Some(c) => siblings_from(s, c as int),
        None => Seq::empty(),
    }
}

/// The tag name of record `i`, if it is an element.
pub open spec fn name_of(s: Seq<Raw>, i: int) -> Option<Seq<char>> {
    match s[i].data {
        Data::Element(n, _) => Some(n.local@),
        _ => None,
    }
}

/// The value of the first attribute in `attrs` whose local name is `name`.
pub open spec fn first_attr(attrs: Seq<(QualName, String)>, name: Seq<char>) -> Option<Seq<char>>
    decreases attrs.len(),
{
    if attrs.len() == 0 {
        None
    } else if attrs[0].0.local@ == name {
        Some(attrs[0].1@)
    } else {
        first_attr(attrs.drop_first(), name)
    }
}

/// The value of attribute `name` of record `i`; none for a non-element.
pub open spec fn attr_of(s: Seq<Raw>, i: int, name: Seq<char>) -> Option<Seq<char>> {
    match s[i].data {
        Data::Element(_, attrs) => first_attr(attrs@, name),
        _ => None,
    }
}

/// The optional link `o` as a handle of the same document.
pub open spec fn link_is<'a>(r: Option<Node<'a>>, of: Node<'a>, o: Option<usize>) -> bool {
    match o {
        Some(j) => r matches Some(n) && n.arena() == of.arena() && n.pos() == j && n.wf(),
        None => r is None,
    }
}

pub proof fn lemma_descendants_none(s: Seq<Raw>, a: int, lo: int)
    requires
        forall|k: int| lo <= k < s.len() ==> !is_ancestor(s, a, k),
    ensures
        descendants_from(s, a, lo) == Seq::<int>::empty(),
    decreases s.len() - lo,
{
    if lo < s.len() {
        lemma_descendants_none(s, a, lo + 1);
    }
}

/// Climbing from a leaf `c` that has no next sibling, through `u`.
proof fn lemma_leaf_successor(s: Seq<Raw>, c: int, u: int)
    requires
        arena_wf(s),
        0 <= u,
        0 <= c,
        c + 1 < s.len(),
        s[c].first_child is None,
        s[c].next is None,
        in_subtree(s, u, c),
        s[u].next is None,
        !is_ancestor(s, u, c + 1),
    ensures
        s[c + 1].prev matches Some(a) && is_ancestor(s, a as int, u),
{
    assert(node_wf(s, c + 1));
    assert(node_wf(s, c));
    if s[c + 1].parent == Some(c as usize) && s[c + 1].prev is None {
        assert(false);
    }
    let a = s[c + 1].prev.unwrap() as int;
    assert(node_wf(s, a));
    if u != c {
        lemma_ancestor_chain(s, a, u, c);
        if is_ancestor(s, u, a) {
            lemma_ancestor_lt(s, u, a);
        }
    }
}

/// One climbing step of the descendants walk.
proof fn lemma_climb(s: Seq<Raw>, start: int, c: int, u: int)
    requires
        arena_wf(s),
        0 <= start,
        0 <= u < s.len(),
        0 <= c < s.len(),
        s[c].first_child is None,
        s[c].next is None,
        in_subtree(s, u, c),
        is_ancestor(s, start, u),
        s[u].next is None,
        !(c + 1 < s.len() && is_ancestor(s, u, c + 1)),
    ensures
        s[u].parent is Some,
        ({
            let p = s[u].parent.unwrap() as int;
            &&& p < u
            &&& p == start ==> forall|k: int| c < k < s.len() ==> !is_ancestor(s, start, k)
            &&& p != start && s[p].next is Some ==> s[p].next.unwrap() as int == c + 1 && c + 1
                < s.len() && is_ancestor(s, start, c + 1)
            &&& p != start && s[p].next is None ==> in_subtree(s, p, c) && is_ancestor(s, start, p)
                && !(c + 1 < s.len() && is_ancestor(s, p, c + 1))
        }),
{
    let p = s[u].parent.unwrap() as int;
    assert(node_wf(s, u));
    assert(is_ancestor(s, p, u));
    assert(is_ancestor(s, p, c)) by {
        if u != c {
            lemma_ancestor_trans(s, p, u, c);
        }
    }
    if p == start {
        assert forall|k: int| c < k < s.len() implies !is_ancestor(s, start, k) by {
            if is_ancestor(s, start, k) {
                lemma_ancestor_lt(s, start, c);
                if c + 1 < k {
                    lemma_subtree_contiguous(s, start, k, c + 1);
                }
                lemma_leaf_successor(s, c, u);
                let a = s[c + 1].prev.unwrap() as int;
                assert(node_wf(s, c + 1));
                assert(node_wf(s, a));
                if a != start {
                    lemma_ancestor_lt(s, a, start);
                }
                let pa = s[c + 1].parent.unwrap() as int;
                if pa != start {
                    lemma_ancestor_lt(s, start, pa);
                }
            }
        }
    } else {
        assert(is_ancestor(s, start, p));
        if s[p].next is Some {
            let q = s[p].next.unwrap() as int;
            lemma_next_after_subtree(s, p, c);
            assert(node_wf(s, p));
            assert(node_wf(s, q));
            lemma_leaf_successor(s, c, u);
            let a = s[c + 1].prev.unwrap() as int;
            assert(node_wf(s, c + 1));
            assert(node_wf(s, a));
            if a != p {
                assert(is_ancestor(s, a, p));
                assert(is_ancestor(s, a, q));
                lemma_ancestor_lt(s, a, c);
                if c + 1 < q {
                    lemma_subtree_contiguous(s, a, q, c + 1);
                }
                lemma_sibling_not_below(s, a);
            }
            assert(is_ancestor(s, start, q));
        } else {
            if c + 1 < s.len() && is_ancestor(s, p, c + 1) {
                lemma_leaf_successor(s, c, u);
                let a = s[c + 1].prev.unwrap() as int;
                assert(node_wf(s, c + 1));
                assert(node_wf(s, a));
                if a != p {
                    lemma_ancestor_trans(s, a, p, c + 1);
                    lemma_sibling_not_below(s, a);
                }
            }
        }
    }
}

impl<'a> Node<'a> {
    /// The arena of the document this node belongs to.
    pub closed spec fn arena(&self) -> Seq<Raw> {
        self.document@
    }

    /// The position of this node in its arena.
    pub closed spec fn pos(&self) -> int {
        self.index as int
    }

    /// The document is well formed and holds this node.
    pub open spec fn wf(&self) -> bool {
        arena_wf(self.arena()) && 0 <= self.pos() < self.arena().len()
    }

    /// The record of this node.
    pub open spec fn rec(&self) -> Raw {
        self.arena()[self.pos()]
    }

    /// Create a Node referring to the `index`th node of a document.
    pub fn new(document: &'a Document, index: usize) -> (r: Option<Node<'a>>)
        requires
            document.wf(),
        ensures
            match r {
                Some(n) => index < document@.len() && n.arena() == document@ && n.pos() == index
                    && n.wf(),
                None => index >= document@.len(),
            },
    {
        if index < document.len() {
            Some(Node { document, index })
        } else {
            None
        }
    }

    fn at(&self, o: Option<usize>) -> (r: Option<Node<'a>>)
        requires
            self.wf(),
            o matches Some(j) ==> j < self.arena().len(),
        ensures
            link_is(r, *self, o),
    {
        match o {
            Some(j) => Some(Node { document: self.document, index: j }),
            None => None,
        }
    }

    /// The document this node belongs to.
    pub fn document(&self) -> (r: &'a Document)
        ensures
            r@ == self.arena(),
    {
        self.document
    }

    /// The number of nodes of this node's document.
    pub fn document_len(&self) -> (r: usize)
        ensures
            r == self.arena().len(),
    {
        self.document.len()
    }

    /// Get the index of this Node in its Document.
    pub fn index(&self) -> (r: usize)
        ensures
            r == self.pos(),
    {
        self.index
    }

    /// Obtain the inner representation of this Node.
    pub fn raw(&self) -> (r: &'a Raw)
        requires
            self.wf(),
        ensures
            *r == self.rec(),
    {
        self.document.raw(self.index)
    }

    /// Get the text node, HTML element, or comment from a Node.
    pub fn data(&self) -> (r: &'a Data)
        requires
            self.wf(),
        ensures
            *r == self.rec().data,
    {
        &self.raw().data
    }

    /// Get the name of a Node if it is an HTML element, or None otherwise.
    pub fn name(&self) -> (r: Option<&'a str>)
        requires
            self.wf(),
        ensures
            match r {
                Some(x) => name_of(self.arena(), self.pos()) == Some(x@),
                None => name_of(self.arena(), self.pos()) is None,
            },
    {
        match self.data() {
            Data::Element(name, _) => Some(name.local.as_str()),
            _ => None,
        }
    }

    /// Get the value of the first attribute whose local name is `name`, or
    /// None if there is none or this is not an element.
    pub fn attr(&self, name: &str) -> (r: Option<&'a str>)
        requires
            self.wf(),
        ensures
            match r {
                Some(x) => attr_of(self.arena(), self.pos(), name@) == Some(x@),
                None => attr_of(self.arena(), self.pos(), name@) is None,
            },
    {
        match self.data() {
            Data::Element(_, attrs) => {
                let mut i: usize = 0;
                proof {
                    assert(attrs@.subrange(0, attrs@.len() as int) =~= attrs@);
                    assert(attr_of(self.arena(), self.pos(), name@) == first_attr(attrs@, name@));
                }
                while i < attrs.len()
                    invariant
                        i <= attrs@.len(),
                        attr_of(self.arena(), self.pos(), name@) == first_attr(attrs@, name@),
                        first_attr(attrs@, name@) == first_attr(attrs@.subrange(i as int, attrs@.len() as int), name@),
                    decreases attrs.len() - i,
                {
                    let ghost rest = attrs@.subrange(i as int, attrs@.len() as int);
                    if str_eq(attrs[i].0.local.as_str(), name) {
                        proof {
                            assert(rest[0] == attrs@[i as int]);
                            assert(rest.len() > 0);
                            assert(rest[0].0.local@ == name@);
                            assert(first_attr(rest, name@) == Some(rest[0].1@));
                            assert(first_attr(attrs@, name@) == Some(rest[0].1@));
                        }
                        return Some(attrs[i].1.as_str());
                    }
                    proof {
                        assert(rest.drop_first() =~= attrs@.subrange(i + 1, attrs@.len() as int));
                    }
                    i = i + 1;
                }
                proof {
                    assert(attrs@.subrange(i as int, attrs@.len() as int) =~= Seq::<(QualName, String)>::empty());
                }
                None
            },
            _ => None,
        }
    }

    /// Get the names and values of the attributes of an element, in source
    /// order; empty for other nodes.
    pub fn attrs(&self) -> (r: Vec<(&'a str, &'a str)>)
        requires
            self.wf(),
        ensures
            match self.rec().data {
                Data::Element(_, attrs) => r@.len() == attrs@.len() && forall|k: int|
                    0 <= k < r@.len() ==> (#[trigger] r@[k]).0@ == attrs@[k].0.local@ && r@[k].1@
                        == attrs@[k].1@,
                _ => r@.len() == 0,
            },
    {
        let mut out: Vec<(&'a str, &'a str)> = Vec::new();
        match self.data() {
            Data::Element(_, attrs) => {
                let mut i: usize = 0;
                while i < attrs.len()
                    invariant
                        i <= attrs@.len(),
                        out@.len() == i,
                        forall|k: int|
                            0 <= k < i ==> (#[trigger] out@[k]).0@ == attrs@[k].0.local@ && out@[k].1@
                                == attrs@[k].1@,
                    decreases attrs.len() - i,
                {
                    out.push((attrs[i].0.local.as_str(), attrs[i].1.as_str()));
                    i = i + 1;
                }
            },
            _ => {},
        }
        out
    }

    pub fn parent(&self) -> (r: Option<Node<'a>>)
        requires
            self.wf(),
        ensures
            link_is(r, *self, self.rec().parent),
    {
        proof {
            assert(node_wf(self.arena(), self.pos()));
        }
        self.at(self.raw().parent)
    }

    pub fn prev(&self) -> (r: Option<Node<'a>>)
        requires
            self.wf(),
        ensures
            link_is(r, *self, self.rec().prev),
    {
        proof {
            assert(node_wf(self.arena(), self.pos()));
        }
        self.at(self.raw().prev)
    }

    pub fn next(&self) -> (r: Option<Node<'a>>)
        requires
            self.wf(),
        ensures
            link_is(r, *self, self.rec().next),
    {
        proof {
            assert(node_wf(self.arena(), self.pos()));
        }
        self.at(self.raw().next)
    }

    pub fn first_child(&self) -> (r: Option<Node<'a>>)
        requires
            self.wf(),
        ensures
            link_is(r, *self, self.rec().first_child),
    {
        proof {
            assert(node_wf(self.arena(), self.pos()));
        }
        self.at(self.raw().first_child)
    }

    pub fn last_child(&self) -> (r: Option<Node<'a>>)
        requires
            self.wf(),
        ensures
            link_is(r, *self, self.rec().last_child),
    {
        proof {
            assert(node_wf(self.arena(), self.pos()));
        }
        self.at(self.raw().last_child)
    }

    /// Get the text of a text Node, or None if the node is not text.
    pub fn as_text(&self) -> (r: Option<&'a str>)
        requires
            self.wf(),
        ensures
            match r {
                Some(t) => self.rec().data matches Data::Text(x) && x@ == t@,
                None => !(self.rec().data is Text),
            },
    {
        match self.data() {
            Data::Text(t) => Some(t.as_str()),
            _ => None,
        }
    }

    /// Get the text of a comment Node, or None if the node is not a comment.
    pub fn as_comment(&self) -> (r: Option<&'a str>)
        requires
            self.wf(),
        ensures
            match r {
                Some(t) => self.rec().data matches Data::Comment(x) && x@ == t@,
                None => !(self.rec().data is Comment),
            },
    {
        match self.data() {
            Data::Comment(t) => Some(t.as_str()),
            _ => None,
        }
    }

    /// Construct an iterator over a Node's child Nodes.
    pub fn children(&self) -> (r: Children<'a>)
        requires
            self.wf(),
        ensures
            r.wf(),
            r.arena() == self.arena(),
            r.remaining() == children_of(self.arena(), self.pos()),
    {
        proof {
            assert(node_wf(self.arena(), self.pos()));
        }
        Children { document: self.document, next: self.raw().first_child }
    }

    /// Construct an iterator over a Node's descendants (transitive children),
    /// in document order.
    pub fn descendants(&self) -> (r: Descendants<'a>)
        requires
            self.wf(),
        ensures
            r.wf(),
            r.arena() == self.arena(),
            r.start() == self.pos(),
            r.remaining() == descendants_of(self.arena(), self.pos()),
    {
        Descendants { document: self.document, start: self.index, current: self.index, done: false }
    }

    /// Evaluate a predicate on this Node.
    pub fn is<P: Predicate>(&self, p: P) -> (r: bool)
        requires
            self.wf(),
        ensures
            r == p.holds(self.arena(), self.pos()),
    {
        p.matches(self)
    }

    /// Search the descendants of this Node, in document order, for those
    /// that pass `predicate`.
    pub fn find<P: Predicate>(&self, predicate: P) -> (r: Find<'a, P>)
        requires
            self.wf(),
        ensures
            r.wf(),
            r.arena() == self.arena(),
            r.predicate() == predicate,
            r.remaining() == descendants_of(self.arena(), self.pos()).filter(
                |k: int| predicate.holds(self.arena(), k),
            ),
    {
        Find { descendants: self.descendants(), predicate }
    }

    /// Get the combined textual content of a Node and all of its descendants.
    pub fn text(&self) -> (r: String)
        requires
            self.wf(),
        ensures
            r@ == text_of(self.arena(), self.pos()),
    {
        let ghost s = self.arena();
        let mut out = String::new();
        if let Some(t) = self.as_text() {
            out.append(t);
        }
        let mut it = self.descendants();
        let ghost seen: Seq<int> = seq![self.pos()];
        proof {
            assert(joined_text(s, seq![self.pos()]) == own_text(s, self.pos())) by {
                assert(seq![self.pos()].drop_last() =~= Seq::<int>::empty());
                reveal_with_fuel(joined_text, 2);
            }
        }
        loop
            invariant
                it.wf(),
                it.arena() == s,
                s == self.arena(),
                arena_wf(s),
                seen + it.remaining() =~= seq![self.pos()] + descendants_of(s, self.pos()),
                out@ == joined_text(s, seen),
            decreases it.remaining().len(),
        {
            let ghost before = it.remaining();
            match it.next() {
                Some(n) => {
                    if let Some(t) = n.as_text() {
                        out.append(t);
                    }
                    proof {
                        let seen2 = seen.push(n.pos());
                        assert(seen2.drop_last() =~= seen);
                        assert(seen2 + it.remaining() =~= seen + before);
                        seen = seen2;
                    }
                },
                None => {
                    proof {
                        assert(seen + before =~= seen);
                    }
                    return out;
                },
            }
        }
    }
}

/// An iterator over the children of a node.
pub struct Children<'a> {
    document: &'a Document,
    next: Option<usize>,
}

impl<'a> Children<'a> {
    pub closed spec fn arena(&self) -> Seq<Raw> {
        self.document@
    }

    pub(crate) fn document(&self) -> (r: &'a Document)
        requires
            self.wf(),
        ensures
            r@ == self.arena(),
            r.wf(),
    {
        self.document
    }

    /// The indices still to come.
    pub closed spec fn remaining(&self) -> Seq<int> {
        match self.next {
            Some(k) => siblings_from(self.document@, k as int),
            None => Seq::empty(),
        }
    }

    pub closed spec fn wf(&self) -> bool {
        arena_wf(self.document@) && (self.next matches Some(k) ==> k < self.document@.len())
    }

    /// The next child, if any.
    pub fn next(&mut self) -> (r: Option<Node<'a>>)
        requires
            old(self).wf(),
        ensures
            final(self).wf(),
            final(self).arena() == old(self).arena(),
            match r {
                Some(n) => old(self).remaining().len() > 0 && n.pos() == old(self).remaining()[0]
                    && n.arena() == old(self).arena() && n.wf() && final(self).remaining()
                    == old(self).remaining().drop_first(),
                None => old(self).remaining().len() == 0 && final(self).remaining().len() == 0,
            },
    {
        match self.next {
            Some(k) => {
                let ghost s = self.document@;
                proof {
                    assert(node_wf(s, k as int));
                }
                let r = Node { document: self.document, index: k };
                self.next = self.document.raw(k).next;
                proof {
                    let rest = siblings_from(s, k as int);
                    assert(rest.drop_first() =~= self.remaining());
                }
                Some(r)
            },
            None => None,
        }
    }
}

/// A pre-order walk over the strict descendants of a node, guided only by
/// the arena's links.
pub struct Descendants<'a> {
    document: &'a Document,
    start: usize,
    current: usize,
    done: bool,
}

impl<'a> Descendants<'a> {
    pub closed spec fn arena(&self) -> Seq<Raw> {
        self.document@
    }

    pub(crate) fn document(&self) -> (r: &'a Document)
        requires
            self.wf(),
        ensures
            r@ == self.arena(),
            r.wf(),
    {
        self.document
    }

    /// The node whose descendants are walked.
    pub closed spec fn start(&self) -> int {
        self.start as int
    }

    /// The indices still to come.
    pub closed spec fn remaining(&self) -> Seq<int> {
        if self.done {
            Seq::empty()
        } else {
            descendants_from(self.document@, self.start as int, self.current + 1)
        }
    }

    pub closed spec fn wf(&self) -> bool {
        &&& arena_wf(self.document@)
        &&& self.current < self.document@.len()
        &&& in_subtree(self.document@, self.start as int, self.current as int)
    }

    /// The next descendant in document order, if any.
    pub fn next(&mut self) -> (r: Option<Node<'a>>)
        requires
            old(self).wf(),
        ensures
            final(self).wf(),
            final(self).arena() == old(self).arena(),
            final(self).start() == old(self).start(),
            match r {
                Some(n) => old(self).remaining().len() > 0 && n.pos() == old(self).remaining()[0]
                    && n.arena() == old(self).arena() && n.wf() && final(self).remaining()
                    == old(self).remaining().drop_first(),
                None => old(self).remaining().len() == 0 && final(self).remaining().len() == 0,
            },
    {
        if self.done {
            return None;
        }
        let ghost s = self.document@;
        let start = self.start;
        let c = self.current;
        let rc = self.document.raw(c);
        proof {
            assert(node_wf(s, c as int));
        }
        if let Some(x) = rc.first_child {
            proof {
                lemma_first_child_follows(s, c as int);
                assert(node_wf(s, x as int));
                assert(is_ancestor(s, c as int, x as int));
                if c != start {
                    lemma_ancestor_trans(s, start as int, c as int, x as int);
                }
            }
            self.current = x;
            return Some(Node { document: self.document, index: x });
        }
        if c == start {
            proof {
                assert forall|k: int| c < k < s.len() implies !is_ancestor(s, start as int, k) by {
                    if is_ancestor(s, start as int, k) {
                        if c + 1 < k {
                            lemma_subtree_contiguous(s, start as int, k, c + 1);
                        }
                        lemma_below_next_is_child(s, c as int);
                    }
                }
                lemma_descendants_none(s, start as int, c + 1);
            }
            self.done = true;
            return None;
        }
        if let Some(q) = rc.next {
            proof {
                lemma_next_of_leaf_follows(s, c as int);
                assert(node_wf(s, q as int));
                let p = s[c as int].parent.unwrap() as int;
                assert(node_wf(s, p));
                assert(is_ancestor(s, start as int, q as int));
            }
            self.current = q;
            return Some(Node { document: self.document, index: q });
        }
        let mut u = c;
        proof {
            if c + 1 < s.len() && is_ancestor(s, c as int, c + 1) {
                lemma_below_next_is_child(s, c as int);
            }
        }
        loop
            invariant
                arena_wf(s),
                s == self.document@,
                s == old(self).document@,
                self.start == old(self).start,
                in_subtree(s, start as int, c as int),
                !self.done,
                self.start == start,
                self.current == c,
                old(self).current == c,
                !old(self).done,
                c < s.len(),
                u < s.len(),
                s[c as int].first_child is None,
                s[c as int].next is None,
                in_subtree(s, u as int, c as int),
                is_ancestor(s, start as int, u as int),
                s[u as int].next is None,
                !(c + 1 < s.len() && is_ancestor(s, u as int, c + 1)),
            decreases u,
        {
            proof {
                lemma_climb(s, start as int, c as int, u as int);
            }
            let p = self.document.raw(u).parent.unwrap();
            if p == start {
                proof {
                    lemma_descendants_none(s, start as int, c + 1);
                    assert(descendants_from(s, start as int, c + 1).len() == 0);
                    assert(old(self).remaining() == descendants_from(s, start as int, c + 1));
                }
                self.done = true;
                return None;
            }
            if let Some(q) = self.document.raw(p).next {
                proof {
                    assert(node_wf(s, p as int));
                    assert(node_wf(s, q as int));
                    assert(q as int == c + 1);
                    assert(is_ancestor(s, start as int, c + 1));
                    assert(in_subtree(s, start as int, q as int));
                }
                self.current = q;
                return Some(Node { document: self.document, index: q });
            }
            u = p;
        }
    }
}

/// The descendants of a node that pass a predicate, in document order.
pub struct Find<'a, P> {
    descendants: Descendants<'a>,
    predicate: P,
}

impl<'a, P: Predicate> Find<'a, P> {
    pub closed spec fn arena(&self) -> Seq<Raw> {
        self.descendants.arena()
    }

    pub closed spec fn predicate(&self) -> P {
        self.predicate
    }

    /// The indices still to come.
    pub closed spec fn remaining(&self) -> Seq<int> {
        self.descendants.remaining().filter(|k: int| self.predicate.holds(self.descendants.arena(), k))
    }

    pub closed spec fn wf(&self) -> bool {
        self.descendants.wf()
    }

    pub(crate) fn document(&self) -> (r: &'a Document)
        requires
            self.wf(),
        ensures
            r@ == self.arena(),
            r.wf(),
    {
        self.descendants.document()
    }

    /// The next descendant that passes the predicate, if any.
    pub fn next(&mut self) -> (r: Option<Node<'a>>)
        requires
            old(self).wf(),
        ensures
            final(self).wf(),
            final(self).arena() == old(self).arena(),
            final(self).predicate() == old(self).predicate(),
            match r {
                Some(n) => old(self).remaining().len() > 0 && n.pos() == old(self).remaining()[0]
                    && n.arena() == old(self).arena() && n.wf() && final(self).remaining()
                    == old(self).remaining().drop_first(),
                None => old(self).remaining().len() == 0 && final(self).remaining().len() == 0,
            },
    {
        let ghost s = self.arena();
        let ghost pred = |k: int| self.predicate.holds(s, k);
        loop
            invariant
                self.wf(),
                self.arena() == s,
                s == old(self).arena(),
                self.predicate == old(self).predicate,
                pred == (|k: int| self.predicate.holds(s, k)),
                self.remaining() == old(self).remaining(),
            decreases self.descendants.remaining().len(),
        {
            let ghost before = self.descendants.remaining();
            match self.descendants.next() {
                Some(n) => {
                    let ghost after = self.descendants.remaining();
                    proof {
                        assert(before =~= seq![n.pos()] + after);
                        Seq::filter_distributes_over_add(seq![n.pos()], after, pred);
                        reveal_with_fuel(Seq::filter, 2);
                        assert(seq![n.pos()].drop_last() =~= Seq::<int>::empty());
                    }
                    if self.predicate.matches(&n) {
                        proof {
                            assert(seq![n.pos()].filter(pred) =~= seq![n.pos()]);
                            assert(before.filter(pred) =~= seq![n.pos()] + after.filter(pred));
                            assert((seq![n.pos()] + after.filter(pred)).drop_first() =~= after.filter(pred));
                        }
                        return Some(n);
                    }
                    proof {
                        assert(seq![n.pos()].filter(pred) =~= Seq::<int>::empty());
                        assert(before.filter(pred) =~= after.filter(pred));
                    }
                },
                None => {
                    return None;
                },
            }
        }
    }
}

} // verus!
