//! Building an arena from a pre-order, parent-before-children delivery of a
//! parse tree: elements are opened and closed around their children, text
//! and comments are leaves.
use vstd::prelude::*;
use crate::arena::{
    Data, QualName, Raw, arena_wf, in_subtree, is_ancestor, lemma_ancestor_lt,
    lemma_ancestor_trans, node_wf,
};
use crate::document::Document;

verus! {

/// `r` with `n` added as its last child.
pub open spec fn with_child(r: Raw, n: usize) -> Raw {
    Raw {
        index: r.index,
        parent: r.parent,
        prev: r.prev,
        next: r.next,
        first_child: if r.first_child is None {
            Some(n)
        } else {
            r.first_child
        },
        last_child: Some(n),
        data: r.data,
    }
}

/// `r` with `n` as its next sibling.
pub open spec fn with_next(r: Raw, n: usize) -> Raw {
    Raw {
        index: r.index,
        parent: r.parent,
        prev: r.prev,
        next: Some(n),
        first_child: r.first_child,
        last_child: r.last_child,
        data: r.data,
    }
}

/// The arena `s` after a record with payload `data` is appended under
/// `parent`, right after the sibling `prev`.
pub open spec fn appended(s: Seq<Raw>, parent: Option<usize>, prev: Option<usize>, data: Data) -> Seq<
    Raw,
> {
    let n = s.len() as usize;
    let t0 = s.push(
        Raw {
            index: n,
            parent,
            prev,
            next: None,
            first_child: None,
            last_child: None,
            data,
        },
    );
    let t1 = match parent {
        Some(p) => t0.update(p as int, with_child(t0[p as int], n)),
        None => t0,
    };
    match prev {
        Some(q) => t1.update(q as int, with_next(t1[q as int], n)),
        None => t1,
    }
}

/// The builder's position: the open element `parent` receives the next
/// record, which follows the sibling `prev`.
pub open spec fn position_wf(s: Seq<Raw>, parent: Option<usize>, prev: Option<usize>) -> bool {
    &&& arena_wf(s)
    &&& (parent matches Some(p) ==> {
        &&& p < s.len()
        &&& s[p as int].data is Element
        &&& in_subtree(s, p as int, s.len() - 1)
        &&& forall|a: int| #[trigger] in_subtree(s, a, p as int) ==> s[a].next is None
    })
    &&& (prev matches Some(q) ==> {
        &&& q < s.len()
        &&& s[q as int].parent == parent
        &&& s[q as int].next is None
        &&& in_subtree(s, q as int, s.len() - 1)
    })
    &&& (prev is None ==> match parent {
        Some(p) => p == s.len() - 1,
        None => s.len() == 0,
    })
}

proof fn lemma_ancestor_frame(s1: Seq<Raw>, s2: Seq<Raw>, a: int, d: int)
    requires
        0 <= d < s1.len(),
        s1.len() <= s2.len(),
        forall|k: int| 0 <= k < s1.len() ==> #[trigger] s2[k].parent == s1[k].parent,
    ensures
        is_ancestor(s1, a, d) == is_ancestor(s2, a, d),
    decreases d,
{
    if let Some(p) = s1[d].parent {
        if (p as int) < d && p as int != a {
            lemma_ancestor_frame(s1, s2, a, p as int);
        }
    }
}

proof fn lemma_append(s: Seq<Raw>, parent: Option<usize>, prev: Option<usize>, data: Data)
    requires
        position_wf(s, parent, prev),
        s.len() < usize::MAX,
        parent is Some || prev is Some || s.len() == 0,
    ensures
        arena_wf(appended(s, parent, prev, data)),
        appended(s, parent, prev, data).len() == s.len() + 1,
        forall|k: int|
            0 <= k < s.len() ==> (#[trigger] appended(s, parent, prev, data)[k]).parent
                == s[k].parent && appended(s, parent, prev, data)[k].data == s[k].data,
        position_wf(appended(s, parent, prev, data), parent, Some(s.len() as usize)),
        data is Element ==> position_wf(
            appended(s, parent, prev, data),
            Some(s.len() as usize),
            None,
        ),
{
    let n = s.len() as int;
    let t = appended(s, parent, prev, data);
    assert(t.len() == n + 1);
    assert forall|k: int| 0 <= k < n implies #[trigger] t[k].parent == s[k].parent && t[k].data
        == s[k].data && t[k].prev == s[k].prev && t[k].index == s[k].index by {}
    assert forall|a: int, d: int| 0 <= d < n implies #[trigger] is_ancestor(t, a, d) == is_ancestor(
        s,
        a,
        d,
    ) by {
        lemma_ancestor_frame(s, t, a, d);
    }
    assert forall|i: int| 0 <= i < t.len() implies #[trigger] node_wf(t, i) by {
        if i == n {
            lemma_append_new(s, parent, prev, data);
        } else {
            lemma_append_old(s, parent, prev, data, i);
        }
    }
    if let Some(p) = parent {
        assert(is_ancestor(t, p as int, n));
        assert forall|a: int| #[trigger] in_subtree(t, a, p as int) implies t[a].next is None by {
            assert(in_subtree(s, a, p as int));
            if a != p as int {
                lemma_ancestor_lt(s, a, p as int);
            }
            assert(s[a].next is None);
            if let Some(q) = prev {
                if a == q as int {
                    assert(node_wf(s, q as int));
                    if a != p as int {
                        lemma_ancestor_lt(s, a, p as int);
                    }
                }
            }
        }
    }
    if data is Element {
        assert forall|a: int| #[trigger] in_subtree(t, a, n) implies t[a].next is None by {
            if a != n {
                assert(is_ancestor(t, a, n));
                assert(t[n].parent == parent);
                let p = parent.unwrap() as int;
                assert(p < n);
                assert(in_subtree(t, a, p));
                assert(in_subtree(s, a, p));
                if a != p {
                    lemma_ancestor_lt(s, a, p);
                }
                assert(s[a].next is None);
                if let Some(q) = prev {
                    if a == q as int {
                        assert(node_wf(s, q as int));
                        if a != p {
                            lemma_ancestor_lt(s, a, p);
                        }
                    }
                }
            }
        }
    }
}

proof fn lemma_append_new(s: Seq<Raw>, parent: Option<usize>, prev: Option<usize>, data: Data)
    requires
        position_wf(s, parent, prev),
        s.len() < usize::MAX,
        parent is Some || prev is Some || s.len() == 0,
        forall|a: int, d: int|
            0 <= d < s.len() ==> #[trigger] is_ancestor(appended(s, parent, prev, data), a, d)
                == is_ancestor(s, a, d),
    ensures
        node_wf(appended(s, parent, prev, data), s.len() as int),
{
    let n = s.len() as int;
    let t = appended(s, parent, prev, data);
    let r = t[n];
    if let Some(p) = parent {
        assert(node_wf(s, p as int));
        if prev is None {
            assert(s[p as int].first_child is None) by {
                if let Some(c) = s[p as int].first_child {
                    assert(node_wf(s, c as int));
                }
            }
        }
    }
    if let Some(q) = prev {
        assert(node_wf(s, q as int));
        assert(in_subtree(t, q as int, n - 1));
    }
    assert(r.index as int == n);
    assert(r.parent matches Some(p) ==> (p as int) < n && t[p as int].data is Element);
    assert(r.prev matches Some(q) ==> (q as int) < n && t[q as int].next == Some(n as usize)
        && t[q as int].parent == r.parent);
    assert(r.prev is None ==> (r.parent matches Some(p) ==> t[p as int].first_child == Some(n as usize)));
    assert(r.next is None ==> (r.parent matches Some(p) ==> t[p as int].last_child == Some(n as usize)));
}

proof fn lemma_append_old(s: Seq<Raw>, parent: Option<usize>, prev: Option<usize>, data: Data, i: int)
    requires
        position_wf(s, parent, prev),
        s.len() < usize::MAX,
        parent is Some || prev is Some || s.len() == 0,
        0 <= i < s.len(),
        forall|a: int, d: int|
            0 <= d < s.len() ==> #[trigger] is_ancestor(appended(s, parent, prev, data), a, d)
                == is_ancestor(s, a, d),
    ensures
        node_wf(appended(s, parent, prev, data), i),
{
    let n = s.len() as int;
    let t = appended(s, parent, prev, data);
    assert(node_wf(s, i));
    let r = s[i];
    let tr = t[i];
    if let Some(p) = parent {
        assert(node_wf(s, p as int));
        if prev is None {
            assert(s[p as int].first_child is None) by {
                if let Some(c) = s[p as int].first_child {
                    assert(node_wf(s, c as int));
                }
            }
        }
    }
    if let Some(q) = prev {
        assert(node_wf(s, q as int));
    }
    assert(tr.parent == r.parent && tr.prev == r.prev && tr.index == r.index && tr.data == r.data);
    assert(tr.parent matches Some(p) ==> (p as int) < i && t[p as int].data is Element);
    assert(tr.prev matches Some(q) ==> (q as int) < i && t[q as int].next == Some(i as usize)
        && t[q as int].parent == tr.parent) by {
        if let Some(q) = r.prev {
            assert(node_wf(s, q as int));
        }
    }
    assert(tr.next matches Some(q) ==> i < q < t.len() && t[q as int].prev == Some(i as usize)) by {
        if let Some(q) = r.next {
            assert(node_wf(s, q as int));
        }
    }
    assert(tr.first_child matches Some(c) ==> c < t.len() && t[c as int].parent == Some(i as usize)
        && t[c as int].prev is None) by {
        if let Some(c) = r.first_child {
            assert(node_wf(s, c as int));
        }
    }
    assert(tr.last_child matches Some(c) ==> c < t.len() && t[c as int].parent == Some(i as usize)
        && t[c as int].next is None) by {
        if let Some(c) = r.last_child {
            assert(node_wf(s, c as int));
        }
    }
    assert(tr.first_child is None <==> tr.last_child is None);
    assert(tr.prev is None ==> (tr.parent matches Some(p) ==> t[p as int].first_child == Some(i as usize))) by {
        if let Some(p) = r.parent {
            assert(node_wf(s, p as int));
        }
    }
    assert(tr.next is None ==> (tr.parent matches Some(p) ==> t[p as int].last_child == Some(i as usize))) by {
        if let Some(p) = r.parent {
            assert(node_wf(s, p as int));
        }
    }
    if i > 0 {
        assert(crate::arena::follows_preorder(s, i));
        if let Some(a) = r.prev {
            if in_subtree(s, a as int, i - 1) {
                assert(in_subtree(t, a as int, i - 1));
            }
        }
        assert(crate::arena::follows_preorder(t, i));
    }
}

/// A document under construction.
pub struct Builder {
    nodes: Vec<Raw>,
    parent: Option<usize>,
    prev: Option<usize>,
}

impl Builder {
    /// The records built so far.
    pub closed spec fn records(&self) -> Seq<Raw> {
        self.nodes@
    }

    /// The open element that receives the next record, if any.
    pub closed spec fn open(&self) -> Option<usize> {
        self.parent
    }

    /// The record that the next one follows as a sibling, if any.
    pub closed spec fn after(&self) -> Option<usize> {
        self.prev
    }

    pub open spec fn wf(&self) -> bool {
        position_wf(self.records(), self.open(), self.after())
    }

    /// The records, the open element and the sibling to follow, together.
    pub open spec fn state(&self) -> (Seq<Raw>, Option<usize>, Option<usize>) {
        (self.records(), self.open(), self.after())
    }

    /// An empty document.
    pub fn new() -> (r: Builder)
        ensures
            r.wf(),
            r.records() == Seq::<Raw>::empty(),
            r.open() is None,
            r.after() is None,
    {
        Builder { nodes: Vec::new(), parent: None, prev: None }
    }

    /// The number of records built so far.
    pub fn len(&self) -> (r: usize)
        ensures
            r == self.records().len(),
    {
        self.nodes.len()
    }

    fn append(&mut self, data: Data) -> (n: usize)
        requires
            old(self).wf(),
            old(self).records().len() < usize::MAX,
        ensures
            n == old(self).records().len(),
            final(self).records() == appended(
                old(self).records(),
                old(self).open(),
                old(self).after(),
                data,
            ),
            arena_wf(final(self).records()),
            final(self).open() == old(self).open(),
            final(self).after() == old(self).after(),
    {
        let ghost s = self.nodes@;
        proof {
            if self.parent is None && self.prev is None && s.len() > 0 {
                assert(false);
            }
            lemma_append(s, self.parent, self.prev, data);
        }
        let n = self.nodes.len();
        self.nodes.push(
            Raw {
                index: n,
                parent: self.parent,
                prev: self.prev,
                next: None,
                first_child: None,
                last_child: None,
                data,
            },
        );
        if let Some(p) = self.parent {
            if self.nodes[p].first_child.is_none() {
                self.nodes[p].first_child = Some(n);
            }
            self.nodes[p].last_child = Some(n);
        }
        if let Some(q) = self.prev {
            self.nodes[q].next = Some(n);
        }
        proof {
            assert(self.nodes@ =~= appended(s, self.parent, self.prev, data));
        }
        n
    }

    /// Append a text node under the open element.
    pub fn text(&mut self, t: String)
        requires
            old(self).wf(),
            old(self).records().len() < usize::MAX,
        ensures
            final(self).wf(),
            final(self).records() == appended(
                old(self).records(),
                old(self).open(),
                old(self).after(),
                Data::Text(t),
            ),
            final(self).open() == old(self).open(),
            final(self).after() == Some(old(self).records().len() as usize),
    {
        proof {
            lemma_append(self.nodes@, self.parent, self.prev, Data::Text(t));
        }
        let n = self.append(Data::Text(t));
        self.prev = Some(n);
    }

    /// Append a comment node under the open element.
    pub fn comment(&mut self, t: String)
        requires
            old(self).wf(),
            old(self).records().len() < usize::MAX,
        ensures
            final(self).wf(),
            final(self).records() == appended(
                old(self).records(),
                old(self).open(),
                old(self).after(),
                Data::Comment(t),
            ),
            final(self).open() == old(self).open(),
            final(self).after() == Some(old(self).records().len() as usize),
    {
        proof {
            lemma_append(self.nodes@, self.parent, self.prev, Data::Comment(t));
        }
        let n = self.append(Data::Comment(t));
        self.prev = Some(n);
    }

    /// Append an element under the open element and open it: what follows,
    /// up to the matching `close_element`, are its children.
    pub fn open_element(&mut self, name: QualName, attrs: Vec<(QualName, String)>)
        requires
            old(self).wf(),
            old(self).records().len() < usize::MAX,
        ensures
            final(self).wf(),
            final(self).records() == appended(
                old(self).records(),
                old(self).open(),
                old(self).after(),
                Data::Element(name, attrs),
            ),
            final(self).open() == Some(old(self).records().len() as usize),
            final(self).after() is None,
    {
        proof {
            lemma_append(self.nodes@, self.parent, self.prev, Data::Element(name, attrs));
        }
        let n = self.append(Data::Element(name, attrs));
        self.parent = Some(n);
        self.prev = None;
    }

    /// Close the open element: the next record follows it as a sibling. With
    /// no open element, nothing changes.
    pub fn close_element(&mut self)
        requires
            old(self).wf(),
        ensures
            final(self).wf(),
            final(self).records() == old(self).records(),
            match old(self).open() {
                Some(p) => final(self).after() == Some(p) && final(self).open() == old(
                    self,
                ).records()[p as int].parent,
                None => final(self).after() == old(self).after() && final(self).open() is None,
            },
    {
        if let Some(p) = self.parent {
            let ghost s = self.nodes@;
            let pp = self.nodes[p].parent;
            proof {
                assert(node_wf(s, p as int));
                assert(in_subtree(s, p as int, p as int));
                if let Some(g) = pp {
                    assert(is_ancestor(s, g as int, p as int));
                    lemma_ancestor_trans_or_eq(s, g as int, p as int, s.len() - 1);
                    assert forall|a: int| #[trigger] in_subtree(s, a, g as int) implies s[a].next is None by {
                        if a != g as int {
                            lemma_ancestor_trans(s, a, g as int, p as int);
                        }
                        assert(in_subtree(s, a, p as int));
                    }
                }
            }
            self.prev = Some(p);
            self.parent = pp;
        }
    }

    /// The finished document.
    pub fn finish(self) -> (r: Document)
        requires
            self.wf(),
        ensures
            r.wf(),
            r@ == self.records(),
    {
        Document::from_records(self.nodes)
    }
}

proof fn lemma_ancestor_trans_or_eq(s: Seq<Raw>, a: int, b: int, c: int)
    requires
        is_ancestor(s, a, b),
        in_subtree(s, b, c),
    ensures
        is_ancestor(s, a, c),
{
    if b != c {
        lemma_ancestor_trans(s, a, b, c);
    }
}

} // verus!
