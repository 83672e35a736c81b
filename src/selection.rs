//! Selections: sets of nodes of one document, kept in document order.
use vstd::prelude::*;
use bit_set::BitSet;
use crate::arena::{
    Raw, arena_wf, descendants_from, descendants_of, is_ancestor, lemma_ancestor_chain,
    lemma_ancestor_lt, lemma_ancestor_trans, node_wf,
};
use crate::bits::{bits_contains, bits_insert, bits_is_empty, bits_items, bits_len, bits_new, bits_of};
use crate::document::Document;
use crate::node::{Children, Node, children_of};
use crate::node;
use crate::document;
use crate::predicate::Predicate;

verus! {

/// The nodes below some member of `m`.
pub open spec fn below_some(s: Seq<Raw>, m: Set<int>) -> Set<int> {
    Set::new(|k: int| 0 <= k < s.len() && exists|a: int| m.contains(a) && #[trigger] is_ancestor(s, a, k))
}

/// The strict ancestors of the members of `m`.
pub open spec fn above_some(s: Seq<Raw>, m: Set<int>) -> Set<int> {
    Set::new(|k: int| exists|a: int| m.contains(a) && #[trigger] is_ancestor(s, k, a))
}

/// The children of the members of `m`.
pub open spec fn children_of_some(s: Seq<Raw>, m: Set<int>) -> Set<int> {
    Set::new(|k: int| exists|a: int| m.contains(a) && #[trigger] children_of(s, a).contains(k))
}

/// The link of kind `which` of record `r`: 0 the parent, 1 the previous
/// sibling, otherwise the next sibling.
pub open spec fn relative(r: Raw, which: int) -> Option<usize> {
    if which == 0 {
        r.parent
    } else if which == 1 {
        r.prev
    } else {
        r.next
    }
}

/// Record `r` links to `k` by its link of kind `which`.
pub open spec fn links_to(r: Raw, which: int, k: int) -> bool {
    relative(r, which) matches Some(x) && x as int == k
}

/// The targets of the links of kind `which` from the members of `m`.
pub open spec fn related_to_some(s: Seq<Raw>, m: Set<int>, which: int) -> Set<int> {
    Set::new(|k: int| exists|a: int| m.contains(a) && #[trigger] links_to(s[a], which, k))
}

/// The members of `m` that pass `p`.
pub open spec fn passing<P: Predicate>(s: Seq<Raw>, m: Set<int>, p: P) -> Set<int> {
    m.filter(|k: int| p.holds(s, k))
}

pub proof fn lemma_descendants_from_contains(s: Seq<Raw>, a: int, lo: int, k: int)
    ensures
        descendants_from(s, a, lo).contains(k) <==> (lo <= k < s.len() && is_ancestor(s, a, k)),
    decreases s.len() - lo,
{
    if lo < s.len() {
        lemma_descendants_from_contains(s, a, lo + 1, k);
        let rest = descendants_from(s, a, lo + 1);
        if is_ancestor(s, a, lo) {
            let all = seq![lo].add(rest);
            assert(all[0] == lo);
            if rest.contains(k) {
                let j = choose|j: int| 0 <= j < rest.len() && rest[j] == k;
                assert(all[j + 1] == k);
            }
            if all.contains(k) && k != lo {
                let j = choose|j: int| 0 <= j < all.len() && all[j] == k;
                assert(rest[j - 1] == k);
            }
        }
    }
}

/// What a sequence holds after a push.
proof fn lemma_push_contains(seen: Seq<int>, x: int)
    ensures
        forall|k: int| #[trigger] seen.push(x).contains(k) <==> (seen.contains(k) || k == x),
{
    assert forall|k: int| #[trigger] seen.push(x).contains(k) <==> (seen.contains(k) || k == x) by {
        if seen.contains(k) {
            let j = choose|j: int| 0 <= j < seen.len() && seen[j] == k;
            assert(seen.push(x)[j] == k);
        }
        if seen.push(x).contains(k) && k != x {
            let j = choose|j: int| 0 <= j < seen.len() + 1 && seen.push(x)[j] == k;
            assert(seen[j] == k);
        }
        assert(seen.push(x)[seen.len() as int] == x);
    }
}

/// A set of nodes of one document, iterated in document order.
pub struct Selection<'a> {
    document: &'a Document,
    bit_set: BitSet,
}

impl<'a> Selection<'a> {
    pub closed spec fn arena(&self) -> Seq<Raw> {
        self.document@
    }

    /// The indices of the members.
    pub closed spec fn indices(&self) -> Set<int> {
        bits_of(self.bit_set)
    }

    pub open spec fn wf(&self) -> bool {
        arena_wf(self.arena()) && forall|k: int| #[trigger] self.indices().contains(k) ==> 0 <= k < self.arena().len()
    }

    /// A selection of the nodes of `document` whose indices `bit_set` holds.
    pub fn new(document: &'a Document, bit_set: BitSet) -> (r: Selection<'a>)
        requires
            document.wf(),
            forall|k: int| #[trigger] bits_of(bit_set).contains(k) ==> 0 <= k < document@.len(),
        ensures
            r.wf(),
            r.arena() == document@,
            r.indices() == bits_of(bit_set),
    {
        Selection { document, bit_set }
    }

    /// A selection of the nodes of `document` whose indices `indices`
    /// holds; indices past the last node are left out.
    pub fn from_indices(document: &'a Document, indices: &Vec<usize>) -> (r: Selection<'a>)
        requires
            document.wf(),
        ensures
            r.wf(),
            r.arena() == document@,
            r.indices() == Set::new(
                |k: int| 0 <= k < document@.len() && exists|j: int| 0 <= j < indices@.len() && indices@[j] as int == k,
            ),
    {
        let mut acc = bits_new();
        let mut i: usize = 0;
        while i < indices.len()
            invariant
                i <= indices@.len(),
                forall|k: int| #[trigger] bits_of(acc).contains(k) <==> (0 <= k < document@.len() && exists|j: int| 0 <= j < i && indices@[j] as int == k),
            decreases indices.len() - i,
        {
            let ghost before = bits_of(acc);
            if indices[i] < document.len() {
                bits_insert(&mut acc, indices[i]);
            }
            proof {
                assert forall|k: int| #[trigger] bits_of(acc).contains(k) <==> (0 <= k < document@.len() && exists|j: int| 0 <= j < i + 1 && indices@[j] as int == k) by {
                    if 0 <= k < document@.len() && exists|j: int| 0 <= j < i + 1 && indices@[j] as int == k {
                        let j = choose|j: int| 0 <= j < i + 1 && indices@[j] as int == k;
                        if j < i {
                            assert(before.contains(k));
                        }
                    }
                    if k == indices@[i as int] as int && k < document@.len() {
                        assert(indices@[i as int] as int == k);
                    }
                }
            }
            i = i + 1;
        }
        proof {
            assert(bits_of(acc) =~= Set::new(
                |k: int| 0 <= k < document@.len() && exists|j: int| 0 <= j < indices@.len() && indices@[j] as int == k,
            ));
        }
        Selection { document, bit_set: acc }
    }

    fn members(&self) -> (r: Vec<usize>)
        requires
            self.wf(),
        ensures
            forall|i: int, j: int| 0 <= i < j < r@.len() ==> r@[i] < r@[j],
            forall|i: int| 0 <= i < r@.len() ==> #[trigger] self.indices().contains(r@[i] as int),
            forall|i: int| 0 <= i < r@.len() ==> #[trigger] r@[i] < self.arena().len(),
            forall|k: int| #[trigger] self.indices().contains(k) ==> exists|i: int| 0 <= i < r@.len() && r@[i] as int == k,
    {
        let r = bits_items(&self.bit_set);
        proof {
            assert forall|i: int| 0 <= i < r@.len() implies #[trigger] r@[i] < self.arena().len() by {
                assert(self.indices().contains(r@[i] as int));
            }
        }
        r
    }

    /// The member nodes, in document order.
    pub fn iter(&self) -> (r: Vec<Node<'a>>)
        requires
            self.wf(),
        ensures
            forall|i: int, j: int| 0 <= i < j < r@.len() ==> r@[i].pos() < r@[j].pos(),
            forall|i: int| 0 <= i < r@.len() ==> #[trigger] self.indices().contains(r@[i].pos()) && r@[i].wf() && r@[i].arena() == self.arena(),
            forall|k: int| #[trigger] self.indices().contains(k) ==> exists|i: int| 0 <= i < r@.len() && r@[i].pos() == k,
    {
        let items = self.members();
        let mut out: Vec<Node<'a>> = Vec::new();
        let mut i: usize = 0;
        while i < items.len()
            invariant
                self.wf(),
                i <= items@.len(),
                out@.len() == i,
                forall|x: int, y: int| 0 <= x < y < items@.len() ==> items@[x] < items@[y],
                forall|x: int| 0 <= x < items@.len() ==> #[trigger] self.indices().contains(items@[x] as int),
                forall|x: int| 0 <= x < items@.len() ==> #[trigger] items@[x] < self.arena().len(),
                forall|x: int| 0 <= x < i ==> (#[trigger] out@[x]).pos() == items@[x] as int && out@[x].wf() && out@[x].arena() == self.arena(),
            decreases items.len() - i,
        {
            let n = Node::new(self.document, items[i]).unwrap();
            out.push(n);
            i = i + 1;
        }
        proof {
            assert forall|k: int| #[trigger] self.indices().contains(k) implies exists|x: int| 0 <= x < out@.len() && out@[x].pos() == k by {
                let x = choose|x: int| 0 <= x < items@.len() && items@[x] as int == k;
                assert(out@[x].pos() == k);
            }
            assert forall|x: int| 0 <= x < out@.len() implies #[trigger] self.indices().contains(out@[x].pos()) && out@[x].wf() && out@[x].arena() == self.arena() by {
                assert(self.indices().contains(items@[x] as int));
            }
        }
        out
    }

    /// The members that pass `p`.
    pub fn filter<P: Predicate>(&self, p: P) -> (r: Selection<'a>)
        requires
            self.wf(),
        ensures
            r.wf(),
            r.arena() == self.arena(),
            r.indices() == passing(self.arena(), self.indices(), p),
    {
        proof {
            assert(self.document.wf());
            assert forall|k: int| #[trigger] bits_of(self.bit_set).contains(k) implies 0 <= k < self.document@.len() by {
                assert(self.indices().contains(k));
            }
        }
        let b = keep(self.document, &self.bit_set, &p);
        Selection { document: self.document, bit_set: b }
    }

    /// The descendants of the members that pass `p`: each node below some
    /// member is considered once, however many members it lies below.
    pub fn select<P: Predicate>(&self, p: P) -> (r: Selection<'a>)
        requires
            self.wf(),
        ensures
            r.wf(),
            r.arena() == self.arena(),
            r.indices() == passing(self.arena(), below_some(self.arena(), self.indices()), p),
    {
        let ghost s = self.arena();
        let items = self.members();
        let mut acc = bits_new();
        let mut i: usize = 0;
        while i < items.len()
            invariant
                self.wf(),
                s == self.arena(),
                i <= items@.len(),
                forall|x: int| 0 <= x < items@.len() ==> #[trigger] self.indices().contains(items@[x] as int),
                forall|x: int| 0 <= x < items@.len() ==> #[trigger] items@[x] < s.len(),
                forall|k: int| #[trigger] bits_of(acc).contains(k) <==> (0 <= k < s.len() && exists|x: int| 0 <= x < i && is_ancestor(s, items@[x] as int, k)),
            decreases items.len() - i,
        {
            let m = items[i];
            let ghost old_acc = bits_of(acc);
            if !bits_contains(&acc, m) {
                let node = Node::new(self.document, m).unwrap();
                let mut it = node.descendants();
                let ghost seen: Seq<int> = Seq::empty();
                loop
                    invariant
                        it.wf(),
                        it.arena() == s,
                        arena_wf(s),
                        seen + it.remaining() == descendants_of(s, m as int),
                        forall|k: int| #[trigger] bits_of(acc).contains(k) <==> (old_acc.contains(k) || seen.contains(k)),
                    ensures
                        seen == descendants_of(s, m as int),
                        forall|k: int| #[trigger] bits_of(acc).contains(k) <==> (old_acc.contains(k) || seen.contains(k)),
                    decreases it.remaining().len(),
                {
                    let ghost before = it.remaining();
                    match it.next() {
                        Some(d) => {
                            bits_insert(&mut acc, d.index());
                            proof {
                                assert(seen.push(d.pos()) + it.remaining() =~= seen + before);
                                lemma_push_contains(seen, d.pos());
                                seen = seen.push(d.pos());
                            }
                        },
                        None => {
                            proof {
                                assert(seen + before =~= seen);
                            }
                            break;
                        },
                    }
                }
                proof {
                    assert forall|k: int| #[trigger] bits_of(acc).contains(k) <==> (0 <= k < s.len() && exists|x: int| 0 <= x < i + 1 && is_ancestor(s, items@[x] as int, k)) by {
                        lemma_descendants_from_contains(s, m as int, m + 1, k);
                        if is_ancestor(s, m as int, k) {
                            lemma_ancestor_lt(s, m as int, k);
                        }
                        if 0 <= k < s.len() && is_ancestor(s, items@[i as int] as int, k) {
                            assert(seen.contains(k));
                        }
                    }
                }
            } else {
                proof {
                    let x0 = choose|x: int| 0 <= x < i && is_ancestor(s, items@[x] as int, m as int);
                    assert forall|k: int| #[trigger] bits_of(acc).contains(k) <==> (0 <= k < s.len() && exists|x: int| 0 <= x < i + 1 && is_ancestor(s, items@[x] as int, k)) by {
                        if 0 <= k < s.len() && is_ancestor(s, m as int, k) {
                            lemma_ancestor_trans(s, items@[x0] as int, m as int, k);
                        }
                    }
                }
            }
            i = i + 1;
        }
        proof {
            assert forall|k: int| #[trigger] bits_of(acc).contains(k) implies 0 <= k < s.len() by {}
            assert(bits_of(acc) =~= below_some(s, self.indices())) by {
                assert forall|k: int| below_some(s, self.indices()).contains(k) implies #[trigger] bits_of(acc).contains(k) by {
                    let a = choose|a: int| self.indices().contains(a) && #[trigger] is_ancestor(s, a, k);
                    let x = choose|x: int| 0 <= x < items@.len() && items@[x] as int == a;
                    assert(is_ancestor(s, items@[x] as int, k));
                }
                assert forall|k: int| #[trigger] bits_of(acc).contains(k) implies below_some(s, self.indices()).contains(k) by {
                    let x = choose|x: int| 0 <= x < i && is_ancestor(s, items@[x] as int, k);
                    assert(self.indices().contains(items@[x] as int));
                }
            }
        }
        let b = keep(self.document, &acc, &p);
        Selection { document: self.document, bit_set: b }
    }

    /// Same as `select`.
    pub fn find<P: Predicate>(&self, p: P) -> (r: Selection<'a>)
        requires
            self.wf(),
        ensures
            r.wf(),
            r.arena() == self.arena(),
            r.indices() == passing(self.arena(), below_some(self.arena(), self.indices()), p),
    {
        self.select(p)
    }

    fn related(&self, which: u8) -> (r: Selection<'a>)
        requires
            self.wf(),
        ensures
            r.wf(),
            r.arena() == self.arena(),
            r.indices() == related_to_some(self.arena(), self.indices(), which as int),
    {
        let ghost s = self.arena();
        let items = self.members();
        let mut acc = bits_new();
        let mut i: usize = 0;
        while i < items.len()
            invariant
                self.wf(),
                s == self.arena(),
                i <= items@.len(),
                forall|x: int| 0 <= x < items@.len() ==> #[trigger] self.indices().contains(items@[x] as int),
                forall|x: int| 0 <= x < items@.len() ==> #[trigger] items@[x] < s.len(),
                forall|k: int| #[trigger] bits_of(acc).contains(k) <==> (exists|x: int| 0 <= x < i && links_to(s[items@[x] as int], which as int, k)),
            decreases items.len() - i,
        {
            let m = items[i];
            let rec = self.document.raw(m);
            let link = if which == 0 {
                rec.parent
            } else if which == 1 {
                rec.prev
            } else {
                rec.next
            };
            let ghost before = bits_of(acc);
            if let Some(k) = link {
                bits_insert(&mut acc, k);
            }
            proof {
                assert(relative(s[items@[i as int] as int], which as int) == link);
                assert forall|k: int| #[trigger] bits_of(acc).contains(k) <==> (exists|x: int| 0 <= x < i + 1 && links_to(s[items@[x] as int], which as int, k)) by {
                    if exists|x: int| 0 <= x < i + 1 && links_to(s[items@[x] as int], which as int, k) {
                        let x = choose|x: int| 0 <= x < i + 1 && links_to(s[items@[x] as int], which as int, k);
                        if x < i {
                            assert(before.contains(k));
                        }
                    }
                }
            }
            i = i + 1;
        }
        proof {
            assert(bits_of(acc) =~= related_to_some(s, self.indices(), which as int)) by {
                assert forall|k: int| related_to_some(s, self.indices(), which as int).contains(k) implies #[trigger] bits_of(acc).contains(k) by {
                    let a = choose|a: int| self.indices().contains(a) && #[trigger] links_to(s[a], which as int, k);
                    let x = choose|x: int| 0 <= x < items@.len() && items@[x] as int == a;
                    assert(links_to(s[items@[x] as int], which as int, k));
                }
                assert forall|k: int| #[trigger] bits_of(acc).contains(k) implies related_to_some(s, self.indices(), which as int).contains(k) by {
                    let x = choose|x: int| 0 <= x < i && links_to(s[items@[x] as int], which as int, k);
                    assert(self.indices().contains(items@[x] as int));
                }
            }
            assert forall|k: int| #[trigger] bits_of(acc).contains(k) implies 0 <= k < s.len() by {
                let x = choose|x: int| 0 <= x < i && links_to(s[items@[x] as int], which as int, k);
                assert(node_wf(s, items@[x] as int));
            }
        }
        Selection { document: self.document, bit_set: acc }
    }

    /// The parents of the members.
    pub fn parent(&self) -> (r: Selection<'a>)
        requires
            self.wf(),
        ensures
            r.wf(),
            r.arena() == self.arena(),
            r.indices() == related_to_some(self.arena(), self.indices(), 0),
    {
        self.related(0)
    }

    /// The previous siblings of the members.
    pub fn prev(&self) -> (r: Selection<'a>)
        requires
            self.wf(),
        ensures
            r.wf(),
            r.arena() == self.arena(),
            r.indices() == related_to_some(self.arena(), self.indices(), 1),
    {
        self.related(1)
    }

    /// The next siblings of the members.
    pub fn next(&self) -> (r: Selection<'a>)
        requires
            self.wf(),
        ensures
            r.wf(),
            r.arena() == self.arena(),
            r.indices() == related_to_some(self.arena(), self.indices(), 2),
    {
        self.related(2)
    }

    /// Every strict ancestor of every member.
    pub fn parents(&self) -> (r: Selection<'a>)
        requires
            self.wf(),
        ensures
            r.wf(),
            r.arena() == self.arena(),
            r.indices() == above_some(self.arena(), self.indices()),
    {
        let ghost s = self.arena();
        let items = self.members();
        let mut acc = bits_new();
        let mut i: usize = 0;
        while i < items.len()
            invariant
                self.wf(),
                s == self.arena(),
                i <= items@.len(),
                forall|x: int| 0 <= x < items@.len() ==> #[trigger] self.indices().contains(items@[x] as int),
                forall|x: int| 0 <= x < items@.len() ==> #[trigger] items@[x] < s.len(),
                forall|k: int| #[trigger] bits_of(acc).contains(k) <==> (exists|x: int| 0 <= x < i && is_ancestor(s, k, items@[x] as int)),
            decreases items.len() - i,
        {
            let m = items[i];
            let ghost old_acc = bits_of(acc);
            let mut cur = Node::new(self.document, m).unwrap();
            proof {
                assert forall|a: int| is_ancestor(s, a, m as int) implies a < m by {
                    lemma_ancestor_lt(s, a, m as int);
                }
            }
            loop
                invariant
                    cur.wf(),
                    cur.arena() == s,
                    arena_wf(s),
                    m < s.len(),
                    cur.pos() == m || is_ancestor(s, cur.pos(), m as int),
                    forall|k: int| #[trigger] bits_of(acc).contains(k) <==> (old_acc.contains(k) || (is_ancestor(s, k, m as int) && cur.pos() <= k)),
                ensures
                    forall|k: int| #[trigger] bits_of(acc).contains(k) <==> (old_acc.contains(k) || is_ancestor(s, k, m as int)),
                decreases cur.pos(),
            {
                proof {
                    assert(node_wf(s, cur.pos()));
                }
                match cur.parent() {
                    Some(p) => {
                        let ghost before = bits_of(acc);
                        bits_insert(&mut acc, p.index());
                        proof {
                            assert(is_ancestor(s, p.pos(), cur.pos()));
                            if cur.pos() != m {
                                lemma_ancestor_trans(s, p.pos(), cur.pos(), m as int);
                            }
                            assert forall|k: int| #[trigger] bits_of(acc).contains(k) <==> (old_acc.contains(k) || (is_ancestor(s, k, m as int) && p.pos() <= k)) by {
                                if is_ancestor(s, k, m as int) && p.pos() < k && k < cur.pos() {
                                    if cur.pos() == m {
                                        assert(k == p.pos() || is_ancestor(s, k, p.pos()));
                                        if k != p.pos() {
                                            lemma_ancestor_lt(s, k, p.pos());
                                        }
                                    } else {
                                        lemma_ancestor_chain(s, k, cur.pos(), m as int);
                                        if is_ancestor(s, k, cur.pos()) {
                                            if k != p.pos() {
                                                lemma_ancestor_lt(s, k, p.pos());
                                            }
                                        } else if is_ancestor(s, cur.pos(), k) {
                                            lemma_ancestor_lt(s, cur.pos(), k);
                                        }
                                    }
                                }
                            }
                        }
                        cur = p;
                    },
                    None => {
                        proof {
                            assert forall|k: int| is_ancestor(s, k, m as int) implies cur.pos() <= k by {
                                if cur.pos() != m {
                                    lemma_ancestor_chain(s, k, cur.pos(), m as int);
                                    if is_ancestor(s, cur.pos(), k) {
                                        lemma_ancestor_lt(s, cur.pos(), k);
                                    }
                                }
                            }
                        }
                        break;
                    },
                }
            }
            proof {
                assert forall|k: int| #[trigger] bits_of(acc).contains(k) <==> (exists|x: int| 0 <= x < i + 1 && is_ancestor(s, k, items@[x] as int)) by {
                    if exists|x: int| 0 <= x < i + 1 && is_ancestor(s, k, items@[x] as int) {
                        let x = choose|x: int| 0 <= x < i + 1 && is_ancestor(s, k, items@[x] as int);
                        if x < i {
                            assert(old_acc.contains(k));
                        }
                    }
                }
            }
            i = i + 1;
        }
        proof {
            assert(bits_of(acc) =~= above_some(s, self.indices())) by {
                assert forall|k: int| above_some(s, self.indices()).contains(k) implies #[trigger] bits_of(acc).contains(k) by {
                    let a = choose|a: int| self.indices().contains(a) && #[trigger] is_ancestor(s, k, a);
                    let x = choose|x: int| 0 <= x < items@.len() && items@[x] as int == a;
                    assert(is_ancestor(s, k, items@[x] as int));
                }
                assert forall|k: int| #[trigger] bits_of(acc).contains(k) implies above_some(s, self.indices()).contains(k) by {
                    let x = choose|x: int| 0 <= x < i && is_ancestor(s, k, items@[x] as int);
                    assert(self.indices().contains(items@[x] as int));
                }
            }
            assert forall|k: int| #[trigger] bits_of(acc).contains(k) implies 0 <= k < s.len() by {
                let x = choose|x: int| 0 <= x < i && is_ancestor(s, k, items@[x] as int);
                lemma_ancestor_lt(s, k, items@[x] as int);
            }
        }
        Selection { document: self.document, bit_set: acc }
    }

    /// The children of the members.
    pub fn children(&self) -> (r: Selection<'a>)
        requires
            self.wf(),
        ensures
            r.wf(),
            r.arena() == self.arena(),
            r.indices() == children_of_some(self.arena(), self.indices()),
    {
        let ghost s = self.arena();
        let items = self.members();
        let mut acc = bits_new();
        let mut i: usize = 0;
        while i < items.len()
            invariant
                self.wf(),
                s == self.arena(),
                i <= items@.len(),
                forall|x: int| 0 <= x < items@.len() ==> #[trigger] self.indices().contains(items@[x] as int),
                forall|x: int| 0 <= x < items@.len() ==> #[trigger] items@[x] < s.len(),
                forall|k: int| #[trigger] bits_of(acc).contains(k) ==> 0 <= k < s.len(),
                forall|k: int| #[trigger] bits_of(acc).contains(k) <==> (exists|x: int| 0 <= x < i && children_of(s, items@[x] as int).contains(k)),
            decreases items.len() - i,
        {
            let m = items[i];
            let ghost old_acc = bits_of(acc);
            let node = Node::new(self.document, m).unwrap();
            let mut it = node.children();
            let ghost seen: Seq<int> = Seq::empty();
            loop
                invariant
                    it.wf(),
                    it.arena() == s,
                    arena_wf(s),
                    seen + it.remaining() == children_of(s, m as int),
                    forall|k: int| #[trigger] bits_of(acc).contains(k) ==> 0 <= k < s.len(),
                    forall|k: int| #[trigger] bits_of(acc).contains(k) <==> (old_acc.contains(k) || seen.contains(k)),
                ensures
                    seen == children_of(s, m as int),
                    forall|k: int| #[trigger] bits_of(acc).contains(k) ==> 0 <= k < s.len(),
                    forall|k: int| #[trigger] bits_of(acc).contains(k) <==> (old_acc.contains(k) || seen.contains(k)),
                decreases it.remaining().len(),
            {
                let ghost before = it.remaining();
                match it.next() {
                    Some(c) => {
                        bits_insert(&mut acc, c.index());
                        proof {
                            assert(seen.push(c.pos()) + it.remaining() =~= seen + before);
                            lemma_push_contains(seen, c.pos());
                            seen = seen.push(c.pos());
                        }
                    },
                    None => {
                        proof {
                            assert(seen + before =~= seen);
                        }
                        break;
                    },
                }
            }
            proof {
                assert forall|k: int| #[trigger] bits_of(acc).contains(k) <==> (exists|x: int| 0 <= x < i + 1 && children_of(s, items@[x] as int).contains(k)) by {
                    if exists|x: int| 0 <= x < i + 1 && children_of(s, items@[x] as int).contains(k) {
                        let x = choose|x: int| 0 <= x < i + 1 && children_of(s, items@[x] as int).contains(k);
                        if x < i {
                            assert(old_acc.contains(k));
                        }
                    }
                }
            }
            i = i + 1;
        }
        proof {
            assert(bits_of(acc) =~= children_of_some(s, self.indices())) by {
                assert forall|k: int| children_of_some(s, self.indices()).contains(k) implies #[trigger] bits_of(acc).contains(k) by {
                    let a = choose|a: int| self.indices().contains(a) && #[trigger] children_of(s, a).contains(k);
                    let x = choose|x: int| 0 <= x < items@.len() && items@[x] as int == a;
                    assert(children_of(s, items@[x] as int).contains(k));
                }
                assert forall|k: int| #[trigger] bits_of(acc).contains(k) implies children_of_some(s, self.indices()).contains(k) by {
                    let x = choose|x: int| 0 <= x < i && children_of(s, items@[x] as int).contains(k);
                    assert(self.indices().contains(items@[x] as int));
                }
            }
        }
        Selection { document: self.document, bit_set: acc }
    }

    /// The first member in document order, if any.
    pub fn first(&self) -> (r: Option<Node<'a>>)
        requires
            self.wf(),
        ensures
            match r {
                Some(n) => n.wf() && n.arena() == self.arena() && self.indices().contains(n.pos())
                    && forall|k: int| #[trigger] self.indices().contains(k) ==> n.pos() <= k,
                None => self.indices() == Set::<int>::empty(),
            },
    {
        let items = self.members();
        if items.len() == 0 {
            proof {
                assert(self.indices() =~= Set::<int>::empty());
            }
            return None;
        }
        proof {
            assert forall|k: int| #[trigger] self.indices().contains(k) implies items@[0] as int <= k by {
                let x = choose|x: int| 0 <= x < items@.len() && items@[x] as int == k;
                if x > 0 {
                    assert(items@[0] < items@[x]);
                }
            }
            assert(self.indices().contains(items@[0] as int));
        }
        Node::new(self.document, items[0])
    }

    /// The last member in document order, if any.
    pub fn last(&self) -> (r: Option<Node<'a>>)
        requires
            self.wf(),
        ensures
            match r {
                Some(n) => n.wf() && n.arena() == self.arena() && self.indices().contains(n.pos())
                    && forall|k: int| #[trigger] self.indices().contains(k) ==> k <= n.pos(),
                None => self.indices() == Set::<int>::empty(),
            },
    {
        let items = self.members();
        if items.len() == 0 {
            proof {
                assert(self.indices() =~= Set::<int>::empty());
            }
            return None;
        }
        let l = items.len() - 1;
        proof {
            assert forall|k: int| #[trigger] self.indices().contains(k) implies k <= items@[l as int] as int by {
                let x = choose|x: int| 0 <= x < items@.len() && items@[x] as int == k;
                if x < l {
                    assert(items@[x] < items@[l as int]);
                }
            }
            assert(self.indices().contains(items@[l as int] as int));
        }
        Node::new(self.document, items[l])
    }

    /// The number of members.
    pub fn len(&self) -> (r: usize)
        ensures
            r == self.indices().len(),
    {
        bits_len(&self.bit_set)
    }

    /// Whether there are no members.
    pub fn is_empty(&self) -> (r: bool)
        ensures
            r == (self.indices() == Set::<int>::empty()),
    {
        bits_is_empty(&self.bit_set)
    }
}

/// The members of `b` that pass `p`.
fn keep<P: Predicate>(document: &Document, b: &BitSet, p: &P) -> (r: BitSet)
    requires
        document.wf(),
        forall|k: int| #[trigger] bits_of(*b).contains(k) ==> 0 <= k < document@.len(),
    ensures
        bits_of(r) == passing(document@, bits_of(*b), *p),
        forall|k: int| #[trigger] bits_of(r).contains(k) ==> 0 <= k < document@.len(),
{
    let ghost s = document@;
    let items = bits_items(b);
    let mut out = bits_new();
    let mut i: usize = 0;
    while i < items.len()
        invariant
            document.wf(),
            s == document@,
            i <= items@.len(),
            forall|x: int| 0 <= x < items@.len() ==> #[trigger] bits_of(*b).contains(items@[x] as int),
            forall|k: int| #[trigger] bits_of(*b).contains(k) ==> 0 <= k < s.len(),
            forall|k: int| #[trigger] bits_of(out).contains(k) <==> (exists|x: int| 0 <= x < i && items@[x] as int == k && p.holds(s, k)),
        decreases items.len() - i,
    {
        let k = items[i];
        proof {
            assert(bits_of(*b).contains(items@[i as int] as int));
        }
        let node = Node::new(document, k).unwrap();
        let ghost before = bits_of(out);
        if p.matches(&node) {
            bits_insert(&mut out, k);
        }
        proof {
            assert forall|j: int| #[trigger] bits_of(out).contains(j) <==> (exists|x: int| 0 <= x < i + 1 && items@[x] as int == j && p.holds(s, j)) by {
                if j == k as int && p.holds(s, j) {
                    assert(items@[i as int] as int == j);
                }
                if exists|x: int| 0 <= x < i + 1 && items@[x] as int == j && p.holds(s, j) {
                    let x = choose|x: int| 0 <= x < i + 1 && items@[x] as int == j && p.holds(s, j);
                    if x < i {
                        assert(before.contains(j));
                    }
                }
            }
        }
        i = i + 1;
    }
    proof {
        assert(bits_of(out) =~= passing(s, bits_of(*b), *p)) by {
            assert forall|k: int| passing(s, bits_of(*b), *p).contains(k) implies #[trigger] bits_of(out).contains(k) by {
                let x = choose|x: int| 0 <= x < items@.len() && items@[x] as int == k;
            }
            assert forall|k: int| #[trigger] bits_of(out).contains(k) implies passing(s, bits_of(*b), *p).contains(k) by {
                let x = choose|x: int| 0 <= x < i && items@[x] as int == k && p.holds(s, k);
                assert(bits_of(*b).contains(items@[x] as int));
            }
        }
    }
    out
}


impl<'a> Children<'a> {
    /// The remaining nodes, as a selection.
    pub fn into_selection(self) -> (r: Selection<'a>)
        requires
            self.wf(),
        ensures
            r.wf(),
            r.arena() == self.arena(),
            r.indices() == self.remaining().to_set(),
    {
        let ghost s = self.arena();
        let ghost all = self.remaining();
        let document = self.document();
        let mut it = self;
        let mut acc = bits_new();
        let ghost seen: Seq<int> = Seq::empty();
        loop
            invariant
                it.wf(),
                it.arena() == s,
                document@ == s,
                s == self.arena(),
                all == self.remaining(),
                arena_wf(s),
                seen + it.remaining() == all,
                forall|k: int| #[trigger] bits_of(acc).contains(k) ==> 0 <= k < s.len(),
                forall|k: int| #[trigger] bits_of(acc).contains(k) <==> seen.contains(k),
            decreases it.remaining().len(),
        {
            let ghost before = it.remaining();
            match it.next() {
                Some(n) => {
                    bits_insert(&mut acc, n.index());
                    proof {
                        assert(seen.push(n.pos()) + it.remaining() =~= seen + before);
                        lemma_push_contains(seen, n.pos());
                        seen = seen.push(n.pos());
                    }
                },
                None => {
                    proof {
                        assert(seen + before =~= seen);
                        assert(bits_of(acc) =~= all.to_set());
                    }
                    return Selection { document, bit_set: acc };
                },
            }
        }
    }
}

impl<'a, P: Predicate> node::Find<'a, P> {
    /// The remaining nodes, as a selection.
    pub fn into_selection(self) -> (r: Selection<'a>)
        requires
            self.wf(),
        ensures
            r.wf(),
            r.arena() == self.arena(),
            r.indices() == self.remaining().to_set(),
    {
        let ghost s = self.arena();
        let ghost all = self.remaining();
        let document = self.document();
        let mut it = self;
        let mut acc = bits_new();
        let ghost seen: Seq<int> = Seq::empty();
        loop
            invariant
                it.wf(),
                it.arena() == s,
                document@ == s,
                s == self.arena(),
                all == self.remaining(),
                arena_wf(s),
                seen + it.remaining() == all,
                forall|k: int| #[trigger] bits_of(acc).contains(k) ==> 0 <= k < s.len(),
                forall|k: int| #[trigger] bits_of(acc).contains(k) <==> seen.contains(k),
            decreases it.remaining().len(),
        {
            let ghost before = it.remaining();
            match it.next() {
                Some(n) => {
                    bits_insert(&mut acc, n.index());
                    proof {
                        assert(seen.push(n.pos()) + it.remaining() =~= seen + before);
                        lemma_push_contains(seen, n.pos());
                        seen = seen.push(n.pos());
                    }
                },
                None => {
                    proof {
                        assert(seen + before =~= seen);
                        assert(bits_of(acc) =~= all.to_set());
                    }
                    return Selection { document, bit_set: acc };
                },
            }
        }
    }
}

impl<'a, P: Predicate> document::Find<'a, P> {
    /// The remaining nodes, as a selection.
    pub fn into_selection(self) -> (r: Selection<'a>)
        requires
            self.wf(),
        ensures
            r.wf(),
            r.arena() == self.arena(),
            r.indices() == self.remaining().to_set(),
    {
        let ghost s = self.arena();
        let ghost all = self.remaining();
        let document = self.document();
        let mut it = self;
        let mut acc = bits_new();
        let ghost seen: Seq<int> = Seq::empty();
        loop
            invariant
                it.wf(),
                it.arena() == s,
                document@ == s,
                s == self.arena(),
                all == self.remaining(),
                arena_wf(s),
                seen + it.remaining() == all,
                forall|k: int| #[trigger] bits_of(acc).contains(k) ==> 0 <= k < s.len(),
                forall|k: int| #[trigger] bits_of(acc).contains(k) <==> seen.contains(k),
            decreases it.remaining().len(),
        {
            let ghost before = it.remaining();
            match it.next() {
                Some(n) => {
                    bits_insert(&mut acc, n.index());
                    proof {
                        assert(seen.push(n.pos()) + it.remaining() =~= seen + before);
                        lemma_push_contains(seen, n.pos());
                        seen = seen.push(n.pos());
                    }
                },
                None => {
                    proof {
                        assert(seen + before =~= seen);
                        assert(bits_of(acc) =~= all.to_set());
                    }
                    return Selection { document, bit_set: acc };
                },
            }
        }
    }
}

} // verus!
