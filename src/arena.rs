//! The arena model: node records linked by indices, what makes such an
//! arena well formed, and the structural facts that follow from it.
use vstd::prelude::*;

verus! {

/// A name with its namespace, as the parser reported it.
pub struct QualName {
    pub prefix: Option<String>,
    pub ns: String,
    pub local: String,
}

/// The payload of one node record.
pub enum Data {
    Text(String),
    Element(QualName, Vec<(QualName, String)>),
    Comment(String),
}

/// One node record of an arena: its own position and its links.
pub struct Raw {
    pub index: usize,
    pub parent: Option<usize>,
    pub prev: Option<usize>,
    pub next: Option<usize>,
    pub first_child: Option<usize>,
    pub last_child: Option<usize>,
    pub data: Data,
}

/// `a` is a strict ancestor of `d`: it is reached from `d` by parent links.
pub open spec fn is_ancestor(s: Seq<Raw>, a: int, d: int) -> bool
    decreases d,
{
    match s[d].parent {
        Some(p) => (p as int) < d && (p as int == a || is_ancestor(s, a, p as int)),
        None => false,
    }
}

/// `d` lies in the subtree rooted at `a`.
pub open spec fn in_subtree(s: Seq<Raw>, a: int, d: int) -> bool {
    d == a || is_ancestor(s, a, d)
}

/// Local consistency of record `i` and its place in document order.
pub open spec fn node_wf(s: Seq<Raw>, i: int) -> bool {
    let r = s[i];
    &&& r.index as int == i
    &&& (r.parent matches Some(p) ==> (p as int) < i && s[p as int].data is Element)
    &&& (r.prev matches Some(q) ==> (q as int) < i && s[q as int].next == Some(i as usize)
        && s[q as int].parent == r.parent)
    &&& (r.next matches Some(q) ==> i < q < s.len() && s[q as int].prev == Some(i as usize))
    &&& (r.first_child matches Some(c) ==> c < s.len() && s[c as int].parent == Some(i as usize)
        && s[c as int].prev is None)
    &&& (r.last_child matches Some(c) ==> c < s.len() && s[c as int].parent == Some(i as usize)
        && s[c as int].next is None)
    &&& (r.first_child is None <==> r.last_child is None)
    &&& (r.prev is None ==> (r.parent matches Some(p) ==> s[p as int].first_child == Some(i as usize)))
    &&& (r.next is None ==> (r.parent matches Some(p) ==> s[p as int].last_child == Some(i as usize)))
    &&& (i == 0 ==> r.parent is None && r.prev is None)
    &&& (i > 0 ==> follows_preorder(s, i))
}

/// Record `i > 0` comes right after `i - 1` in a pre-order walk: it is the
/// first child of `i - 1`, or the next sibling of `i - 1` or of one of its
/// ancestors.
pub open spec fn follows_preorder(s: Seq<Raw>, i: int) -> bool {
    ||| (s[i].parent == Some((i - 1) as usize) && s[i].prev is None)
    ||| (s[i].prev matches Some(a) && in_subtree(s, a as int, i - 1))
}

/// Every record of the arena is consistent.
pub open spec fn arena_wf(s: Seq<Raw>) -> bool {
    forall|i: int| 0 <= i < s.len() ==> #[trigger] node_wf(s, i)
}

/// The indices in `[lo, s.len())` that lie strictly below `a`, ascending.
pub open spec fn descendants_from(s: Seq<Raw>, a: int, lo: int) -> Seq<int>
    decreases s.len() - lo,
{
    if lo >= s.len() {
        Seq::empty()
    } else if is_ancestor(s, a, lo) {
        seq![lo].add(descendants_from(s, a, lo + 1))
    } else {
        descendants_from(s, a, lo + 1)
    }
}

/// The strict descendants of `a` in document order.
pub open spec fn descendants_of(s: Seq<Raw>, a: int) -> Seq<int> {
    descendants_from(s, a, a + 1)
}

pub proof fn lemma_ancestor_lt(s: Seq<Raw>, a: int, d: int)
    requires
        is_ancestor(s, a, d),
    ensures
        0 <= a < d,
    decreases d,
{
    let p = s[d].parent.unwrap() as int;
    if p != a {
        lemma_ancestor_lt(s, a, p);
    }
}

pub proof fn lemma_ancestor_trans(s: Seq<Raw>, a: int, b: int, c: int)
    requires
        is_ancestor(s, a, b),
        is_ancestor(s, b, c),
    ensures
        is_ancestor(s, a, c),
    decreases c,
{
    let p = s[c].parent.unwrap() as int;
    if p != b {
        lemma_ancestor_trans(s, a, b, p);
    }
}

/// The ancestors of one node form a chain.
pub proof fn lemma_ancestor_chain(s: Seq<Raw>, a: int, b: int, x: int)
    requires
        is_ancestor(s, a, x),
        is_ancestor(s, b, x),
    ensures
        a == b || is_ancestor(s, a, b) || is_ancestor(s, b, a),
    decreases x,
{
    let p = s[x].parent.unwrap() as int;
    if p != a && p != b {
        lemma_ancestor_chain(s, a, b, p);
    }
}

/// A subtree occupies a contiguous range of indices.
pub proof fn lemma_subtree_contiguous(s: Seq<Raw>, a: int, j: int, k: int)
    requires
        arena_wf(s),
        0 <= j < s.len(),
        is_ancestor(s, a, j),
        a < k <= j,
    ensures
        is_ancestor(s, a, k),
    decreases j,
{
    if k < j {
        lemma_ancestor_lt(s, a, j);
        assert(node_wf(s, j));
        if s[j].parent == Some((j - 1) as usize) && s[j].prev is None {
            lemma_subtree_contiguous(s, a, j - 1, k);
        } else {
            let b = s[j].prev.unwrap() as int;
            assert(node_wf(s, b));
            assert(is_ancestor(s, a, b));
            if b != j - 1 {
                lemma_ancestor_trans(s, a, b, j - 1);
            }
            lemma_subtree_contiguous(s, a, j - 1, k);
        }
    }
}

/// A node's next sibling is not below it.
pub proof fn lemma_sibling_not_below(s: Seq<Raw>, a: int)
    requires
        arena_wf(s),
        0 <= a < s.len(),
        s[a].next is Some,
    ensures
        !is_ancestor(s, a, s[a].next.unwrap() as int),
{
    let q = s[a].next.unwrap() as int;
    assert(node_wf(s, a));
    assert(node_wf(s, q));
    if is_ancestor(s, a, q) {
        let p = s[q].parent.unwrap() as int;
        if p != a {
            lemma_ancestor_lt(s, a, p);
        }
    }
}

/// The next sibling of `p` comes after the whole subtree of `p`.
pub proof fn lemma_next_after_subtree(s: Seq<Raw>, p: int, c: int)
    requires
        arena_wf(s),
        0 <= c < s.len(),
        is_ancestor(s, p, c),
        s[p].next is Some,
    ensures
        c < s[p].next.unwrap(),
{
    let q = s[p].next.unwrap() as int;
    lemma_ancestor_lt(s, p, c);
    lemma_sibling_not_below(s, p);
    if q <= c {
        assert(node_wf(s, p));
        if q < c {
            lemma_subtree_contiguous(s, p, c, q);
        }
    }
}

/// A first child directly follows its parent.
pub proof fn lemma_first_child_follows(s: Seq<Raw>, c: int)
    requires
        arena_wf(s),
        0 <= c < s.len(),
        s[c].first_child is Some,
    ensures
        s[c].first_child.unwrap() == c + 1,
{
    let x = s[c].first_child.unwrap() as int;
    assert(node_wf(s, c));
    assert(node_wf(s, x));
}

/// If `c + 1` lies below `c`, it is the first child of `c`.
pub proof fn lemma_below_next_is_child(s: Seq<Raw>, c: int)
    requires
        arena_wf(s),
        0 <= c,
        c + 1 < s.len(),
        is_ancestor(s, c, c + 1),
    ensures
        s[c].first_child == Some((c + 1) as usize),
{
    assert(node_wf(s, c + 1));
    let p = s[c + 1].parent.unwrap() as int;
    if p != c {
        lemma_ancestor_lt(s, c, p);
    }
    if !(s[c + 1].parent == Some(c as usize) && s[c + 1].prev is None) {
        let a = s[c + 1].prev.unwrap() as int;
        assert(node_wf(s, a));
    }
}

/// A leaf's next sibling directly follows it.
pub proof fn lemma_next_of_leaf_follows(s: Seq<Raw>, c: int)
    requires
        arena_wf(s),
        0 <= c < s.len(),
        s[c].first_child is None,
        s[c].next is Some,
    ensures
        s[c].next.unwrap() == c + 1,
{
    let q = s[c].next.unwrap() as int;
    assert(node_wf(s, c));
    assert(node_wf(s, q));
    if q != c + 1 {
        if s[q].parent == Some((q - 1) as usize) && s[q].prev is None {
        } else {
            assert(is_ancestor(s, c, q - 1));
            lemma_subtree_contiguous(s, c, q - 1, c + 1);
            lemma_below_next_is_child(s, c);
        }
    }
}

} // verus!
