//! Laws that relate the traversals, predicates and selections.
use vstd::prelude::*;
use crate::arena::{
    Data, Raw, arena_wf, descendants_from, descendants_of, in_subtree, is_ancestor,
    lemma_ancestor_lt, lemma_ancestor_trans, lemma_below_next_is_child, lemma_next_after_subtree,
    lemma_subtree_contiguous, node_wf,
};
use crate::document::indices_from;
use crate::markup::{Markup, markup_of, markup_of_list, markup_within};
use crate::node::{children_of, joined_text, lemma_descendants_none, own_text, siblings_from, text_of};
use crate::predicate::{Any, Predicate};
use crate::selection::{below_some, lemma_descendants_from_contains, passing};

verus! {

/// The descendants of `m` that pass `q`, in document order: what a search
/// from node `m` yields.
pub open spec fn found_below<Q: Predicate>(s: Seq<Raw>, m: int, q: Q) -> Seq<int> {
    descendants_of(s, m).filter(|x: int| q.holds(s, x))
}

proof fn lemma_filter_all(x: Seq<int>, pred: spec_fn(int) -> bool)
    requires
        forall|k: int| #[trigger] pred(k),
    ensures
        x.filter(pred) == x,
    decreases x.len(),
{
    reveal(Seq::filter);
    if x.len() > 0 {
        lemma_filter_all(x.drop_last(), pred);
        assert(x.drop_last().push(x.last()) =~= x);
    }
}

/// Walking the descendants of a node yields the same nodes, in the same
/// order, as searching its descendants for those that pass `Any`.
pub proof fn descendants_are_find_any(s: Seq<Raw>, i: int)
    ensures
        descendants_of(s, i).filter(|k: int| Any.holds(s, k)) == descendants_of(s, i),
{
    lemma_filter_all(descendants_of(s, i), |k: int| Any.holds(s, k));
}

/// Selecting by `q` below a set of nodes gives exactly the union, over the
/// members, of what each member's own search for `q` finds. Applied to the
/// result of a first `select`, this says that chained selections behave as
/// nested descendant selectors, each node counted once.
pub proof fn select_is_union_of_finds<Q: Predicate>(s: Seq<Raw>, t: Set<int>, q: Q)
    requires
        arena_wf(s),
    ensures
        passing(s, below_some(s, t), q) == Set::new(
            |k: int|
                exists|m: int|
                    t.contains(m) && #[trigger] found_below(s, m, q).contains(k),
        ),
{
    let rhs = Set::new(
        |k: int|
            exists|m: int|
                t.contains(m) && #[trigger] found_below(s, m, q).contains(k),
    );
    assert forall|k: int| passing(s, below_some(s, t), q).contains(k) implies rhs.contains(k) by {
        let m = choose|m: int| t.contains(m) && #[trigger] is_ancestor(s, m, k);
        lemma_ancestor_lt(s, m, k);
        lemma_descendants_from_contains(s, m, m + 1, k);
        let d = descendants_of(s, m);
        let j = choose|j: int| 0 <= j < d.len() && d[j] == k;
        d.lemma_filter_contains(|x: int| q.holds(s, x), j);
        assert(found_below(s, m, q).contains(k));
    }
    assert forall|k: int| rhs.contains(k) implies passing(s, below_some(s, t), q).contains(k) by {
        let m = choose|m: int| t.contains(m) && #[trigger] found_below(s, m, q).contains(k);
        let d = descendants_of(s, m);
        d.lemma_filter_contains_rev(|x: int| q.holds(s, x), k);
        lemma_descendants_from_contains(s, m, m + 1, k);
        assert(below_some(s, t).contains(k));
    }
    assert(passing(s, below_some(s, t), q) =~= rhs);
}

/// Filtering twice by the same predicate is filtering once.
pub proof fn filter_is_idempotent<P: Predicate>(s: Seq<Raw>, m: Set<int>, p: P)
    ensures
        passing(s, passing(s, m, p), p) == passing(s, m, p),
{
    assert(passing(s, passing(s, m, p), p) =~= passing(s, m, p));
}

/// Where the subtree of node `i` ends: at its next sibling, or else where
/// its parent's subtree ends, or else at the end of the arena.
pub open spec fn subtree_end(s: Seq<Raw>, i: int) -> int
    decreases i,
{
    if 0 <= i < s.len() {
        match s[i].next {
            Some(q) => q as int,
            None => match s[i].parent {
                Some(p) => if (p as int) < i {
                    subtree_end(s, p as int)
                } else {
                    s.len() as int
                },
                None => s.len() as int,
            },
        }
    } else {
        s.len() as int
    }
}

/// A node without a next sibling owns every later node that its parent owns.
proof fn lemma_last_owns_rest(s: Seq<Raw>, i: int, k: int)
    requires
        arena_wf(s),
        0 <= i < k < s.len(),
        s[i].next is None,
        s[i].parent matches Some(p) ==> is_ancestor(s, p as int, k),
    ensures
        is_ancestor(s, i, k),
    decreases k,
{
    assert(node_wf(s, i));
    assert(node_wf(s, k));
    if s[k].parent == Some((k - 1) as usize) && s[k].prev is None {
        if k - 1 > i {
            if let Some(p) = s[i].parent {
                lemma_ancestor_lt(s, p as int, i);
                lemma_subtree_contiguous(s, p as int, k, k - 1);
            }
            lemma_last_owns_rest(s, i, k - 1);
        }
    } else {
        let a = s[k].prev.unwrap() as int;
        assert(node_wf(s, a));
        if a > i {
            if let Some(p) = s[i].parent {
                lemma_ancestor_lt(s, p as int, i);
                lemma_subtree_contiguous(s, p as int, k, a);
            }
            lemma_last_owns_rest(s, i, a);
        } else if a < i {
            assert(is_ancestor(s, a, i)) by {
                if i < k - 1 {
                    lemma_subtree_contiguous(s, a, k - 1, i);
                }
            }
            let p = s[i].parent.unwrap() as int;
            if p != a {
                lemma_ancestor_lt(s, a, p);
            }
            let pa = s[k].parent.unwrap() as int;
            if pa != p {
                lemma_ancestor_lt(s, p, pa);
            }
        }
    }
}

/// The nodes strictly between `i` and its subtree end are exactly the
/// descendants of `i`.
pub proof fn lemma_subtree_end(s: Seq<Raw>, i: int)
    requires
        arena_wf(s),
        0 <= i < s.len(),
    ensures
        i < subtree_end(s, i) <= s.len(),
        forall|k: int| i < k < s.len() ==> (#[trigger] is_ancestor(s, i, k) <==> k < subtree_end(s, i)),
    decreases i,
{
    assert(node_wf(s, i));
    match s[i].next {
        Some(q) => {
            let q = q as int;
            assert(node_wf(s, q));
            assert(in_subtree(s, i, q - 1));
            assert forall|k: int| i < k < s.len() implies (#[trigger] is_ancestor(s, i, k) <==> k < subtree_end(s, i)) by {
                if is_ancestor(s, i, k) {
                    lemma_next_after_subtree(s, i, k);
                }
                if k < q && k < q - 1 {
                    lemma_subtree_contiguous(s, i, q - 1, k);
                }
            }
        },
        None => {
            match s[i].parent {
                Some(p) => {
                    let p = p as int;
                    lemma_subtree_end(s, p);
                    assert(is_ancestor(s, p, i));
                    assert forall|k: int| i < k < s.len() implies (#[trigger] is_ancestor(s, i, k) <==> k < subtree_end(s, i)) by {
                        if is_ancestor(s, i, k) {
                            lemma_ancestor_trans(s, p, i, k);
                        }
                        if k < subtree_end(s, p) {
                            lemma_last_owns_rest(s, i, k);
                        }
                    }
                },
                None => {
                    assert forall|k: int| i < k < s.len() implies (#[trigger] is_ancestor(s, i, k) <==> k < subtree_end(s, i)) by {
                        lemma_last_owns_rest(s, i, k);
                    }
                },
            }
        },
    }
}

/// The descendants of `i` from `lo` on are the indices up to its subtree end.
proof fn lemma_descendants_range(s: Seq<Raw>, i: int, lo: int)
    requires
        arena_wf(s),
        0 <= i < s.len(),
        i < lo <= subtree_end(s, i),
    ensures
        descendants_from(s, i, lo) == indices_from(lo, subtree_end(s, i)),
    decreases s.len() - lo,
{
    lemma_subtree_end(s, i);
    let e = subtree_end(s, i);
    if lo < e {
        assert(is_ancestor(s, i, lo));
        lemma_descendants_range(s, i, lo + 1);
        assert(seq![lo] + indices_from(lo + 1, e) =~= indices_from(lo, e));
    } else {
        lemma_descendants_none(s, i, lo);
        assert(indices_from(lo, e) =~= Seq::<int>::empty());
    }
}

/// The nodes that the text markups of `ms` name, in order.
pub open spec fn texts_of(ms: Seq<Markup>) -> Seq<int>
    decreases ms.len(),
{
    if ms.len() == 0 {
        Seq::empty()
    } else {
        let r = texts_of(ms.drop_last());
        match ms.last() {
            Markup::Text(k) => r.push(k as int),
            _ => r,
        }
    }
}

/// The text nodes among `ks`, in order.
pub open spec fn text_nodes(s: Seq<Raw>, ks: Seq<int>) -> Seq<int>
    decreases ks.len(),
{
    if ks.len() == 0 {
        Seq::empty()
    } else {
        let r = text_nodes(s, ks.drop_last());
        if s[ks.last()].data is Text {
            r.push(ks.last())
        } else {
            r
        }
    }
}

proof fn lemma_texts_of_add(a: Seq<Markup>, b: Seq<Markup>)
    ensures
        texts_of(a + b) == texts_of(a) + texts_of(b),
    decreases b.len(),
{
    if b.len() == 0 {
        assert(a + b =~= a);
        assert(texts_of(a) + texts_of(b) =~= texts_of(a));
    } else {
        assert((a + b).drop_last() =~= a + b.drop_last());
        lemma_texts_of_add(a, b.drop_last());
        assert((a + b).last() == b.last());
        match b.last() {
            Markup::Text(k) => {
                assert(texts_of(a) + texts_of(b.drop_last()).push(k as int) =~= (texts_of(a)
                    + texts_of(b.drop_last())).push(k as int));
            },
            _ => {},
        }
    }
}

proof fn lemma_text_nodes_add(s: Seq<Raw>, a: Seq<int>, b: Seq<int>)
    ensures
        text_nodes(s, a + b) == text_nodes(s, a) + text_nodes(s, b),
    decreases b.len(),
{
    if b.len() == 0 {
        assert(a + b =~= a);
        assert(text_nodes(s, a) + text_nodes(s, b) =~= text_nodes(s, a));
    } else {
        assert((a + b).drop_last() =~= a + b.drop_last());
        lemma_text_nodes_add(s, a, b.drop_last());
        assert((a + b).last() == b.last());
        if s[b.last()].data is Text {
            assert(text_nodes(s, a) + text_nodes(s, b.drop_last()).push(b.last()) =~= (text_nodes(s, a)
                + text_nodes(s, b.drop_last())).push(b.last()));
        }
    }
}

proof fn lemma_joined_text_nodes(s: Seq<Raw>, ks: Seq<int>)
    ensures
        joined_text(s, ks) == joined_text(s, text_nodes(s, ks)),
    decreases ks.len(),
{
    if ks.len() > 0 {
        lemma_joined_text_nodes(s, ks.drop_last());
        let r = text_nodes(s, ks.drop_last());
        if s[ks.last()].data is Text {
            assert(r.push(ks.last()).drop_last() =~= r);
        } else {
            assert(own_text(s, ks.last()) =~= Seq::<char>::empty());
            assert(joined_text(s, ks.drop_last()) + own_text(s, ks.last()) =~= joined_text(s, ks.drop_last()));
        }
    }
}

proof fn lemma_markup_list_cons(s: Seq<Raw>, k: int, rest: Seq<int>, d: nat)
    ensures
        markup_of_list(s, seq![k] + rest, d) == markup_within(s, k, d) + markup_of_list(s, rest, d),
    decreases rest.len(),
{
    if rest.len() == 0 {
        assert(seq![k] + rest =~= seq![k]);
        assert(seq![k].drop_last() =~= Seq::<int>::empty());
        assert(markup_of_list(s, Seq::<int>::empty(), d) == Seq::<Markup>::empty());
        assert(markup_of_list(s, seq![k], d) == markup_of_list(s, seq![k].drop_last(), d) + markup_within(s, seq![k].last(), d));
        assert(markup_within(s, k, d) + markup_of_list(s, rest, d) =~= markup_within(s, k, d));
        assert(Seq::<Markup>::empty() + markup_within(s, k, d) =~= markup_within(s, k, d));
    } else {
        assert((seq![k] + rest).drop_last() =~= seq![k] + rest.drop_last());
        lemma_markup_list_cons(s, k, rest.drop_last(), d);
        assert((seq![k] + rest).last() == rest.last());
        assert(markup_of_list(s, seq![k] + rest, d) == markup_of_list(s, (seq![k] + rest).drop_last(), d) + markup_within(s, (seq![k] + rest).last(), d));
        assert(markup_within(s, k, d) + markup_of_list(s, rest.drop_last(), d) + markup_within(s, rest.last(), d)
            =~= markup_within(s, k, d) + (markup_of_list(s, rest.drop_last(), d) + markup_within(s, rest.last(), d)));
    }
}

proof fn lemma_leaf_end(s: Seq<Raw>, i: int)
    requires
        arena_wf(s),
        0 <= i < s.len(),
        s[i].first_child is None,
    ensures
        subtree_end(s, i) == i + 1,
{
    lemma_subtree_end(s, i);
    if subtree_end(s, i) > i + 1 {
        assert(is_ancestor(s, i, i + 1));
        lemma_below_next_is_child(s, i);
    }
}

proof fn lemma_node_texts(s: Seq<Raw>, i: int, d: nat)
    requires
        arena_wf(s),
        0 <= i < s.len(),
        d >= s.len() - i,
    ensures
        texts_of(markup_within(s, i, d)) == text_nodes(s, indices_from(i, subtree_end(s, i))),
    decreases s.len() - i, 0nat,
{
    assert(node_wf(s, i));
    lemma_subtree_end(s, i);
    let e = subtree_end(s, i);
    if s[i].first_child is None {
        lemma_leaf_end(s, i);
        assert(indices_from(i, e) =~= seq![i]);
        assert(seq![i].drop_last() =~= Seq::<int>::empty());
        match s[i].data {
            Data::Text(_) => {
                assert(seq![Markup::Text(i as usize)].drop_last() =~= Seq::<Markup>::empty());
                assert(markup_within(s, i, d) == seq![Markup::Text(i as usize)]);
                assert(texts_of(seq![Markup::Text(i as usize)]) == texts_of(Seq::<Markup>::empty()).push(i));
                assert(texts_of(markup_within(s, i, d)) =~= seq![i]);
                assert(text_nodes(s, seq![i]) == text_nodes(s, Seq::<int>::empty()).push(i));
                assert(text_nodes(s, seq![i]) =~= seq![i]);
            },
            Data::Comment(_) => {
                assert(seq![Markup::Comment(i as usize)].drop_last() =~= Seq::<Markup>::empty());
                assert(markup_within(s, i, d) == seq![Markup::Comment(i as usize)]);
                assert(seq![Markup::Comment(i as usize)].last() == Markup::Comment(i as usize));
                assert(texts_of(seq![Markup::Comment(i as usize)]) == texts_of(Seq::<Markup>::empty()));
                assert(texts_of(markup_within(s, i, d)) =~= Seq::<int>::empty());
                assert(seq![i].last() == i);
                assert(text_nodes(s, seq![i]) == text_nodes(s, Seq::<int>::empty()));
                assert(text_nodes(s, seq![i]) =~= Seq::<int>::empty());
            },
            Data::Element(_, _) => {
                let inner = markup_of_list(s, children_of(s, i), (d - 1) as nat);
                assert(inner =~= Seq::<Markup>::empty());
                lemma_texts_of_add(seq![Markup::Start(i as usize)] + inner, seq![Markup::End(i as usize)]);
                lemma_texts_of_add(seq![Markup::Start(i as usize)], inner);
                assert(seq![Markup::Start(i as usize)].drop_last() =~= Seq::<Markup>::empty());
                assert(seq![Markup::End(i as usize)].drop_last() =~= Seq::<Markup>::empty());
                assert(texts_of(markup_within(s, i, d)) =~= Seq::<int>::empty());
                assert(seq![i].last() == i);
                assert(text_nodes(s, seq![i]) == text_nodes(s, Seq::<int>::empty()));
            },
        }
    } else {
        let c = s[i].first_child.unwrap() as int;
        crate::arena::lemma_first_child_follows(s, i);
        assert(node_wf(s, c));
        let inner = markup_of_list(s, children_of(s, i), (d - 1) as nat);
        lemma_sibling_texts(s, c, (d - 1) as nat);
        lemma_texts_of_add(seq![Markup::Start(i as usize)] + inner, seq![Markup::End(i as usize)]);
        lemma_texts_of_add(seq![Markup::Start(i as usize)], inner);
        assert(seq![Markup::Start(i as usize)].drop_last() =~= Seq::<Markup>::empty());
        assert(seq![Markup::End(i as usize)].drop_last() =~= Seq::<Markup>::empty());
        assert(indices_from(i, e) =~= seq![i] + indices_from(c, e));
        lemma_text_nodes_add(s, seq![i], indices_from(c, e));
        assert(seq![i].drop_last() =~= Seq::<int>::empty());
        assert(Seq::<int>::empty() + texts_of(inner) =~= texts_of(inner));
        assert(texts_of(inner) + Seq::<int>::empty() =~= texts_of(inner));
        assert(seq![i].last() == i);
        assert(text_nodes(s, seq![i]) == text_nodes(s, Seq::<int>::empty()));
        assert(s[i].data is Element);
        assert(markup_within(s, i, d) == seq![Markup::Start(i as usize)] + inner + seq![Markup::End(i as usize)]);
        assert(seq![Markup::Start(i as usize)].last() == Markup::Start(i as usize));
        assert(seq![Markup::End(i as usize)].last() == Markup::End(i as usize));
        assert(texts_of(seq![Markup::Start(i as usize)]) == texts_of(Seq::<Markup>::empty()));
        assert(texts_of(seq![Markup::End(i as usize)]) == texts_of(Seq::<Markup>::empty()));
        assert(texts_of(markup_within(s, i, d)) =~= texts_of(inner));
    }
}

proof fn lemma_sibling_texts(s: Seq<Raw>, c: int, d: nat)
    requires
        arena_wf(s),
        0 <= c < s.len(),
        s[c].parent is Some,
        d >= s.len() - c,
    ensures
        texts_of(markup_of_list(s, siblings_from(s, c), d)) == text_nodes(
            s,
            indices_from(c, subtree_end(s, s[c].parent.unwrap() as int)),
        ),
    decreases s.len() - c, 1nat,
{
    assert(node_wf(s, c));
    let p = s[c].parent.unwrap() as int;
    lemma_subtree_end(s, p);
    lemma_subtree_end(s, c);
    assert(is_ancestor(s, p, c));
    let ep = subtree_end(s, p);
    let ec = subtree_end(s, c);
    lemma_node_texts(s, c, d);
    match s[c].next {
        Some(q) => {
            let q = q as int;
            assert(node_wf(s, q));
            assert(siblings_from(s, c) == seq![c] + siblings_from(s, q));
            lemma_markup_list_cons(s, c, siblings_from(s, q), d);
            lemma_sibling_texts(s, q, d);
            lemma_texts_of_add(markup_within(s, c, d), markup_of_list(s, siblings_from(s, q), d));
            assert(is_ancestor(s, p, q));
            assert(indices_from(c, ep) =~= indices_from(c, q) + indices_from(q, ep));
            lemma_text_nodes_add(s, indices_from(c, q), indices_from(q, ep));
        },
        None => {
            assert(siblings_from(s, c) == seq![c]);
            assert(seq![c] =~= seq![c] + Seq::<int>::empty());
            lemma_markup_list_cons(s, c, Seq::<int>::empty(), d);
            assert(markup_within(s, c, d) + Seq::<Markup>::empty() =~= markup_within(s, c, d));
        },
    }
}

/// The text markups of a node's serialization name exactly the text nodes
/// of its subtree, in document order: the texts a serializer writes for a
/// node join to the node's `text()`. (What the parser then makes of the
/// written markup is outside this statement.)
pub proof fn markup_texts_join_to_text(s: Seq<Raw>, i: int)
    requires
        arena_wf(s),
        0 <= i < s.len(),
    ensures
        joined_text(s, texts_of(markup_of(s, i))) == text_of(s, i),
{
    lemma_node_texts(s, i, s.len());
    lemma_subtree_end(s, i);
    let e = subtree_end(s, i);
    lemma_descendants_range(s, i, i + 1);
    assert(seq![i] + descendants_of(s, i) =~= indices_from(i, e));
    lemma_joined_text_nodes(s, indices_from(i, e));
}

/// The recursive pre-order walk of node `i`, descending at most `depth`
/// levels: the node, then the walk of each child in order.
pub open spec fn preorder_within(s: Seq<Raw>, i: int, depth: nat) -> Seq<int>
    decreases depth, 0nat,
{
    if depth == 0 {
        Seq::empty()
    } else {
        seq![i] + preorder_of_list(s, children_of(s, i), (depth - 1) as nat)
    }
}

/// The recursive pre-order walks of the nodes `ks`, one after the other.
pub open spec fn preorder_of_list(s: Seq<Raw>, ks: Seq<int>, depth: nat) -> Seq<int>
    decreases depth, ks.len() + 1,
{
    if ks.len() == 0 {
        Seq::empty()
    } else {
        preorder_of_list(s, ks.drop_last(), depth) + preorder_within(s, ks.last(), depth)
    }
}

proof fn lemma_preorder_list_cons(s: Seq<Raw>, k: int, rest: Seq<int>, d: nat)
    ensures
        preorder_of_list(s, seq![k] + rest, d) == preorder_within(s, k, d) + preorder_of_list(s, rest, d),
    decreases rest.len(),
{
    if rest.len() == 0 {
        assert(seq![k] + rest =~= seq![k]);
        assert(seq![k].drop_last() =~= Seq::<int>::empty());
        assert(preorder_of_list(s, seq![k], d) == preorder_of_list(s, seq![k].drop_last(), d) + preorder_within(s, seq![k].last(), d));
        assert(preorder_within(s, k, d) + preorder_of_list(s, rest, d) =~= preorder_within(s, k, d));
        assert(Seq::<int>::empty() + preorder_within(s, k, d) =~= preorder_within(s, k, d));
    } else {
        assert((seq![k] + rest).drop_last() =~= seq![k] + rest.drop_last());
        lemma_preorder_list_cons(s, k, rest.drop_last(), d);
        assert((seq![k] + rest).last() == rest.last());
        assert(preorder_of_list(s, seq![k] + rest, d) == preorder_of_list(s, (seq![k] + rest).drop_last(), d) + preorder_within(s, (seq![k] + rest).last(), d));
        assert(preorder_within(s, k, d) + preorder_of_list(s, rest.drop_last(), d) + preorder_within(s, rest.last(), d)
            =~= preorder_within(s, k, d) + (preorder_of_list(s, rest.drop_last(), d) + preorder_within(s, rest.last(), d)));
    }
}

proof fn lemma_node_preorder(s: Seq<Raw>, i: int, d: nat)
    requires
        arena_wf(s),
        0 <= i < s.len(),
        d >= s.len() - i,
    ensures
        preorder_within(s, i, d) == indices_from(i, subtree_end(s, i)),
    decreases s.len() - i, 0nat,
{
    assert(node_wf(s, i));
    lemma_subtree_end(s, i);
    let e = subtree_end(s, i);
    let inner = preorder_of_list(s, children_of(s, i), (d - 1) as nat);
    if s[i].first_child is None {
        lemma_leaf_end(s, i);
        assert(inner =~= Seq::<int>::empty());
        assert(indices_from(i, e) =~= seq![i] + inner);
    } else {
        let c = s[i].first_child.unwrap() as int;
        crate::arena::lemma_first_child_follows(s, i);
        assert(node_wf(s, c));
        lemma_sibling_preorder(s, c, (d - 1) as nat);
        assert(indices_from(i, e) =~= seq![i] + indices_from(c, e));
    }
}

proof fn lemma_sibling_preorder(s: Seq<Raw>, c: int, d: nat)
    requires
        arena_wf(s),
        0 <= c < s.len(),
        s[c].parent is Some,
        d >= s.len() - c,
    ensures
        preorder_of_list(s, siblings_from(s, c), d) == indices_from(
            c,
            subtree_end(s, s[c].parent.unwrap() as int),
        ),
    decreases s.len() - c, 1nat,
{
    assert(node_wf(s, c));
    let p = s[c].parent.unwrap() as int;
    lemma_subtree_end(s, p);
    lemma_subtree_end(s, c);
    assert(is_ancestor(s, p, c));
    let ep = subtree_end(s, p);
    lemma_node_preorder(s, c, d);
    match s[c].next {
        Some(q) => {
            let q = q as int;
            assert(node_wf(s, q));
            assert(siblings_from(s, c) == seq![c] + siblings_from(s, q));
            lemma_preorder_list_cons(s, c, siblings_from(s, q), d);
            lemma_sibling_preorder(s, q, d);
            assert(is_ancestor(s, p, q));
            assert(indices_from(c, ep) =~= indices_from(c, q) + indices_from(q, ep));
        },
        None => {
            assert(siblings_from(s, c) == seq![c]);
            assert(seq![c] =~= seq![c] + Seq::<int>::empty());
            lemma_preorder_list_cons(s, c, Seq::<int>::empty(), d);
            assert(preorder_within(s, c, d) + Seq::<int>::empty() =~= preorder_within(s, c, d));
        },
    }
}

/// A node followed by its descendants in index order is exactly the
/// recursive pre-order walk of its subtree: the node, then the walk of each
/// child in order. So the descendants iterator, which yields the
/// descendants in index order, yields that walk without its first node.
pub proof fn descendants_are_preorder_walk(s: Seq<Raw>, i: int)
    requires
        arena_wf(s),
        0 <= i < s.len(),
    ensures
        seq![i] + descendants_of(s, i) == preorder_within(s, i, s.len()),
{
    lemma_node_preorder(s, i, s.len());
    lemma_subtree_end(s, i);
    lemma_descendants_range(s, i, i + 1);
    assert(seq![i] + descendants_of(s, i) =~= indices_from(i, subtree_end(s, i)));
}

} // verus!
