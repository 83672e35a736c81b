//! A parse tree held as plain values, and the arena that its pre-order walk
//! builds: wrapper nodes add no record, but their children are walked.
use vstd::prelude::*;
use crate::arena::{Data, QualName, Raw};
use crate::builder::{Builder, appended};
use crate::document::Document;

verus! {

broadcast use vstd::std_specs::vec::axiom_vec_decreases_to_view, vstd::seq::axiom_seq_index_decreases, vstd::seq::axiom_seq_subrange_decreases;

/// What one node of a parse tree is.
pub enum TreeKind {
    /// The document node that holds the whole tree.
    Document,
    Element(QualName, Vec<(QualName, String)>),
    Text(String),
    Comment(String),
    /// Any other node (a document type, a processing instruction).
    Other,
}

/// A node of a parse tree with its children in order.
pub struct Tree {
    pub kind: TreeKind,
    pub children: Vec<Tree>,
}

/// A builder's position: the records, the open element, the sibling that
/// the next record follows.
pub type BuildState = (Seq<Raw>, Option<usize>, Option<usize>);

/// The state of a builder before anything is added.
pub open spec fn start_state() -> BuildState {
    (Seq::empty(), None, None)
}

/// Adding a leaf record with payload `data`.
pub open spec fn leaf_step(st: BuildState, data: Data) -> BuildState {
    (appended(st.0, st.1, st.2, data), st.1, Some(st.0.len() as usize))
}

/// Adding an element and opening it.
pub open spec fn open_step(st: BuildState, name: QualName, attrs: Vec<(QualName, String)>) -> BuildState {
    (appended(st.0, st.1, st.2, Data::Element(name, attrs)), Some(st.0.len() as usize), None)
}

/// Closing the open element, if any.
pub open spec fn close_step(st: BuildState) -> BuildState {
    match st.1 {
        Some(p) => (st.0, st.0[p as int].parent, Some(p)),
        None => st,
    }
}

/// The state after walking tree `t` in pre-order from state `st`. Once the
/// arena has reached the largest size an index can name, nothing is added.
pub open spec fn run_tree(st: BuildState, t: Tree) -> BuildState
    decreases t,
{
    if st.0.len() >= usize::MAX {
        st
    } else {
        match t.kind {
            TreeKind::Element(name, attrs) => close_step(
                run_list(open_step(st, name, attrs), t.children@),
            ),
            TreeKind::Text(x) => leaf_step(st, Data::Text(x)),
            TreeKind::Comment(x) => leaf_step(st, Data::Comment(x)),
            _ => run_list(st, t.children@),
        }
    }
}

/// The state after walking the trees `ts` one after the other.
pub open spec fn run_list(st: BuildState, ts: Seq<Tree>) -> BuildState
    decreases ts,
{
    if ts.len() == 0 {
        st
    } else {
        run_list(run_tree(st, ts[0]), ts.subrange(1, ts.len() as int))
    }
}

/// The arena that a pre-order walk of `t` builds.
pub open spec fn arena_of(t: Tree) -> Seq<Raw> {
    run_tree(start_state(), t).0
}

fn walk_list(b: &mut Builder, children: Vec<Tree>, Ghost(parent): Ghost<Tree>)
    requires
        old(b).wf(),
        children@ == parent.children@,
    ensures
        final(b).wf(),
        final(b).state() == run_list(old(b).state(), children@),
    decreases parent, 0nat,
{
    let ghost all = children@;
    let n = children.len();
    let mut children = children;
    let mut rev: Vec<Tree> = Vec::new();
    while children.len() > 0
        invariant
            children@.len() + rev@.len() == all.len(),
            children@ == all.subrange(0, children@.len() as int),
            forall|j: int| 0 <= j < rev@.len() ==> rev@[j] == all[all.len() - 1 - j],
        decreases children.len(),
    {
        let c = children.pop().unwrap();
        rev.push(c);
    }
    let mut i: usize = 0;
    proof {
        assert(all.subrange(0, all.len() as int) =~= all);
    }
    while rev.len() > 0
        invariant
            b.wf(),
            all.len() == n,
            rev@.len() + i == all.len(),
            forall|j: int| 0 <= j < rev@.len() ==> rev@[j] == all[all.len() - 1 - j],
            all == parent.children@,
            run_list(old(b).state(), all) == run_list(b.state(), all.subrange(i as int, all.len() as int)),
        decreases rev.len(),
    {
        let c = rev.pop().unwrap();
        let ghost rest = all.subrange(i as int, all.len() as int);
        proof {
            assert(c == all[i as int]);
            assert(rest[0] == c);
            assert(rest.subrange(1, rest.len() as int) =~= all.subrange(i + 1, all.len() as int));
            assert(decreases_to!(parent => parent.children));
            assert(decreases_to!(parent.children@ => parent.children@[i as int]));
        }
        walk(b, c);
        i = i + 1;
    }
    proof {
        assert(all.subrange(i as int, all.len() as int) =~= Seq::<Tree>::empty());
    }
}

fn walk(b: &mut Builder, t: Tree)
    requires
        old(b).wf(),
    ensures
        final(b).wf(),
        final(b).state() == run_tree(old(b).state(), t),
    decreases t, 1nat,
{
    if b.len() == usize::MAX {
        return;
    }
    let ghost t0 = t;
    let Tree { kind, children } = t;
    match kind {
        TreeKind::Element(name, attrs) => {
            b.open_element(name, attrs);
            walk_list(b, children, Ghost(t0));
            b.close_element();
        },
        TreeKind::Text(x) => b.text(x),
        TreeKind::Comment(x) => b.comment(x),
        TreeKind::Document | TreeKind::Other => walk_list(b, children, Ghost(t0)),
    }
}

impl Document {
    /// The document that a pre-order walk of `tree` builds: elements, text
    /// and comments each add a record, in the order they are met; the
    /// document node and other wrapper nodes add none, but their children
    /// are walked.
    pub fn from_tree(tree: Tree) -> (r: Document)
        ensures
            r.wf(),
            r@ == arena_of(tree),
    {
        let mut b = Builder::new();
        proof {
            assert(b.state() == start_state());
        }
        walk(&mut b, tree);
        proof {
            assert(b.state().0 == arena_of(tree));
        }
        b.finish()
    }
}

} // verus!
