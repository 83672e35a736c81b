//! The walk behind serialization: a node's subtree as the sequence of
//! start tags, end tags, texts and comments that a serializer writes.
use vstd::prelude::*;
use crate::arena::{Data, Raw};
use crate::node::{Node, children_of};

verus! {

/// One thing a serializer writes, naming the node it comes from.
#[derive(Clone, Copy, Debug, PartialEq, Eq)]
pub enum Markup {
    Start(usize),
    End(usize),
    Text(usize),
    Comment(usize),
}

/// The markup of node `i`, descending at most `depth` levels.
pub open spec fn markup_within(s: Seq<Raw>, i: int, depth: nat) -> Seq<Markup>
    decreases depth, 0nat,
{
    if depth == 0 {
        Seq::empty()
    } else {
        match s[i].data {
            Data::Text(_) => seq![Markup::Text(i as usize)],
            Data::Comment(_) => seq![Markup::Comment(i as usize)],
            Data::Element(_, _) => seq![Markup::Start(i as usize)] + markup_of_list(
                s,
                children_of(s, i),
                (depth - 1) as nat,
            ) + seq![Markup::End(i as usize)],
        }
    }
}

/// The markup of the nodes `ks`, one after the other.
pub open spec fn markup_of_list(s: Seq<Raw>, ks: Seq<int>, depth: nat) -> Seq<Markup>
    decreases depth, ks.len() + 1,
{
    if ks.len() == 0 {
        Seq::empty()
    } else {
        markup_of_list(s, ks.drop_last(), depth) + markup_within(s, ks.last(), depth)
    }
}

/// The markup of node `i` and its whole subtree.
pub open spec fn markup_of(s: Seq<Raw>, i: int) -> Seq<Markup> {
    markup_within(s, i, s.len())
}

/// The markup of the children of node `i`.
pub open spec fn inner_markup_of(s: Seq<Raw>, i: int) -> Seq<Markup> {
    markup_of_list(s, children_of(s, i), s.len())
}

fn emit_children(node: &Node, depth: usize, out: &mut Vec<Markup>)
    requires
        node.wf(),
    ensures
        final(out)@ == old(out)@ + markup_of_list(node.arena(), children_of(node.arena(), node.pos()), depth as nat),
    decreases depth, 1nat,
{
    let ghost s = node.arena();
    let ghost base = out@;
    let mut it = node.children();
    let ghost seen: Seq<int> = Seq::empty();
    proof {
        assert(base + markup_of_list(s, seen, depth as nat) =~= base);
    }
    loop
        invariant
            it.wf(),
            it.arena() == s,
            s == node.arena(),
            seen + it.remaining() == children_of(s, node.pos()),
            out@ == base + markup_of_list(s, seen, depth as nat),
        ensures
            seen == children_of(s, node.pos()),
            out@ == base + markup_of_list(s, seen, depth as nat),
        decreases it.remaining().len(),
    {
        let ghost before = it.remaining();
        match it.next() {
            Some(c) => {
                emit(&c, depth, out);
                proof {
                    let seen2 = seen.push(c.pos());
                    assert(seen2.drop_last() =~= seen);
                    assert(seen2 + it.remaining() =~= seen + before);
                    assert(out@ =~= base + markup_of_list(s, seen2, depth as nat));
                    seen = seen2;
                }
            },
            None => {
                proof {
                    assert(seen + before =~= seen);
                }
                break;
            },
        }
    }
}

fn emit(node: &Node, depth: usize, out: &mut Vec<Markup>)
    requires
        node.wf(),
    ensures
        final(out)@ == old(out)@ + markup_within(node.arena(), node.pos(), depth as nat),
    decreases depth, 0nat,
{
    if depth == 0 {
        proof {
            assert(old(out)@ + Seq::<Markup>::empty() =~= old(out)@);
        }
        return;
    }
    let i = node.index();
    match node.data() {
        Data::Text(_) => out.push(Markup::Text(i)),
        Data::Comment(_) => out.push(Markup::Comment(i)),
        Data::Element(_, _) => {
            let ghost base = out@;
            out.push(Markup::Start(i));
            emit_children(node, depth - 1, out);
            out.push(Markup::End(i));
            proof {
                assert(out@ =~= base + (seq![Markup::Start(i)] + markup_of_list(
                    node.arena(),
                    children_of(node.arena(), node.pos()),
                    (depth - 1) as nat,
                ) + seq![Markup::End(i)]));
            }
        },
    }
}

impl<'a> Node<'a> {
    /// The markup of this node and its subtree, in the order a serializer
    /// writes it.
    pub fn markup(&self) -> (r: Vec<Markup>)
        requires
            self.wf(),
        ensures
            r@ == markup_of(self.arena(), self.pos()),
    {
        let mut out: Vec<Markup> = Vec::new();
        let n = self.document_len();
        emit(self, n, &mut out);
        proof {
            assert(out@ =~= markup_of(self.arena(), self.pos()));
        }
        out
    }

    /// The markup of the children of this node, in the order a serializer
    /// writes it.
    pub fn inner_markup(&self) -> (r: Vec<Markup>)
        requires
            self.wf(),
        ensures
            r@ == inner_markup_of(self.arena(), self.pos()),
    {
        let mut out: Vec<Markup> = Vec::new();
        let n = self.document_len();
        emit_children(self, n, &mut out);
        proof {
            assert(out@ =~= inner_markup_of(self.arena(), self.pos()));
        }
        out
    }
}

} // verus!
