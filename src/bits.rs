//! The bit set that holds a selection's indices, seen through its contents.
use vstd::prelude::*;
use bit_set::BitSet;

verus! {

#[verifier::external_type_specification]
#[verifier::external_body]
#[verifier::reject_recursive_types(B)]
pub struct ExBitSet<B>(BitSet<B>);

/// The integers a bit set holds.
pub uninterp spec fn bits_of(b: BitSet) -> Set<int>;

/// Relies on `BitSet::new`: a new set is empty.
#[verifier::external_body]
pub(crate) fn bits_new() -> (r: BitSet)
    ensures
        bits_of(r) == Set::<int>::empty(),
{
    BitSet::new()
}

/// Relies on `BitSet::insert`: the value is added; the result says whether
/// it was absent before.
#[verifier::external_body]
pub(crate) fn bits_insert(b: &mut BitSet, v: usize) -> (r: bool)
    ensures
        bits_of(*final(b)) == bits_of(*old(b)).insert(v as int),
        r == !bits_of(*old(b)).contains(v as int),
{
    b.insert(v)
}

/// Relies on `BitSet::contains`.
#[verifier::external_body]
pub(crate) fn bits_contains(b: &BitSet, v: usize) -> (r: bool)
    ensures
        r == bits_of(*b).contains(v as int),
{
    b.contains(v)
}

/// Relies on `BitSet::len`: the number of values held.
#[verifier::external_body]
pub(crate) fn bits_len(b: &BitSet) -> (r: usize)
    ensures
        r == bits_of(*b).len(),
{
    b.len()
}

/// Relies on `BitSet::is_empty`.
#[verifier::external_body]
pub(crate) fn bits_is_empty(b: &BitSet) -> (r: bool)
    ensures
        r == (bits_of(*b) == Set::<int>::empty()),
{
    b.is_empty()
}

/// Relies on `BitSet::iter`: it visits each value held once, in ascending
/// order.
#[verifier::external_body]
pub(crate) fn bits_items(b: &BitSet) -> (r: Vec<usize>)
    ensures
        forall|i: int, j: int| 0 <= i < j < r@.len() ==> r@[i] < r@[j],
        forall|i: int| 0 <= i < r@.len() ==> bits_of(*b).contains(#[trigger] r@[i] as int),
        forall|k: int| #[trigger] bits_of(*b).contains(k) ==> exists|i: int| 0 <= i < r@.len() && r@[i] as int == k,
{
    b.iter().collect()
}

} // verus!
