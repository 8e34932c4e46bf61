//! Sets of small integers kept in a bit-set, seen through their members.

use vstd::prelude::*;
use bit_set::BitSet;

verus! {

/// A set of small integers held in a bit-set (bit-set `BitSet`, whose generic block
/// type cannot be declared here, so the set is kept behind this opaque row).
#[verifier::external_body]
pub struct BitRow {
    bits: BitSet,
}

/// The members of a bit row.
pub uninterp spec fn bitset_members(s: BitRow) -> Set<usize>;

/// A new, empty bit set (bit-set `BitSet::new`).
#[verifier::external_body]
pub(crate) fn bitset_new() -> (r: BitRow)
    ensures
        bitset_members(r) == Set::<usize>::empty(),
{
    BitRow { bits: BitSet::new() }
}

/// Add `v` (bit-set `BitSet::insert`, which grows the bit vector to `v + 1` bits); true
/// when `v` was not a member before.
#[verifier::external_body]
pub(crate) fn bitset_insert(s: &mut BitRow, v: usize) -> (r: bool)
    requires
        v < usize::MAX,
    ensures
        bitset_members(*final(s)) == bitset_members(*old(s)).insert(v),
        r == !bitset_members(*old(s)).contains(v),
{
    s.bits.insert(v)
}

/// Membership test (bit-set `BitSet::contains`).
#[verifier::external_body]
pub(crate) fn bitset_contains(s: &BitRow, v: usize) -> (r: bool)
    ensures
        r == bitset_members(*s).contains(v),
{
    s.bits.contains(v)
}

/// The members in increasing order (bit-set `BitSet::iter`, which walks the blocks from
/// the lowest bit up).
#[verifier::external_body]
pub(crate) fn bitset_sorted_members(s: &BitRow) -> (r: Vec<usize>)
    ensures
        forall|i: int, j: int| 0 <= i < j < r@.len() ==> r@[i] < r@[j],
        forall|v: usize| r@.contains(v) <==> bitset_members(*s).contains(v),
{
    s.bits.iter().collect()
}

impl BitRow {
    /// The members in increasing order.
    pub fn members(&self) -> (r: Vec<usize>)
        ensures
            forall|i: int, j: int| 0 <= i < j < r@.len() ==> r@[i] < r@[j],
            forall|v: usize| r@.contains(v) <==> bitset_members(*self).contains(v),
    {
        bitset_sorted_members(self)
    }

    /// Whether `v` is a member.
    pub fn contains(&self, v: usize) -> (r: bool)
        ensures
            r == bitset_members(*self).contains(v),
    {
        bitset_contains(self, v)
    }
}

/// Add every member of `other` (bit-set `BitSet::union_with`, which ORs the blocks of
/// `other` into `s`, growing `s` first when `other` is longer).
#[verifier::external_body]
pub(crate) fn bitset_union_with(s: &mut BitRow, other: &BitRow)
    ensures
        bitset_members(*final(s)) == bitset_members(*old(s)).union(bitset_members(*other)),
{
    s.bits.union_with(&other.bits)
}

/// A copy with the same members (bit-set's `Clone for BitSet`, which clones the bit vector).
#[verifier::external_body]
pub(crate) fn bitset_clone(s: &BitRow) -> (r: BitRow)
    ensures
        bitset_members(r) == bitset_members(*s),
{
    BitRow { bits: s.bits.clone() }
}

/// Equality of members (bit-set's `PartialEq for BitSet`, which compares the two
/// iterators of members).
#[verifier::external_body]
pub(crate) fn bitset_eq(a: &BitRow, b: &BitRow) -> (r: bool)
    ensures
        r == (bitset_members(*a) == bitset_members(*b)),
{
    a.bits == b.bits
}

} // verus!
