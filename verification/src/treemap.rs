//! What this library relies on from `roaring::RoaringTreemap`, the
//! compressed set of 64-bit integers that holds the state IDs.
//!
//! The contracts in this file are not proved: they restate what the
//! `roaring` crate documents and implements. The two spec functions with a
//! body only spell out what those contracts say.

use roaring::treemap::Iter;
use roaring::RoaringTreemap;
use vstd::prelude::*;

verus! {

/// `roaring::RoaringTreemap`, a compressed set of 64-bit integers. What
/// is inside one is not looked at here.
#[verifier::external_type_specification]
#[verifier::external_body]
pub struct ExRoaringTreemap(roaring::RoaringTreemap);

/// The integers that a treemap holds.
pub uninterp spec fn members(treemap: RoaringTreemap) -> Set<u64>;

/// `RoaringTreemap::new` creates an empty set.
pub assume_specification[ RoaringTreemap::new ]() -> (treemap: RoaringTreemap)
    ensures
        members(treemap) == Set::<u64>::empty(),
;

/// `RoaringTreemap::insert` adds `value` to the set and tells whether it
/// was absent before.
pub assume_specification[ RoaringTreemap::insert ](treemap: &mut RoaringTreemap, value: u64) -> (added:
    bool)
    ensures
        members(*final(treemap)) == members(*old(treemap)).insert(value),
        added == !members(*old(treemap)).contains(value),
;

/// `RoaringTreemap::remove` takes `value` out of the set and tells whether
/// it was present before.
pub assume_specification[ RoaringTreemap::remove ](treemap: &mut RoaringTreemap, value: u64) -> (removed:
    bool)
    ensures
        members(*final(treemap)) == members(*old(treemap)).remove(value),
        removed == members(*old(treemap)).contains(value),
;

/// `RoaringTreemap::contains` tells whether `value` is in the set.
pub assume_specification[ RoaringTreemap::contains ](treemap: &RoaringTreemap, value: u64) -> (present:
    bool)
    ensures
        present == members(*treemap).contains(value),
;

/// `RoaringTreemap::len` counts the integers in the set. The count is a
/// sum of `u64` values, so a set of all 2^64 integers is left out.
pub assume_specification[ RoaringTreemap::len ](treemap: &RoaringTreemap) -> (count: u64)
    requires
        members(*treemap).len() <= u64::MAX,
    ensures
        count == members(*treemap).len(),
;

/// `BitOrAssign::bitor_assign` of a treemap with another makes the first
/// the union of the two.
#[verifier::external_body]
pub(crate) fn treemap_union_with(treemap: &mut RoaringTreemap, other: RoaringTreemap)
    ensures
        members(*final(treemap)) == members(*old(treemap)).union(members(other)),
{
    *treemap |= other;
}

/// `Sub::sub` of two treemaps gives the integers of the first that are not
/// in the second.
#[verifier::external_body]
pub(crate) fn treemap_difference(treemap: RoaringTreemap, other: RoaringTreemap) -> (difference:
    RoaringTreemap)
    ensures
        members(difference) == members(treemap).difference(members(other)),
{
    treemap - other
}

/// `roaring::treemap::Iter`, an iterator over the integers of a treemap.
/// What is inside one is not looked at here.
#[verifier::external_type_specification]
#[verifier::external_body]
pub struct ExIter<'a>(roaring::treemap::Iter<'a>);

/// The integers that an iterator over a treemap has yet to yield, in the
/// order in which it yields them.
pub uninterp spec fn upcoming(iter: Iter<'_>) -> Seq<u64>;

/// Whether the iterator is as `RoaringTreemap::iter` made it, with no call
/// made on it since.
pub uninterp spec fn is_untouched(iter: Iter<'_>) -> bool;

/// Each integer of the sequence is smaller than the next.
pub open spec fn is_ascending(values: Seq<u64>) -> bool {
    forall|i: int, j: int| 0 <= i < j < values.len() ==> values[i] < values[j]
}

/// `RoaringTreemap::iter` gives a new iterator over the integers of the
/// set, in ascending order.
pub assume_specification<'a>[ RoaringTreemap::iter ](treemap: &'a RoaringTreemap) -> (iter: Iter<
    'a,
>)
    ensures
        is_untouched(iter),
        is_ascending(upcoming(iter)),
        upcoming(iter).to_set() == members(*treemap),
;

/// The sequence from its first integer that is at least `n` on.
pub open spec fn from_first_at_least(values: Seq<u64>, n: u64) -> Seq<u64>
    decreases values.len(),
{
    if values.len() > 0 && values[0] < n {
        from_first_at_least(values.drop_first(), n)
    } else {
        values
    }
}

/// `Iter::advance_to`, called on a new iterator, moves it forward to the
/// first integer that is at least `n`: the ones before it are passed over.
/// Nothing is said of a call on an iterator that has been moved before:
/// one that has run past the last integer starts again from the front.
pub assume_specification<'a>[ Iter::<'a>::advance_to ](iter: &mut Iter<'a>, n: u64)
    requires
        is_untouched(*old(iter)),
    ensures
        upcoming(*final(iter)) == from_first_at_least(upcoming(*old(iter)), n),
;

/// `Iterator::next` of the iterator yields the first of the integers that
/// are left, if there is one.
#[verifier::external_body]
pub(crate) fn iter_next(iter: &mut Iter<'_>) -> (next: Option<u64>)
    ensures
        match next {
            Some(value) => upcoming(*old(iter)).len() > 0 && value == upcoming(*old(iter))[0]
                && upcoming(*final(iter)) == upcoming(*old(iter)).drop_first(),
            None => upcoming(*old(iter)).len() == 0 && upcoming(*final(iter)).len() == 0,
        },
{
    iter.next()
}

} // verus!
