//! Walking a treemap in ascending order.

use crate::treemap::{from_first_at_least, is_ascending, iter_next, members, upcoming};
use roaring::RoaringTreemap;
use vstd::prelude::*;

verus! {

/// What is left of an ascending sequence from its first integer that is at
/// least `n` on: the integers of the sequence that are at least `n`, the
/// smallest first.
proof fn lemma_from_first_at_least(values: Seq<u64>, n: u64)
    requires
        is_ascending(values),
    ensures
        is_ascending(from_first_at_least(values, n)),
        forall|value: u64|
            from_first_at_least(values, n).contains(value) <==> values.contains(value) && n
                <= value,
    decreases values.len(),
{
    let left = from_first_at_least(values, n);
    if values.len() > 0 && values[0] < n {
        let rest = values.drop_first();
        assert forall|i: int, j: int| 0 <= i < j < rest.len() implies rest[i] < rest[j] by {
            assert(values[i + 1] < values[j + 1]);
        }
        lemma_from_first_at_least(rest, n);
        assert forall|value: u64| left.contains(value) <==> values.contains(value) && n
            <= value by {
            if rest.contains(value) {
                let i = choose|i: int| 0 <= i < rest.len() && rest[i] == value;
                assert(values[i + 1] == value);
            }
            if values.contains(value) && n <= value {
                let i = choose|i: int| 0 <= i < values.len() && values[i] == value;
                assert(rest[i - 1] == value);
            }
        }
    } else {
        assert forall|value: u64| values.contains(value) implies n <= value by {
            let i = choose|i: int| 0 <= i < values.len() && values[i] == value;
            if i > 0 {
                assert(values[0] < values[i]);
            }
        }
    }
}

/// Get the next value in `treemap`, starting from (and including) `from`
///
/// Return `None` when there is no next value.
pub fn treemap_next_value(treemap: &RoaringTreemap, from: u64) -> (next: Option<u64>)
    ensures
        match next {
            Some(value) => {
                &&& members(*treemap).contains(value)
                &&& from <= value
                &&& forall|other: u64|
                    members(*treemap).contains(other) && from <= other ==> value <= other
            },
            None => forall|other: u64| members(*treemap).contains(other) ==> other < from,
        },
{
    let mut iter = treemap.iter();
    let ghost all = upcoming(iter);
    iter.advance_to(from);
    let ghost left = upcoming(iter);
    let next: Option<u64> = iter_next(&mut iter);
    proof {
        lemma_from_first_at_least(all, from);
        assert forall|other: u64| members(*treemap).contains(other) <==> all.contains(other) by {
            assert(all.to_set().contains(other) <==> all.contains(other));
        }
        match next {
            Some(value) => {
                assert(left.contains(value));
                assert forall|other: u64|
                    members(*treemap).contains(other) && from <= other implies value <= other by {
                    assert(left.contains(other));
                    let i = choose|i: int| 0 <= i < left.len() && left[i] == other;
                    if i > 0 {
                        assert(left[0] < left[i]);
                    }
                }
            },
            None => {
                assert forall|other: u64| members(*treemap).contains(other) implies other
                    < from by {
                    if from <= other {
                        assert(left.contains(other));
                    }
                }
            },
        }
    }
    next
}

} // verus!
