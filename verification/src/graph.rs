//! The game graph over state IDs: which ID a move leads to and which IDs
//! can be reached from a set of seeds.

use crate::board_state::{decode, encode, BoardState, Position, ID_LIMIT};
use crate::radix::lemma_decode_then_encode;
use vstd::prelude::*;

verus! {

/// The ID of the position after the next player has moved `piece`.
pub open spec fn successor_id(id: u64, piece: int) -> Option<u64> {
    match decode(id as int).successor(piece) {
        Some(next) => Some(encode(next) as u64),
        None => None,
    }
}

/// A move leads from `from` to `to`. No move leaves a position in which the
/// game is over.
pub open spec fn is_move(from: u64, to: u64) -> bool {
    &&& !decode(from as int).is_ended()
    &&& exists|piece: int| 0 <= piece < 5 && #[trigger] successor_id(from, piece) == Some(to)
}

/// A sequence of IDs, each reached from the one before by a move.
pub open spec fn is_play(ids: Seq<u64>) -> bool {
    &&& ids.len() >= 1
    &&& forall|i: int| 0 <= i < ids.len() - 1 ==> is_move(#[trigger] ids[i], ids[i + 1])
}

/// Some play leads from one of the `seeds` to `id`.
pub open spec fn is_reachable(seeds: Set<u64>, id: u64) -> bool {
    exists|play: Seq<u64>| #[trigger] is_play(play) && seeds.contains(play[0]) && play.last() == id
}

/// Every ID that some play reaches from one of the `seeds`.
pub open spec fn reachable_set(seeds: Set<u64>) -> Set<u64> {
    Set::new(|id: u64| is_reachable(seeds, id))
}

/// The IDs of a list of board states.
pub open spec fn ids_of(states: Seq<BoardState>) -> Set<u64> {
    Set::new(|id: u64| exists|i: int| 0 <= i < states.len() && (#[trigger] states[i]).id == id)
}

/// Every ID of the set stands for a position.
pub open spec fn all_valid(ids: Set<u64>) -> bool {
    forall|id: u64| #[trigger] ids.contains(id) ==> id < ID_LIMIT
}

/// Every move from an ID of the set leads to an ID of the set.
pub open spec fn is_closed(ids: Set<u64>) -> bool {
    forall|from: u64, to: u64| ids.contains(from) && #[trigger] is_move(from, to) ==> ids.contains(to)
}

/// Every set of `u64` values is finite.
pub proof fn lemma_ids_finite(set: Set<u64>)
    ensures
        set.finite(),
{
    <u64 as vstd::set_lib::FiniteFull>::full_properties();
    vstd::set_lib::lemma_set_subset_finite(Set::<u64>::full(), set);
}

/// A set of valid IDs is finite and has at most `ID_LIMIT` elements.
pub proof fn lemma_all_valid_len(ids: Set<u64>)
    requires
        all_valid(ids),
    ensures
        ids.finite(),
        ids.len() <= ID_LIMIT,
{
    let range = Set::<u64>::range(0, ID_LIMIT);
    <u64 as vstd::set_lib::FiniteRange>::range_properties(0, ID_LIMIT);
    assert(ids.subset_of(range));
    vstd::set_lib::lemma_len_subset(ids, range);
}

/// The ID of a well-formed state is the encoding of its position.
pub proof fn lemma_id_is_encoding(state: BoardState)
    requires
        state.wf(),
    ensures
        state@.valid(),
        encode(state@) == state.id,
{
    lemma_decode_then_encode(state.id as int);
}

/// Each successor in the list comes from moving some piece.
pub proof fn lemma_successors_sound(position: Position, count: int, i: int)
    requires
        0 <= count <= 5,
        0 <= i < position.successors_below(count).len(),
    ensures
        exists|piece: int|
            0 <= piece < count && #[trigger] position.successor(piece) == Some(
                position.successors_below(count)[i],
            ),
    decreases count,
{
    if count > 0 {
        let before = position.successors_below(count - 1);
        if i < before.len() {
            lemma_successors_sound(position, count - 1, i);
            let piece = choose|piece: int|
                0 <= piece < count - 1 && #[trigger] position.successor(piece) == Some(before[i]);
            assert(position.successor(piece) == Some(position.successors_below(count)[i]));
        } else {
            assert(position.successor(count - 1) == Some(position.successors_below(count)[i]));
        }
    }
}

/// The successor for each piece is in the list.
pub proof fn lemma_successors_complete(position: Position, count: int, piece: int)
    requires
        0 <= piece < count <= 5,
        position.successor(piece) is Some,
    ensures
        exists|i: int|
            0 <= i < position.successors_below(count).len() && Some(
                #[trigger] position.successors_below(count)[i],
            ) == position.successor(piece),
    decreases count,
{
    let all = position.successors_below(count);
    if piece == count - 1 {
        assert(Some(all[all.len() - 1]) == position.successor(piece));
    } else {
        lemma_successors_complete(position, count - 1, piece);
        let before = position.successors_below(count - 1);
        let i = choose|i: int|
            0 <= i < before.len() && Some(#[trigger] before[i]) == position.successor(piece);
        assert(all[i] == before[i]);
    }
}

/// Each state in the list of next states is reached by moving some piece.
pub proof fn lemma_next_state_is_move(state: BoardState, next_states: Seq<BoardState>, i: int)
    requires
        state.wf(),
        next_states.map_values(|next: BoardState| next@) == state@.successors(),
        0 <= i < next_states.len(),
        next_states[i].wf(),
    ensures
        exists|piece: int|
            0 <= piece < 5 && #[trigger] successor_id(state.id, piece) == Some(next_states[i].id),
{
    let mapped = next_states.map_values(|next: BoardState| next@);
    assert(mapped[i] == next_states[i]@);
    lemma_successors_sound(state@, 5, i);
    let piece = choose|piece: int|
        0 <= piece < 5 && #[trigger] state@.successor(piece) == Some(next_states[i]@);
    lemma_id_is_encoding(next_states[i]);
    assert(successor_id(state.id, piece) == Some(next_states[i].id));
}

/// The state reached by moving a piece is in the list of next states.
pub proof fn lemma_move_is_next_state(state: BoardState, next_states: Seq<BoardState>, piece: int)
    requires
        state.wf(),
        next_states.map_values(|next: BoardState| next@) == state@.successors(),
        forall|i: int| 0 <= i < next_states.len() ==> (#[trigger] next_states[i]).wf(),
        0 <= piece < 5,
        successor_id(state.id, piece) is Some,
    ensures
        exists|i: int|
            0 <= i < next_states.len() && Some((#[trigger] next_states[i]).id) == successor_id(
                state.id,
                piece,
            ),
{
    let mapped = next_states.map_values(|next: BoardState| next@);
    lemma_successors_complete(state@, 5, piece);
    let i = choose|i: int|
        0 <= i < state@.successors().len() && Some(#[trigger] state@.successors()[i])
            == state@.successor(piece);
    assert(mapped[i] == next_states[i]@);
    lemma_id_is_encoding(next_states[i]);
    assert(Some(next_states[i].id) == successor_id(state.id, piece));
}

/// A seed is reachable.
pub proof fn lemma_seed_reachable(seeds: Set<u64>, id: u64)
    requires
        seeds.contains(id),
    ensures
        reachable_set(seeds).contains(id),
{
    let play = seq![id];
    assert(is_play(play) && seeds.contains(play[0]) && play.last() == id);
}

/// A move from a reachable ID leads to a reachable ID.
pub proof fn lemma_move_reachable(seeds: Set<u64>, from: u64, to: u64)
    requires
        reachable_set(seeds).contains(from),
        is_move(from, to),
    ensures
        reachable_set(seeds).contains(to),
{
    let play = choose|play: Seq<u64>|
        #[trigger] is_play(play) && seeds.contains(play[0]) && play.last() == from;
    let longer = play.push(to);
    assert forall|i: int| 0 <= i < longer.len() - 1 implies is_move(
        #[trigger] longer[i],
        longer[i + 1],
    ) by {
        if i < play.len() - 1 {
            assert(is_move(play[i], play[i + 1]));
        }
    }
    assert(is_play(longer) && seeds.contains(longer[0]) && longer.last() == to);
}

/// The first `count` IDs of a play that starts in a closed set are in the set.
proof fn lemma_play_stays(ids: Set<u64>, play: Seq<u64>, count: int)
    requires
        is_closed(ids),
        is_play(play),
        ids.contains(play[0]),
        1 <= count <= play.len(),
    ensures
        ids.contains(play[count - 1]),
    decreases count,
{
    if count > 1 {
        lemma_play_stays(ids, play, count - 1);
        assert(is_move(play[count - 2], play[count - 2 + 1]));
    }
}

/// A closed set that holds the seeds holds everything reachable from them.
pub proof fn lemma_closed_holds_reachable(ids: Set<u64>, seeds: Set<u64>)
    requires
        is_closed(ids),
        seeds.subset_of(ids),
    ensures
        reachable_set(seeds).subset_of(ids),
{
    assert forall|id: u64| reachable_set(seeds).contains(id) implies ids.contains(id) by {
        let play = choose|play: Seq<u64>|
            #[trigger] is_play(play) && seeds.contains(play[0]) && play.last() == id;
        lemma_play_stays(ids, play, play.len() as int);
    }
}

/// What is reachable from a union of seeds is the union of what is
/// reachable from each part.
pub proof fn lemma_reachable_union(first: Set<u64>, second: Set<u64>)
    ensures
        reachable_set(first.union(second)) == reachable_set(first).union(reachable_set(second)),
{
    let both = reachable_set(first.union(second));
    let parts = reachable_set(first).union(reachable_set(second));
    assert forall|id: u64| both.contains(id) implies parts.contains(id) by {
        let play = choose|play: Seq<u64>|
            #[trigger] is_play(play) && first.union(second).contains(play[0]) && play.last() == id;
        if first.contains(play[0]) {
            assert(is_reachable(first, id));
        } else {
            assert(is_reachable(second, id));
        }
    }
    assert forall|id: u64| parts.contains(id) implies both.contains(id) by {
        if reachable_set(first).contains(id) {
            let play = choose|play: Seq<u64>|
                #[trigger] is_play(play) && first.contains(play[0]) && play.last() == id;
            assert(is_play(play) && first.union(second).contains(play[0]));
        } else {
            let play = choose|play: Seq<u64>|
                #[trigger] is_play(play) && second.contains(play[0]) && play.last() == id;
            assert(is_play(play) && first.union(second).contains(play[0]));
        }
    }
    assert(both =~= parts);
}

/// Two lists that hold the same states, in whatever order, have the same
/// IDs, so the same states are reachable from them.
pub proof fn lemma_reachable_any_order(first: Seq<BoardState>, second: Seq<BoardState>)
    requires
        first.to_multiset() == second.to_multiset(),
    ensures
        ids_of(first) == ids_of(second),
        reachable_set(ids_of(first)) == reachable_set(ids_of(second)),
{
    first.to_multiset_ensures();
    second.to_multiset_ensures();
    assert forall|id: u64| ids_of(first).contains(id) <==> ids_of(second).contains(id) by {
        if ids_of(first).contains(id) {
            let i = choose|i: int| 0 <= i < first.len() && (#[trigger] first[i]).id == id;
            assert(first.contains(first[i]));
            assert(first.to_multiset().count(first[i]) > 0);
            assert(second.to_multiset().count(first[i]) > 0);
            assert(second.contains(first[i]));
            let j = choose|j: int| 0 <= j < second.len() && second[j] == first[i];
            assert(second[j].id == id);
        }
        if ids_of(second).contains(id) {
            let i = choose|i: int| 0 <= i < second.len() && (#[trigger] second[i]).id == id;
            assert(second.contains(second[i]));
            assert(second.to_multiset().count(second[i]) > 0);
            assert(first.to_multiset().count(second[i]) > 0);
            assert(first.contains(second[i]));
            let j = choose|j: int| 0 <= j < first.len() && first[j] == second[i];
            assert(first[j].id == id);
        }
    }
    assert(ids_of(first) =~= ids_of(second));
}

} // verus!
