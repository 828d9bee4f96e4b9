//! Enumeration of the reachable states and their classification into wins
//! for either player and draws.

use crate::board_state::{BoardState, ID_LIMIT};
use crate::graph::{
    all_valid, ids_of, is_closed, is_move, lemma_all_valid_len, lemma_closed_holds_reachable,
    lemma_id_is_encoding, lemma_move_reachable, lemma_reachable_union, lemma_seed_reachable,
    lemma_successors_complete, lemma_successors_sound, reachable_set, successor_id,
};
use crate::ordered::treemap_next_value;
use crate::search::collect_winning_states_recursively;
use crate::solver::{
    all_seen_settled, draws_of, forced_win, is_settled, lemma_classified, lemma_settled_stays,
    recorded_winner, sets_ok, wins_of,
};
use crate::treemap::{members, treemap_difference, treemap_union_with};
use roaring::RoaringTreemap;
use vstd::prelude::*;

verus! {

/// One of the states waiting to be explored has this ID.
pub open spec fn is_waiting(stack: Seq<BoardState>, id: u64) -> bool {
    exists|i: int| 0 <= i < stack.len() && (#[trigger] stack[i]).id == id
}

/// Return all states reachable from at least one of the `init_states`
pub fn collect_reachable_states(init_states: &[BoardState]) -> (reachable_states: RoaringTreemap)
    requires
        forall|i: int| 0 <= i < init_states.len() ==> (#[trigger] init_states[i]).wf(),
    ensures
        members(reachable_states) == reachable_set(ids_of(init_states@)),
        all_valid(members(reachable_states)),
        is_closed(members(reachable_states)),
{
    let mut reachable_states = RoaringTreemap::new();
    let mut index: usize = 0;

    proof {
        assert(ids_of(init_states@.take(0)) =~= Set::<u64>::empty());
        assert(reachable_set(Set::<u64>::empty()) =~= Set::<u64>::empty());
    }
    while index < init_states.len()
        invariant
            index <= init_states.len(),
            forall|i: int| 0 <= i < init_states.len() ==> (#[trigger] init_states[i]).wf(),
            members(reachable_states) == reachable_set(ids_of(init_states@.take(index as int))),
            all_valid(members(reachable_states)),
            is_closed(members(reachable_states)),
        decreases init_states.len() - index,
    {
        // Mark all explored states.
        collect_reachable_states_recursively(init_states[index], &mut reachable_states);
        proof {
            let before = ids_of(init_states@.take(index as int));
            let seed = set![init_states[index as int].id];
            let after = ids_of(init_states@.take(index as int + 1));
            assert forall|id: u64| after.contains(id) implies before.union(seed).contains(id) by {
                let i = choose|i: int|
                    0 <= i < index + 1 && (#[trigger] init_states@.take(index as int + 1)[i]).id
                        == id;
                if i < index {
                    assert(init_states@.take(index as int)[i].id == id);
                }
            }
            assert forall|id: u64| before.union(seed).contains(id) implies after.contains(id) by {
                if before.contains(id) {
                    let i = choose|i: int|
                        0 <= i < index && (#[trigger] init_states@.take(index as int)[i]).id == id;
                    assert(init_states@.take(index as int + 1)[i].id == id);
                } else {
                    assert(init_states@.take(index as int + 1)[index as int].id == id);
                }
            }
            assert(after =~= before.union(seed));
            lemma_reachable_union(before, seed);
        }
        index += 1;
    }
    proof {
        assert(init_states@.take(index as int) =~= init_states@);
    }
    reachable_states
}

/// Mark the states reachable from `current_state`, depth first
///
/// The states still to be explored wait on a stack, so the depth of the
/// game graph does not matter.
pub fn collect_reachable_states_recursively(
    current_state: BoardState,
    reachable_states: &mut RoaringTreemap,
)
    requires
        current_state.wf(),
        all_valid(members(*old(reachable_states))),
        is_closed(members(*old(reachable_states))),
    ensures
        members(*final(reachable_states)) == members(*old(reachable_states)).union(
            reachable_set(set![current_state.id]),
        ),
        all_valid(members(*final(reachable_states))),
        is_closed(members(*final(reachable_states))),
{
    let ghost before = members(*reachable_states);
    let ghost seeds = set![current_state.id];
    let ghost target = before.union(reachable_set(seeds));
    let mut stack: Vec<BoardState> = Vec::new();
    stack.push(current_state);
    proof {
        lemma_seed_reachable(seeds, current_state.id);
        assert(stack[0].id == current_state.id);
    }

    while stack.len() > 0
        invariant
            all_valid(members(*reachable_states)),
            before.subset_of(members(*reachable_states)),
            members(*reachable_states).subset_of(target),
            target == before.union(reachable_set(seeds)),
            forall|i: int|
                0 <= i < stack.len() ==> (#[trigger] stack[i]).wf() && reachable_set(
                    seeds,
                ).contains(stack[i].id),
            forall|from: u64, to: u64|
                members(*reachable_states).contains(from) && #[trigger] is_move(from, to)
                    ==> members(*reachable_states).contains(to) || is_waiting(stack@, to),
            members(*reachable_states).contains(current_state.id) || is_waiting(
                stack@,
                current_state.id,
            ),
        decreases ID_LIMIT - members(*reachable_states).len(), stack.len(),
    {
        let ghost marked = members(*reachable_states);
        let ghost waiting = stack@;
        let state = stack.pop().unwrap();
        let ghost rest = stack@;
        proof {
            lemma_all_valid_len(marked);
            assert forall|id: u64| is_waiting(waiting, id) implies id == state.id || is_waiting(
                rest,
                id,
            ) by {
                let i = choose|i: int| 0 <= i < waiting.len() && (#[trigger] waiting[i]).id == id;
                if i < rest.len() {
                    assert(rest[i].id == id);
                }
            }
        }

        // Note: `insert` returns `false` if the ID is already in `reachable_states`.
        let added: bool = reachable_states.insert(state.get_id());
        proof {
            lemma_all_valid_len(members(*reachable_states));
            if added {
                assert(members(*reachable_states).len() == marked.len() + 1);
            }
        }
        if added && !state.is_ended() {
            let mut next_states = state.get_next_states();
            let ghost children = next_states@;
            stack.append(&mut next_states);
            proof {
                lemma_id_is_encoding(state);
                assert forall|i: int| 0 <= i < stack.len() implies (#[trigger] stack[i]).wf()
                    && reachable_set(seeds).contains(stack[i].id) by {
                    if i >= rest.len() {
                        let child = children[i - rest.len()];
                        let mapped = children.map_values(|state: BoardState| state@);
                        assert(mapped[i - rest.len()] == child@);
                        lemma_successors_sound(state@, 5, i - rest.len());
                        let piece = choose|piece: int|
                            0 <= piece < 5 && #[trigger] state@.successor(piece) == Some(child@);
                        lemma_id_is_encoding(child);
                        assert(successor_id(state.id, piece) == Some(child.id));
                        assert(is_move(state.id, child.id));
                        lemma_move_reachable(seeds, state.id, child.id);
                    } else {
                        assert(stack[i] == rest[i]);
                    }
                }
                assert forall|from: u64, to: u64|
                    members(*reachable_states).contains(from) && #[trigger] is_move(
                        from,
                        to,
                    ) implies members(*reachable_states).contains(to) || is_waiting(stack@, to) by {
                    if from == state.id {
                        let piece = choose|piece: int|
                            0 <= piece < 5 && #[trigger] successor_id(from, piece) == Some(to);
                        lemma_successors_complete(state@, 5, piece);
                        let mapped = children.map_values(|state: BoardState| state@);
                        let i = choose|i: int|
                            0 <= i < state@.successors().len() && Some(
                                #[trigger] state@.successors()[i],
                            ) == state@.successor(piece);
                        assert(mapped[i] == children[i]@);
                        lemma_id_is_encoding(children[i]);
                        assert(stack[rest.len() + i] == children[i]);
                        assert(is_waiting(stack@, to));
                    } else if !marked.contains(to) {
                        assert(is_waiting(waiting, to));
                        if to != state.id {
                            let i = choose|i: int|
                                0 <= i < rest.len() && (#[trigger] rest[i]).id == to;
                            assert(stack[i] == rest[i]);
                            assert(is_waiting(stack@, to));
                        }
                    }
                }
                if !members(*reachable_states).contains(current_state.id) {
                    let i = choose|i: int|
                        0 <= i < rest.len() && (#[trigger] rest[i]).id == current_state.id;
                    assert(stack[i] == rest[i]);
                }
            }
        }
    }
    proof {
        assert forall|from: u64, to: u64|
            members(*reachable_states).contains(from) && #[trigger] is_move(
                from,
                to,
            ) implies members(*reachable_states).contains(to) by {
            assert(!is_waiting(stack@, to));
        }
        assert(!is_waiting(stack@, current_state.id));
        lemma_closed_holds_reachable(members(*reachable_states), seeds);
        assert(members(*reachable_states) =~= target);
    }
}

/// Scan `remaining_states` linearly to find new winning states and mark winning states of player 0
///
/// Since loops can occur in a game, this must be called multiple times until `remaining_states` stops shrinking.
fn collect_winning_states_scan_remaining(
    remaining_states: &mut RoaringTreemap,
    player_0_winning_states: &mut RoaringTreemap,
    Ghost(universe): Ghost<Set<u64>>,
)
    requires
        sets_ok(universe, members(*old(remaining_states)), members(*old(player_0_winning_states))),
        members(*old(remaining_states)).disjoint(members(*old(player_0_winning_states))),
    ensures
        sets_ok(
            universe,
            members(*final(remaining_states)),
            members(*final(player_0_winning_states)),
        ),
        members(*final(remaining_states)).disjoint(members(*final(player_0_winning_states))),
        members(*final(remaining_states)).subset_of(members(*old(remaining_states))),
        members(*final(remaining_states)) == members(*old(remaining_states)) ==> forall|id: u64|
            members(*final(remaining_states)).contains(id) ==> is_settled(
                members(*final(remaining_states)),
                members(*final(player_0_winning_states)),
                id,
            ),
{
    let ghost start = members(*remaining_states);

    // From here until the clean up, if a state ID is in `remaining_states` AND in `player_0_winning_states`,
    // then the corresponding state has been seen but was not found winning in the current iteration.
    let mut next_state_id: Option<u64> = treemap_next_value(remaining_states, 0);
    while next_state_id.is_some()
        invariant
            sets_ok(universe, members(*remaining_states), members(*player_0_winning_states)),
            members(*remaining_states).subset_of(start),
            members(*remaining_states) == start ==> all_seen_settled(
                members(*remaining_states),
                members(*player_0_winning_states),
            ),
            match next_state_id {
                Some(state_id) => {
                    &&& members(*remaining_states).contains(state_id)
                    &&& forall|id: u64|
                        members(*remaining_states).contains(id) && id < state_id ==> members(
                            *player_0_winning_states,
                        ).contains(id)
                },
                None => forall|id: u64|
                    members(*remaining_states).contains(id) ==> members(
                        *player_0_winning_states,
                    ).contains(id),
            },
        decreases
                match next_state_id {
                    Some(state_id) => ID_LIMIT - state_id,
                    None => 0,
                },
    {
        let state_id: u64 = next_state_id.unwrap();
        let ghost before = members(*remaining_states);
        collect_winning_states_recursively(
            BoardState::from(state_id),
            remaining_states,
            player_0_winning_states,
            Ghost(universe),
        );
        proof {
            if members(*remaining_states) == start {
                assert(before =~= start);
            }
        }
        next_state_id = treemap_next_value(remaining_states, state_id + 1);
    }

    // Clean up `player_0_winning_states` to only keep IDs of winning states.
    let ghost seen = members(*player_0_winning_states);
    let mut next_state_id: Option<u64> = treemap_next_value(remaining_states, 0);
    while next_state_id.is_some()
        invariant
            all_valid(members(*remaining_states)),
            forall|id: u64|
                !members(*remaining_states).contains(id) ==> members(
                    *player_0_winning_states,
                ).contains(id) == seen.contains(id),
            forall|id: u64|
                #![trigger seen.contains(id)]
                members(*player_0_winning_states).contains(id) ==> seen.contains(id),
            match next_state_id {
                Some(state_id) => {
                    &&& members(*remaining_states).contains(state_id)
                    &&& forall|id: u64|
                        members(*remaining_states).contains(id) && id < state_id ==> !members(
                            *player_0_winning_states,
                        ).contains(id)
                },
                None => forall|id: u64|
                    members(*remaining_states).contains(id) ==> !members(
                        *player_0_winning_states,
                    ).contains(id),
            },
        decreases
                match next_state_id {
                    Some(state_id) => ID_LIMIT - state_id,
                    None => 0,
                },
    {
        let state_id: u64 = next_state_id.unwrap();
        player_0_winning_states.remove(state_id);
        next_state_id = treemap_next_value(remaining_states, state_id + 1);
    }
    proof {
        let remaining = members(*remaining_states);
        let marked = members(*player_0_winning_states);
        assert forall|id: u64|
            universe.contains(id) && !remaining.contains(id) implies #[trigger] forced_win(
            recorded_winner(marked, id),
            id,
        ) by {
            assert(forced_win(recorded_winner(seen, id), id));
        }
        if remaining == start {
            assert forall|id: u64| remaining.contains(id) implies is_settled(
                remaining,
                marked,
                id,
            ) by {
                assert(is_settled(remaining, seen, id));
                lemma_settled_stays(remaining, seen, marked, id);
            }
        }
    }
}

/// Return all winning states of player 0
///
/// Initially, `remaining_states` must contain all reachable states.
/// After calling this function, `remaining_states` will contain the states for which neither player can guarantee a win.
pub fn collect_winning_states(remaining_states: &mut RoaringTreemap) -> (player_0_winning_states:
    RoaringTreemap)
    requires
        all_valid(members(*old(remaining_states))),
        is_closed(members(*old(remaining_states))),
    ensures
        members(player_0_winning_states) == wins_of(members(*old(remaining_states)), 0),
        members(*final(remaining_states)) == draws_of(members(*old(remaining_states))),
{
    let ghost universe = members(*remaining_states);
    let mut player_0_winning_states = RoaringTreemap::new();

    proof {
        lemma_all_valid_len(universe);
    }
    let mut previous_remaining_states_len: u64 = remaining_states.len();

    // Explore `remaining_states` several times until no new winning state can be found.
    loop
        invariant_except_break
            previous_remaining_states_len == members(*remaining_states).len(),
        invariant
            sets_ok(universe, members(*remaining_states), members(player_0_winning_states)),
            members(*remaining_states).disjoint(members(player_0_winning_states)),
        ensures
            forall|id: u64|
                members(*remaining_states).contains(id) ==> is_settled(
                    members(*remaining_states),
                    members(player_0_winning_states),
                    id,
                ),
        decreases members(*remaining_states).len(),
    {
        let ghost before = members(*remaining_states);
        collect_winning_states_scan_remaining(
            remaining_states,
            &mut player_0_winning_states,
            Ghost(universe),
        );
        proof {
            lemma_all_valid_len(before);
            lemma_all_valid_len(members(*remaining_states));
            vstd::set_lib::lemma_len_subset(members(*remaining_states), before);
            if members(*remaining_states).len() == before.len() {
                vstd::set_lib::lemma_subset_equality(members(*remaining_states), before);
            }
        }
        let remaining_states_diff: u64 = previous_remaining_states_len - remaining_states.len();

        if remaining_states_diff == 0 {
            break ;
        }
        previous_remaining_states_len = remaining_states.len();
    }
    proof {
        lemma_classified(
            universe,
            members(*remaining_states),
            members(player_0_winning_states),
        );
    }
    player_0_winning_states
}

/// Return all winning states of player 1: the states reachable from the
/// `init_states` that are neither among the `remaining_states`, where
/// neither player can guarantee a win, nor winning states of player 0
pub fn collect_player_1_winning_states(
    init_states: &[BoardState],
    remaining_states: RoaringTreemap,
    player_0_winning_states: RoaringTreemap,
) -> (player_1_winning_states: RoaringTreemap)
    requires
        forall|i: int| 0 <= i < init_states.len() ==> (#[trigger] init_states[i]).wf(),
    ensures
        members(player_1_winning_states) == reachable_set(ids_of(init_states@)).difference(
            members(remaining_states).union(members(player_0_winning_states)),
        ),
{
    let mut remaining_states = remaining_states;
    treemap_union_with(&mut remaining_states, player_0_winning_states);
    treemap_difference(collect_reachable_states(init_states), remaining_states)
}

} // verus!
