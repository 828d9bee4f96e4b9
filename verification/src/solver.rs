//! What it means for a player to have a forced win, and the bookkeeping
//! that the classification of states rests on.

use crate::board_state::decode;
use crate::graph::{all_valid, is_closed, is_move, successor_id};
use vstd::prelude::*;

verus! {

/// `player` can force the game to end in their favour within `depth` moves.
///
/// In a position where the game is over, the player who is not to move has
/// won. Otherwise the player to move needs one move to a position they win,
/// and the other player needs every move to lead to such a position.
pub open spec fn wins_within(player: int, id: u64, depth: nat) -> bool
    decreases depth,
{
    let position = decode(id as int);
    if position.is_ended() {
        position.next_player != player
    } else if depth == 0 {
        false
    } else if position.next_player == player {
        exists|piece: int|
            0 <= piece < 5 && (#[trigger] successor_id(id, piece) matches Some(next)
                && wins_within(player, next, (depth - 1) as nat))
    } else {
        forall|piece: int|
            0 <= piece < 5 ==> (#[trigger] successor_id(id, piece) matches Some(next)
                ==> wins_within(player, next, (depth - 1) as nat))
    }
}

/// `player` can force a win from `id`, whatever the other player does.
pub open spec fn forced_win(player: int, id: u64) -> bool {
    exists|depth: nat| wins_within(player, id, depth)
}

/// Neither player can force a win from `id`.
pub open spec fn is_draw(id: u64) -> bool {
    !forced_win(0, id) && !forced_win(1, id)
}

/// The winner that the two sets record for a state that is no longer
/// among the remaining ones: player 0 if it is marked, else player 1.
pub open spec fn recorded_winner(marked: Set<u64>, id: u64) -> int {
    if marked.contains(id) {
        0
    } else {
        1
    }
}

/// `eval` describes `id` as the sets stand: -1 for a state that still
/// remains, else the recorded winner of a state that does not.
pub open spec fn describes(remaining: Set<u64>, marked: Set<u64>, id: u64, eval: int) -> bool {
    if eval == -1 {
        remaining.contains(id)
    } else {
        !remaining.contains(id) && eval == recorded_winner(marked, id)
    }
}

/// Every state of the universe that no longer remains has a recorded winner
/// who can force the win.
pub open spec fn winners_are_right(universe: Set<u64>, remaining: Set<u64>, marked: Set<u64>) -> bool {
    forall|id: u64|
        universe.contains(id) && !remaining.contains(id) ==> #[trigger] forced_win(
            recorded_winner(marked, id),
            id,
        )
}

/// Nothing more can be said of a remaining state: the game is not over, no
/// move leads to a state won by the player to move, and some move leads to
/// a remaining state.
#[verifier::opaque]
pub open spec fn is_settled(remaining: Set<u64>, marked: Set<u64>, id: u64) -> bool {
    let position = decode(id as int);
    &&& !position.is_ended()
    &&& forall|piece: int|
        0 <= piece < 5 ==> (#[trigger] successor_id(id, piece) matches Some(next)
            ==> !remaining.contains(next) ==> recorded_winner(marked, next)
            != position.next_player)
    &&& exists|piece: int|
        0 <= piece < 5 && (#[trigger] successor_id(id, piece) matches Some(next)
            && remaining.contains(next))
}

/// What holds of the two sets all through the classification: they stay
/// within the universe, every state that no longer remains has a recorded
/// winner who can force the win, and no remaining state that the current
/// scan has seen is one where the game is over.
pub open spec fn sets_ok(universe: Set<u64>, remaining: Set<u64>, marked: Set<u64>) -> bool {
    &&& all_valid(universe)
    &&& is_closed(universe)
    &&& remaining.subset_of(universe)
    &&& marked.subset_of(universe)
    &&& winners_are_right(universe, remaining, marked)
    &&& forall|id: u64|
        remaining.contains(id) && marked.contains(id) ==> !(#[trigger] decode(id as int)).is_ended()
}

/// Every remaining state that the scan has seen is settled.
pub open spec fn all_seen_settled(remaining: Set<u64>, marked: Set<u64>) -> bool {
    forall|id: u64|
        remaining.contains(id) && marked.contains(id) ==> #[trigger] is_settled(
            remaining,
            marked,
            id,
        )
}

/// A win within some number of moves is a win within any larger number.
pub proof fn lemma_wins_deeper(player: int, id: u64, depth: nat, deeper: nat)
    requires
        wins_within(player, id, depth),
        depth <= deeper,
    ensures
        wins_within(player, id, deeper),
    decreases depth,
{
    let position = decode(id as int);
    if position.is_ended() {
    } else if position.next_player == player {
        let piece = choose|piece: int|
            0 <= piece < 5 && (#[trigger] successor_id(id, piece) matches Some(next)
                && wins_within(player, next, (depth - 1) as nat));
        lemma_wins_deeper(
            player,
            successor_id(id, piece).unwrap(),
            (depth - 1) as nat,
            (deeper - 1) as nat,
        );
    } else {
        assert forall|piece: int| 0 <= piece < 5 implies (#[trigger] successor_id(
            id,
            piece,
        ) matches Some(next) ==> wins_within(player, next, (deeper - 1) as nat)) by {
            if successor_id(id, piece) is Some {
                lemma_wins_deeper(
                    player,
                    successor_id(id, piece).unwrap(),
                    (depth - 1) as nat,
                    (deeper - 1) as nat,
                );
            }
        }
    }
}

/// When the game is over, the player who is not to move has won.
pub proof fn lemma_win_when_ended(id: u64)
    requires
        decode(id as int).is_ended(),
    ensures
        forced_win(1 - decode(id as int).next_player, id),
{
    assert(wins_within(1 - decode(id as int).next_player, id, 0));
}

/// The player to move wins if some move leads to a state they win.
pub proof fn lemma_win_by_one_move(id: u64, piece: int, next: u64)
    requires
        !decode(id as int).is_ended(),
        0 <= piece < 5,
        successor_id(id, piece) == Some(next),
        forced_win(decode(id as int).next_player, next),
    ensures
        forced_win(decode(id as int).next_player, id),
{
    let player = decode(id as int).next_player;
    let depth = choose|depth: nat| wins_within(player, next, depth);
    assert(wins_within(player, id, depth + 1));
}

/// A depth within which `player` wins from the successor for `piece`, if
/// there is such a successor and such a depth.
spec fn depth_for(player: int, id: u64, piece: int) -> nat {
    match successor_id(id, piece) {
        Some(next) => choose|depth: nat| wins_within(player, next, depth),
        None => 0,
    }
}

/// The player not to move wins if every move leads to a state they win.
pub proof fn lemma_win_by_all_moves(player: int, id: u64)
    requires
        !decode(id as int).is_ended(),
        decode(id as int).next_player != player,
        forall|piece: int|
            0 <= piece < 5 ==> (#[trigger] successor_id(id, piece) matches Some(next)
                ==> forced_win(player, next)),
    ensures
        forced_win(player, id),
{
    let depth = depth_for(player, id, 0) + depth_for(player, id, 1) + depth_for(player, id, 2)
        + depth_for(player, id, 3) + depth_for(player, id, 4);
    assert forall|piece: int| 0 <= piece < 5 implies (#[trigger] successor_id(
        id,
        piece,
    ) matches Some(next) ==> wins_within(player, next, depth)) by {
        if successor_id(id, piece) is Some {
            let next = successor_id(id, piece).unwrap();
            assert(forced_win(player, next));
            lemma_wins_deeper(player, next, depth_for(player, id, piece), depth);
        }
    }
    assert(wins_within(player, id, depth + 1));
}

/// No state is won by both players.
pub proof fn lemma_one_winner(id: u64, first: nat, second: nat)
    ensures
        !(wins_within(0, id, first) && wins_within(1, id, second)),
    decreases first + second,
{
    let position = decode(id as int);
    crate::radix::lemma_factor_chain(10);
    if wins_within(0, id, first) && wins_within(1, id, second) {
        if position.is_ended() {
        } else if position.next_player == 0 {
            let piece = choose|piece: int|
                0 <= piece < 5 && (#[trigger] successor_id(id, piece) matches Some(next)
                    && wins_within(0, next, (first - 1) as nat));
            lemma_one_winner(
                successor_id(id, piece).unwrap(),
                (first - 1) as nat,
                (second - 1) as nat,
            );
        } else {
            let piece = choose|piece: int|
                0 <= piece < 5 && (#[trigger] successor_id(id, piece) matches Some(next)
                    && wins_within(1, next, (second - 1) as nat));
            lemma_one_winner(
                successor_id(id, piece).unwrap(),
                (first - 1) as nat,
                (second - 1) as nat,
            );
        }
    }
}

/// What a settled state is, spelled out.
pub proof fn lemma_settled_means(remaining: Set<u64>, marked: Set<u64>, id: u64)
    ensures
        is_settled(remaining, marked, id) <==> {
            &&& !decode(id as int).is_ended()
            &&& forall|piece: int|
                0 <= piece < 5 ==> (#[trigger] successor_id(id, piece) matches Some(next)
                    ==> !remaining.contains(next) ==> recorded_winner(marked, next) != decode(
                    id as int,
                ).next_player)
            &&& exists|piece: int|
                0 <= piece < 5 && (#[trigger] successor_id(id, piece) matches Some(next)
                    && remaining.contains(next))
        },
{
    reveal(is_settled);
}

/// A settled state stays settled while the remaining states stay the same
/// and the marks of the other states do.
pub proof fn lemma_settled_stays(remaining: Set<u64>, before: Set<u64>, after: Set<u64>, id: u64)
    requires
        is_settled(remaining, before, id),
        forall|other: u64| !remaining.contains(other) ==> before.contains(other) == after.contains(other),
    ensures
        is_settled(remaining, after, id),
{
    lemma_settled_means(remaining, before, id);
    lemma_settled_means(remaining, after, id);
}

/// Once every remaining state is settled, no player wins from a remaining
/// state within any number of moves.
pub proof fn lemma_settled_is_draw(
    universe: Set<u64>,
    remaining: Set<u64>,
    marked: Set<u64>,
    id: u64,
    player: int,
    depth: nat,
)
    requires
        is_closed(universe),
        remaining.subset_of(universe),
        winners_are_right(universe, remaining, marked),
        forall|other: u64| remaining.contains(other) ==> is_settled(remaining, marked, other),
        remaining.contains(id),
        0 <= player <= 1,
    ensures
        !wins_within(player, id, depth),
    decreases depth,
{
    let position = decode(id as int);
    assert(is_settled(remaining, marked, id));
    lemma_settled_means(remaining, marked, id);
    if depth > 0 && wins_within(player, id, depth) {
        if position.next_player == player {
            let piece = choose|piece: int|
                0 <= piece < 5 && (#[trigger] successor_id(id, piece) matches Some(next)
                    && wins_within(player, next, (depth - 1) as nat));
            let next = successor_id(id, piece).unwrap();
            assert(is_move(id, next));
            if remaining.contains(next) {
                lemma_settled_is_draw(
                    universe,
                    remaining,
                    marked,
                    next,
                    player,
                    (depth - 1) as nat,
                );
            } else {
                assert(forced_win(recorded_winner(marked, next), next));
                let other = choose|other: nat|
                    wins_within(recorded_winner(marked, next), next, other);
                if player == 0 {
                    lemma_one_winner(next, (depth - 1) as nat, other);
                } else {
                    lemma_one_winner(next, other, (depth - 1) as nat);
                }
            }
        } else {
            let piece = choose|piece: int|
                0 <= piece < 5 && (#[trigger] successor_id(id, piece) matches Some(next)
                    && remaining.contains(next));
            let next = successor_id(id, piece).unwrap();
            lemma_settled_is_draw(universe, remaining, marked, next, player, (depth - 1) as nat);
        }
    }
}

/// The states of the universe that `player` can force a win from.
pub open spec fn wins_of(universe: Set<u64>, player: int) -> Set<u64> {
    universe.filter(|id: u64| forced_win(player, id))
}

/// The states of the universe that neither player can force a win from.
pub open spec fn draws_of(universe: Set<u64>) -> Set<u64> {
    universe.filter(|id: u64| is_draw(id))
}

/// Once every remaining state is settled, the marked states are those that
/// player 0 wins and the remaining states are the draws.
pub proof fn lemma_classified(universe: Set<u64>, remaining: Set<u64>, marked: Set<u64>)
    requires
        is_closed(universe),
        remaining.subset_of(universe),
        marked.subset_of(universe),
        remaining.disjoint(marked),
        winners_are_right(universe, remaining, marked),
        forall|id: u64| remaining.contains(id) ==> is_settled(remaining, marked, id),
    ensures
        marked == wins_of(universe, 0),
        remaining == draws_of(universe),
{
    assert forall|id: u64| #[trigger]
        universe.contains(id) implies (marked.contains(id) <==> forced_win(0, id)) && (
    remaining.contains(id) <==> is_draw(id)) by {
        if remaining.contains(id) {
            assert forall|depth: nat| !wins_within(0, id, depth) && !wins_within(1, id, depth) by {
                lemma_settled_is_draw(universe, remaining, marked, id, 0, depth);
                lemma_settled_is_draw(universe, remaining, marked, id, 1, depth);
            }
            assert(!marked.contains(id));
        } else {
            let winner = recorded_winner(marked, id);
            assert(forced_win(winner, id));
            if forced_win(1 - winner, id) {
                let first = choose|depth: nat| wins_within(0, id, depth);
                let second = choose|depth: nat| wins_within(1, id, depth);
                lemma_one_winner(id, first, second);
            }
        }
    }
    assert forall|id: u64| marked.contains(id) <==> wins_of(universe, 0).contains(id) by {
        if marked.contains(id) {
            assert(universe.contains(id));
        }
    }
    assert forall|id: u64| remaining.contains(id) <==> draws_of(universe).contains(id) by {
        if remaining.contains(id) {
            assert(universe.contains(id));
        }
    }
    assert(marked =~= wins_of(universe, 0));
    assert(remaining =~= draws_of(universe));
}

/// The wins of player 0, the wins of player 1 and the draws are disjoint
/// and together make up the universe. What is neither a win of player 0
/// nor a draw is a win of player 1.
pub proof fn lemma_classes_partition(universe: Set<u64>)
    ensures
        wins_of(universe, 0).disjoint(wins_of(universe, 1)),
        wins_of(universe, 0).disjoint(draws_of(universe)),
        wins_of(universe, 1).disjoint(draws_of(universe)),
        wins_of(universe, 0).union(wins_of(universe, 1)).union(draws_of(universe)) == universe,
        universe.difference(draws_of(universe).union(wins_of(universe, 0))) == wins_of(universe, 1),
{
    assert forall|id: u64| !(forced_win(0, id) && forced_win(1, id)) by {
        if forced_win(0, id) && forced_win(1, id) {
            let first = choose|depth: nat| wins_within(0, id, depth);
            let second = choose|depth: nat| wins_within(1, id, depth);
            lemma_one_winner(id, first, second);
        }
    }
    assert(wins_of(universe, 0).union(wins_of(universe, 1)).union(draws_of(universe))
        =~= universe);
    assert(universe.difference(draws_of(universe).union(wins_of(universe, 0))) =~= wins_of(
        universe,
        1,
    ));
}

/// In a closed universe, a state that a player wins and where the game is
/// not over has a move to a state that this player wins if the player is to
/// move, and only such moves if the other player is.
pub proof fn lemma_wins_are_kept(universe: Set<u64>, player: int, id: u64)
    requires
        is_closed(universe),
        wins_of(universe, player).contains(id),
        !decode(id as int).is_ended(),
    ensures
        decode(id as int).next_player == player ==> exists|piece: int|
            0 <= piece < 5 && (#[trigger] successor_id(id, piece) matches Some(next) && wins_of(
                universe,
                player,
            ).contains(next)),
        decode(id as int).next_player != player ==> forall|piece: int|
            0 <= piece < 5 ==> (#[trigger] successor_id(id, piece) matches Some(next) ==> wins_of(
                universe,
                player,
            ).contains(next)),
{
    let depth = choose|depth: nat| wins_within(player, id, depth);
    if decode(id as int).next_player == player {
        let piece = choose|piece: int|
            0 <= piece < 5 && (#[trigger] successor_id(id, piece) matches Some(next)
                && wins_within(player, next, (depth - 1) as nat));
        let next = successor_id(id, piece).unwrap();
        assert(is_move(id, next));
        assert(forced_win(player, next));
    } else {
        assert forall|piece: int| 0 <= piece < 5 implies (#[trigger] successor_id(
            id,
            piece,
        ) matches Some(next) ==> wins_of(universe, player).contains(next)) by {
            if successor_id(id, piece) is Some {
                let next = successor_id(id, piece).unwrap();
                assert(is_move(id, next));
                assert(wins_within(player, next, (depth - 1) as nat));
                assert(forced_win(player, next));
            }
        }
    }
}

/// A state of the universe where the game is over is a win of the player
/// who is not to move, and of nobody else.
pub proof fn lemma_ended_is_won(universe: Set<u64>, id: u64)
    requires
        universe.contains(id),
        decode(id as int).is_ended(),
    ensures
        wins_of(universe, 1 - decode(id as int).next_player).contains(id),
        !wins_of(universe, decode(id as int).next_player).contains(id),
        !draws_of(universe).contains(id),
{
    lemma_win_when_ended(id);
    crate::radix::lemma_factor_chain(10);
    let player = decode(id as int).next_player;
    assert forall|depth: nat| !wins_within(player, id, depth) by {}
}

} // verus!
