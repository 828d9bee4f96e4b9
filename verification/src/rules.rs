//! Consequences of the move rules that hold for every position.

use crate::board_state::{
    first_move, is_resting_position, part_index, regular_move, Position,
};
use crate::radix::lemma_first_moves;
use vstd::prelude::*;

verus! {

/// Counting further pieces never lowers the number of unfinished ones.
pub proof fn lemma_unfinished_grows(position: Position, player: int, low: int, high: int)
    requires
        low <= high,
    ensures
        0 <= position.unfinished(player, low) <= position.unfinished(player, high),
    decreases high - low,
{
    if low < high {
        lemma_unfinished_grows(position, player, low, high - 1);
    } else {
        lemma_unfinished_nonnegative(position, player, low);
    }
}

proof fn lemma_unfinished_nonnegative(position: Position, player: int, count: int)
    ensures
        0 <= position.unfinished(player, count),
    decreases count,
{
    if count > 0 {
        lemma_unfinished_nonnegative(position, player, count - 1);
    }
}

/// A piece that rests anywhere before its final square moves at least one
/// square, to a square where it can rest, and never past its final square.
pub proof fn lemma_advance_target(player: int, piece: int, position: int)
    requires
        0 <= player < 2,
        0 <= piece < 5,
        0 <= position < 12,
        is_resting_position(first_move(player, piece), position),
    ensures
        1 <= regular_move(player, piece, position),
        position + regular_move(player, piece, position) <= 12,
        is_resting_position(
            first_move(player, piece),
            position + regular_move(player, piece, position),
        ),
{
    lemma_first_moves(player, piece);
    if player == 0 {
        if piece == 0 {
        } else if piece == 1 {
        } else if piece == 2 {
        } else if piece == 3 {
        } else {
        }
    } else {
        if piece == 0 {
        } else if piece == 1 {
        } else if piece == 2 {
        } else if piece == 3 {
        } else {
        }
    }
}

/// Moving one piece further along does not raise the number of unfinished
/// pieces of any player.
proof fn lemma_unfinished_after_progress(
    position: Position,
    player: int,
    piece: int,
    further: int,
    counted: int,
    count: int,
)
    requires
        position.progress.len() == 10,
        0 <= player < 2,
        0 <= piece < 5,
        0 <= counted < 2,
        0 <= count <= 5,
        position.piece(player, piece) <= further,
    ensures
        position.with_piece(player, piece, further).unfinished(counted, count)
            <= position.unfinished(counted, count),
    decreases count,
{
    if count > 0 {
        lemma_unfinished_after_progress(position, player, piece, further, counted, count - 1);
        let moved = position.with_piece(player, piece, further);
        if part_index(counted, count - 1) == part_index(player, piece) {
            assert(moved.piece(counted, count - 1) == further);
        } else {
            assert(moved.piece(counted, count - 1) == position.piece(counted, count - 1));
        }
    }
}

/// Once the game is over, it stays over when any piece is moved further
/// along its way.
pub proof fn lemma_ended_stays_ended(position: Position, player: int, piece: int, further: int)
    requires
        position.valid(),
        0 <= player < 2,
        0 <= piece < 5,
        position.is_ended(),
        position.piece(player, piece) <= further,
    ensures
        position.with_piece(player, piece, further).is_ended(),
{
    lemma_unfinished_after_progress(
        position,
        player,
        piece,
        further,
        1 - position.next_player,
        5,
    );
}

/// Among the pieces below `count`, the next player has one successor for
/// each piece that has not retired.
pub proof fn lemma_successors_count(position: Position, count: int)
    requires
        0 <= count <= 5,
    ensures
        position.successors_below(count).len() == position.unfinished(position.next_player, count),
    decreases count,
{
    if count > 0 {
        lemma_successors_count(position, count - 1);
    }
}

/// While the game is not over, a player to move who has a piece that has not
/// retired has at least one successor.
pub proof fn lemma_successor_exists(position: Position)
    requires
        position.valid(),
        !position.is_ended(),
        exists|piece: int| 0 <= piece < 5 && position.piece(position.next_player, piece) < 12,
    ensures
        position.successors().len() >= 1,
{
    let piece = choose|piece: int| 0 <= piece < 5 && position.piece(position.next_player, piece) < 12;
    lemma_successors_count(position, 5);
    lemma_unfinished_grows(position, position.next_player, piece, piece);
    lemma_unfinished_grows(position, position.next_player, piece + 1, 5);
}

/// Every successor has the other player to move, and a retired piece gives
/// none.
pub proof fn lemma_successor_switches(position: Position, moved_piece: int)
    ensures
        position.piece(position.next_player, moved_piece) >= 12 ==> position.successor(moved_piece)
            is None,
        position.successor(moved_piece) matches Some(next) ==> next.next_player == 1
            - position.next_player,
{
}

} // verus!
