//! Board positions packed into a 64-bit identifier, and the rules that turn
//! one position into the next.

use crate::radix::{
    lemma_factor_chain, lemma_first_moves, lemma_switch, lemma_with_id_part, lemma_zero_parts,
};
use crate::rules::{lemma_advance_target, lemma_unfinished_grows};
use vstd::prelude::*;

verus! {

/// Regular piece progression given [player][piece][piece's position].
pub const REGULAR_MOVES: [[[usize; 13]; 5]; 2] = [
    [
        [1, 1, 1, 1, 1, 1, 3, 0, 3, 3, 2, 1, 0],
        [3, 0, 3, 3, 2, 1, 1, 1, 1, 1, 1, 1, 0],
        [2, 0, 2, 2, 2, 1, 2, 0, 2, 2, 2, 1, 0],
        [3, 0, 3, 3, 2, 1, 1, 1, 1, 1, 1, 1, 0],
        [1, 1, 1, 1, 1, 1, 3, 0, 3, 3, 2, 1, 0],
    ],
    [
        [3, 0, 3, 3, 2, 1, 1, 1, 1, 1, 1, 1, 0],
        [1, 1, 1, 1, 1, 1, 3, 0, 3, 3, 2, 1, 0],
        [2, 0, 2, 2, 2, 1, 2, 0, 2, 2, 2, 1, 0],
        [1, 1, 1, 1, 1, 1, 3, 0, 3, 3, 2, 1, 0],
        [3, 0, 3, 3, 2, 1, 1, 1, 1, 1, 1, 1, 0],
    ],
];

/// Initial regular piece progression given [player][piece].
pub const FIRST_MOVES: [[usize; 5]; 2] = [[1, 3, 2, 3, 1], [3, 1, 2, 1, 3]];

/// ID is built from the positions of pieces, alternating between
/// the two players, and ends with the number of the next player.
pub const ID_PART_SIZE: [u64; 11] = [12, 12, 12, 12, 11, 11, 12, 12, 12, 12, 2];

/// Factor by which each ID part is multiplied.
pub const ID_PART_FACTOR: [u64; 11] = [
    8671297536,
    722608128,
    60217344,
    5018112,
    456192,
    41472,
    3456,
    288,
    24,
    2,
    1,
];

/// Every ID below this bound stands for exactly one board position.
pub const ID_LIMIT: u64 = 104055570432;

/// Number of values that the ID part at `index` can take.
pub open spec fn part_size(index: int) -> int {
    ID_PART_SIZE[index] as int
}

/// Place value of the ID part at `index`.
pub open spec fn part_factor(index: int) -> int {
    ID_PART_FACTOR[index] as int
}

/// The ID part of `id` at `index`.
pub open spec fn id_part(id: int, index: int) -> int {
    (id / part_factor(index)) % part_size(index)
}

/// `id` with the part at `index` replaced by `value`.
pub open spec fn with_id_part(id: int, index: int, value: int) -> int {
    id - part_factor(index) * id_part(id, index) + part_factor(index) * value
}

/// `id` with the other player to move: the last part flipped.
pub open spec fn switched_id(id: int) -> int {
    id + 1 - 2 * (id % 2)
}

/// Number of squares that `piece` of `player` advances when it leaves home.
pub open spec fn first_move(player: int, piece: int) -> int {
    FIRST_MOVES[player][piece] as int
}

/// Number of squares that `piece` of `player` advances from `position`.
pub open spec fn regular_move(player: int, piece: int, position: int) -> int {
    REGULAR_MOVES[player][piece][position] as int
}

/// Index of the ID part that stores `piece` of `player`.
pub open spec fn part_index(player: int, piece: int) -> int {
    piece * 2 + player
}

/// A position is one where a piece with the given first move can rest:
/// square 1 is skipped unless the first move is 1, square 7 unless it is 3.
pub open spec fn is_resting_position(first_move: int, position: int) -> bool {
    &&& 0 <= position <= 12
    &&& position == 1 ==> first_move == 1
    &&& position == 7 ==> first_move == 3
}

/// The position that a stored ID part stands for.
pub open spec fn expand(first_move: int, part: int) -> int {
    if part == 0 {
        0
    } else {
        let shifted = if first_move != 1 {
            part + 1
        } else {
            part
        };
        if shifted > 6 && first_move != 3 {
            shifted + 1
        } else {
            shifted
        }
    }
}

/// The ID part that stores a position.
pub open spec fn compress(first_move: int, position: int) -> int {
    if position <= 1 {
        position
    } else {
        let shifted = if position > 7 && first_move != 3 {
            position - 1
        } else {
            position
        };
        if first_move != 1 {
            shifted - 1
        } else {
            shifted
        }
    }
}

/// What a board state means: where each piece stands and who moves next.
///
/// `progress[piece * 2 + player]` is the position of `piece` of `player`,
/// from 0 (home) over 6 (far side) to 12 (retired).
pub struct Position {
    pub progress: Seq<int>,
    pub next_player: int,
}

impl Position {
    /// Position of `piece` belonging to `player`.
    pub open spec fn piece(self, player: int, piece: int) -> int {
        self.progress[part_index(player, piece)]
    }

    /// The same board with `piece` of `player` placed at `position`.
    pub open spec fn with_piece(self, player: int, piece: int, position: int) -> Position {
        Position {
            progress: self.progress.update(part_index(player, piece), position),
            next_player: self.next_player,
        }
    }

    /// All pieces at home and `first_player` to move.
    pub open spec fn start(first_player: int) -> Position {
        Position { progress: Seq::new(10, |k: int| 0int), next_player: first_player }
    }

    /// The same board with the other player to move.
    pub open spec fn switched(self) -> Position {
        Position { progress: self.progress, next_player: 1 - self.next_player }
    }

    /// Ten pieces, each on a square where it can rest, and a next player.
    pub open spec fn valid(self) -> bool {
        &&& self.progress.len() == 10
        &&& 0 <= self.next_player <= 1
        &&& forall|player: int, piece: int|
            0 <= player < 2 && 0 <= piece < 5 ==> is_resting_position(
                first_move(player, piece),
                #[trigger] self.piece(player, piece),
            )
    }

    /// Number of pieces of `player`, among the first `count`, that have not retired.
    pub open spec fn unfinished(self, player: int, count: int) -> int
        decreases count,
    {
        if count <= 0 {
            0
        } else {
            self.unfinished(player, count - 1) + if self.piece(player, count - 1) < 12 {
                1int
            } else {
                0int
            }
        }
    }

    /// The position after the next player has moved `moved_piece`, if that
    /// piece exists and has not retired.
    pub open spec fn successor(self, moved_piece: int) -> Option<Position> {
        let player = self.next_player;
        let from = self.piece(player, moved_piece);
        if !(0 <= moved_piece <= 4) || from >= 12 {
            None
        } else {
            let target = from + regular_move(player, moved_piece, from);
            let (progress, reached) = advance(self.progress, player, moved_piece, from, target);
            Some(
                Position {
                    progress: progress.update(part_index(player, moved_piece), reached),
                    next_player: 1 - player,
                },
            )
        }
    }

    /// The successors for the pieces below `count`, in piece order.
    pub open spec fn successors_below(self, count: int) -> Seq<Position>
        decreases count,
    {
        if count <= 0 {
            Seq::empty()
        } else {
            match self.successor(count - 1) {
                Some(next) => self.successors_below(count - 1).push(next),
                None => self.successors_below(count - 1),
            }
        }
    }

    /// Every position that the next player can move to, in piece order.
    pub open spec fn successors(self) -> Seq<Position> {
        self.successors_below(5)
    }

    /// The game is over once the player who just moved has at most one
    /// piece that has not retired.
    pub open spec fn is_ended(self) -> bool {
        self.unfinished(1 - self.next_player, 5) <= 1
    }
}

/// Squares 0, 6 and 12: a piece standing there cannot collide.
pub open spec fn is_pivot(position: int) -> bool {
    position % 6 == 0
}

/// Number of the opposing piece whose row a piece at `position` crosses.
pub open spec fn crossed_piece(position: int) -> int {
    if position < 6 {
        position - 1
    } else {
        11 - position
    }
}

/// Position of the opposing piece in the row that `player`'s piece crosses at `position`.
pub open spec fn crossed_position(progress: Seq<int>, player: int, position: int) -> int {
    progress[part_index(1 - player, crossed_piece(position))]
}

/// Does `piece` of `player`, arriving at `position`, meet an opposing piece?
///
/// It does when neither stands on a pivot and each crosses the other's row.
pub open spec fn collides(progress: Seq<int>, player: int, piece: int, position: int) -> bool {
    &&& !is_pivot(position)
    &&& !is_pivot(crossed_position(progress, player, position))
    &&& crossed_piece(crossed_position(progress, player, position)) == piece
}

/// The board once a possible collision at `position` is resolved: the
/// opposing piece goes back to the pivot it came from.
pub open spec fn after_collision(
    progress: Seq<int>,
    player: int,
    piece: int,
    position: int,
) -> Seq<int> {
    if collides(progress, player, piece, position) {
        progress.update(
            part_index(1 - player, crossed_piece(position)),
            if crossed_position(progress, player, position) < 6 {
                0int
            } else {
                6int
            },
        )
    } else {
        progress
    }
}

/// Moves `piece` of `player` square by square from `position` to `target`.
/// Each collision on the way sends the opposing piece back and sets the
/// target to the square after the collision. Gives the board and the square
/// where the piece stops.
pub open spec fn advance(
    progress: Seq<int>,
    player: int,
    piece: int,
    position: int,
    target: int,
) -> (Seq<int>, int)
    decreases 12 - position,
{
    if position >= target || position >= 12 {
        (progress, position)
    } else {
        advance(
            after_collision(progress, player, piece, position + 1),
            player,
            piece,
            position + 1,
            if collides(progress, player, piece, position + 1) {
                position + 2
            } else {
                target
            },
        )
    }
}

/// The position that `id` stands for.
pub open spec fn decode(id: int) -> Position {
    Position {
        progress: Seq::new(10, |k: int| expand(first_move(k % 2, k / 2), id_part(id, k))),
        next_player: id_part(id, 10),
    }
}

/// Weighted sum of the stored parts of the first `count` pieces.
pub open spec fn encode_pieces(progress: Seq<int>, count: int) -> int
    decreases count,
{
    if count <= 0 {
        0
    } else {
        encode_pieces(progress, count - 1) + part_factor(count - 1) * compress(
            first_move((count - 1) % 2, (count - 1) / 2),
            progress[count - 1],
        )
    }
}

/// The ID that stands for `position`.
pub open spec fn encode(position: Position) -> int {
    encode_pieces(position.progress, 10) + position.next_player
}

/// State of the game board, including next player and position of pieces
#[derive(Clone, Copy)]
pub struct BoardState {
    pub id: u64,
}

impl View for BoardState {
    type V = Position;

    open spec fn view(&self) -> Position {
        decode(self.id as int)
    }
}

impl BoardState {
    /// The ID stands for a position.
    pub open spec fn wf(&self) -> bool {
        self.id < ID_LIMIT
    }

    /// Create a new game starting with `first_player`
    pub fn new_game(first_player: usize) -> (state: Self)
        requires
            first_player < 2,
        ensures
            state.id == first_player,
            state.wf(),
            state@ == Position::start(first_player as int),
    {
        let mut state = Self { id: 0 };
        state.set_next_player(first_player);
        proof {
            assert forall|k: int| 0 <= k < 10 implies id_part(0, k) == 0 by {
                lemma_zero_parts(k);
            }
            assert(decode(0).progress =~= Position::start(first_player as int).progress);
        }
        state
    }

    /// Return the ID representing this board state
    pub fn get_id(&self) -> (id: u64)
        ensures
            id == self.id,
    {
        self.id
    }

    /// Return the ID part at the given `index`
    pub fn get_id_part(&self, index: usize) -> (part: u64)
        requires
            index < 11,
        ensures
            part == id_part(self.id as int, index as int),
            part < part_size(index as int),
    {
        proof {
            lemma_factor_chain(index as int);
        }
        (self.id / ID_PART_FACTOR[index]) % ID_PART_SIZE[index]
    }

    /// Update the ID part at the given `index`
    pub fn set_id_part(&mut self, index: usize, value: u64)
        requires
            old(self).wf(),
            index < 11,
            value < part_size(index as int),
        ensures
            final(self).wf(),
            final(self).id == with_id_part(old(self).id as int, index as int, value as int),
            forall|other: int|
                0 <= other < 11 ==> #[trigger] id_part(final(self).id as int, other) == if other
                    == index {
                    value as int
                } else {
                    id_part(old(self).id as int, other)
                },
    {
        let id_part_factor: u64 = ID_PART_FACTOR[index];
        let old_part: u64 = self.get_id_part(index);
        proof {
            lemma_with_id_part(self.id as int, index as int, value as int);
        }
        self.id = self.id - (id_part_factor * old_part) + (id_part_factor * value);
    }

    /// Return the number of the next player
    pub fn get_next_player(&self) -> (player: usize)
        ensures
            player == self@.next_player,
            player == self.id % 2,
            player < 2,
    {
        let id: u64 = self.id;
        assert(id & 1 == id % 2) by (bit_vector);
        proof {
            lemma_factor_chain(10);
        }
        (id & 1) as usize
    }

    /// Set the number of the next player
    pub fn set_next_player(&mut self, player: usize)
        requires
            old(self).wf(),
            player < 2,
        ensures
            final(self).wf(),
            final(self).id == old(self).id - old(self).id % 2 + player,
            final(self)@ == (Position { progress: old(self)@.progress, next_player: player as int }),
    {
        proof {
            lemma_factor_chain(10);
        }
        self.set_id_part(10, player as u64);
        proof {
            assert(final(self)@.progress =~= old(self)@.progress);
        }
    }

    /// Change the number of the next player
    pub fn switch_next_player(&mut self)
        requires
            old(self).wf(),
        ensures
            final(self).wf(),
            final(self).id == switched_id(old(self).id as int),
            final(self)@ == old(self)@.switched(),
    {
        let id: u64 = self.id;
        assert(id ^ 1 == id + 1 - 2 * (id % 2)) by (bit_vector);
        proof {
            lemma_switch(id as int);
        }
        self.id ^= 1;
    }

    /// Return position of `piece` belonging to `player`
    pub fn get_piece_position(&self, player: usize, piece: usize) -> (position: usize)
        requires
            player < 2,
            piece < 5,
        ensures
            position == self@.piece(player as int, piece as int),
            is_resting_position(first_move(player as int, piece as int), position as int),
    {
        proof {
            lemma_first_moves(player as int, piece as int);
        }
        let mut position: usize = self.get_id_part(piece * 2 + player) as usize;

        // Position in the ID is compressed to store only reachable positions.
        // The actual position must therefore be calculated by adding 1 for each
        // unreachable position.
        if position > 0 {
            let first_move: usize = FIRST_MOVES[player][piece];

            if first_move != 1 {
                position += 1;
            }
            if position > 6 && first_move != 3 {
                position += 1;
            }
        }
        position
    }

    /// Place `piece` belonging to `player` to the given `position`
    ///
    /// A position where the piece cannot rest is stored as the next one
    /// where it can.
    pub fn set_piece_position(&mut self, player: usize, piece: usize, position: usize)
        requires
            old(self).wf(),
            player < 2,
            piece < 5,
            position <= 12,
        ensures
            final(self).wf(),
            final(self).id == with_id_part(
                old(self).id as int,
                part_index(player as int, piece as int),
                compress(first_move(player as int, piece as int), position as int),
            ),
            final(self)@ == old(self)@.with_piece(
                player as int,
                piece as int,
                expand(
                    first_move(player as int, piece as int),
                    compress(first_move(player as int, piece as int), position as int),
                ),
            ),
            is_resting_position(first_move(player as int, piece as int), position as int)
                ==> final(self)@ == old(self)@.with_piece(
                player as int,
                piece as int,
                position as int,
            ),
    {
        proof {
            lemma_first_moves(player as int, piece as int);
        }
        let mut position: usize = position;

        // Position in the ID is compressed to store only accessible positions.
        // This is done by taking the actual position and subtracting 1 for each
        // unreachable position.
        if position > 1 {
            let first_move: usize = FIRST_MOVES[player][piece];

            if position > 7 && first_move != 3 {
                position -= 1;
            }
            if first_move != 1 {
                position -= 1;
            }
        }
        self.set_id_part(piece * 2 + player, position as u64);
        proof {
            let k = part_index(player as int, piece as int);
            let f = first_move(player as int, piece as int);
            assert(final(self)@.progress =~= old(self)@.progress.update(k, expand(f, position as int)));
        }
    }

    /// Is the game over?
    pub fn is_ended(&self) -> (ended: bool)
        ensures
            ended == self@.is_ended(),
    {
        let last_player: usize = 1 - self.get_next_player();
        let mut movable_pieces: u8 = 0;
        let mut piece: usize = 0;

        while piece < 5
            invariant
                piece <= 5,
                last_player == 1 - self@.next_player,
                last_player < 2,
                movable_pieces == self@.unfinished(last_player as int, piece as int),
                movable_pieces <= 1,
            decreases 5 - piece,
        {
            if self.get_piece_position(last_player, piece) < 12 {
                if movable_pieces == 0 {
                    movable_pieces = 1;
                } else {
                    // The game continues as long as more than 1 movable
                    // piece remains.
                    proof {
                        lemma_unfinished_grows(self@, last_player as int, piece as int + 1, 5);
                    }
                    return false;
                }
            }
            piece += 1;
        }
        true
    }

    /// If two pieces are about to be on the same square, move the first one back
    ///
    /// The piece currently present on the square is moved back to its initial
    /// position or the opposite side.
    /// Return `true` if such a collision occurred.
    pub fn fix_possible_collision(&mut self, player: usize, piece: usize, position: usize) -> (collided:
        bool)
        requires
            old(self).wf(),
            player < 2,
            position <= 12,
        ensures
            final(self).wf(),
            collided == collides(old(self)@.progress, player as int, piece as int, position as int),
            final(self)@.progress == after_collision(
                old(self)@.progress,
                player as int,
                piece as int,
                position as int,
            ),
            final(self)@.next_player == old(self)@.next_player,
    {
        if position % 6 == 0 {
            // A collision is impossible when a piece reaches the opposite side
            // or its final position.
            return false;
        }
        let other_player: usize = 1 - player;

        // Get the number of the other player's piece in the perpendicular row.
        let other_piece: usize = if position < 6 {
            position - 1
        } else {
            11 - position
        };

        // Get position of the other player's piece.
        let other_position: usize = self.get_piece_position(other_player, other_piece);

        if other_position % 6 == 0 {
            // A collision is impossible when the other piece is in its initial
            // or final position or on the opposite side.
            return false;
        } else if other_position < 6 {
            // The other player's piece hasn't reached the opposite side yet.
            // Are the two pieces colliding ?
            if piece == other_position - 1 {
                // Move the other player's piece back to its initial position.
                self.set_piece_position(other_player, other_piece, 0);
                return true;
            }
        } else {
            // The other player's piece has already reached the opposite side.
            // Are the two pieces colliding ?
            if piece == 11 - other_position {
                // Move the other player's piece back to its opposite side.
                self.set_piece_position(other_player, other_piece, 6);
                return true;
            }
        }
        false
    }

    /// Create a new board state in which the next player's `moved_piece` is moved according to the game rules
    ///
    /// Return `None` when `moved_piece` has already reached its final position or is not a valid piece.
    pub fn get_next_state(&self, moved_piece: usize) -> (next: Option<Self>)
        requires
            self.wf(),
        ensures
            next is None <==> moved_piece > 4 || self@.piece(self@.next_player, moved_piece as int)
                == 12,
            next is Some <==> self@.successor(moved_piece as int) is Some,
            next matches Some(state) ==> {
                &&& state.wf()
                &&& Some(state@) == self@.successor(moved_piece as int)
                &&& state@.next_player == 1 - self@.next_player
            },
    {
        if moved_piece > 4 {
            return None;
        }
        let player: usize = self.get_next_player();
        let mut position: usize = self.get_piece_position(player, moved_piece);
        if position > 11 {
            // The piece is in its final position and can't be moved.
            return None;
        }
        let mut new_state: BoardState = *self;
        new_state.switch_next_player();

        proof {
            lemma_advance_target(player as int, moved_piece as int, position as int);
        }
        let mut target_position: usize = position + REGULAR_MOVES[player][moved_piece][position];
        let ghost start: int = position as int;
        let ghost first_target: int = target_position as int;

        // Move the piece, step by step.
        while position != target_position
            invariant
                new_state.wf(),
                player < 2,
                moved_piece < 5,
                position <= target_position <= 12,
                is_resting_position(
                    first_move(player as int, moved_piece as int),
                    target_position as int,
                ),
                new_state@.next_player == 1 - self@.next_player,
                advance(
                    new_state@.progress,
                    player as int,
                    moved_piece as int,
                    position as int,
                    target_position as int,
                ) == advance(self@.progress, player as int, moved_piece as int, start, first_target),
            decreases 12 - position,
        {
            position += 1;

            if new_state.fix_possible_collision(player, moved_piece, position) {
                // When there is a collision, set the target position to the
                // current piece position plus 1.
                target_position = position + 1;
            }
        }

        // Save new position of the piece in `new_state`.
        new_state.set_piece_position(player, moved_piece, position);

        Some(new_state)
    }

    /// Return the next board states, one for each piece that can move, in
    /// piece order
    pub fn get_next_states(&self) -> (states: Vec<Self>)
        requires
            self.wf(),
        ensures
            states@.map_values(|state: BoardState| state@) == self@.successors(),
            forall|i: int|
                0 <= i < states.len() ==> {
                    &&& (#[trigger] states[i]).wf()
                    &&& states[i]@.next_player == 1 - self@.next_player
                },
    {
        let mut states: Vec<BoardState> = Vec::new();
        let mut piece: usize = 0;

        while piece < 5
            invariant
                self.wf(),
                piece <= 5,
                states@.map_values(|state: BoardState| state@) == self@.successors_below(
                    piece as int,
                ),
                forall|i: int|
                    0 <= i < states.len() ==> {
                        &&& (#[trigger] states[i]).wf()
                        &&& states[i]@.next_player == 1 - self@.next_player
                    },
            decreases 5 - piece,
        {
            let ghost before = states@;
            match self.get_next_state(piece) {
                Some(state) => {
                    states.push(state);
                    proof {
                        assert(states@.map_values(|state: BoardState| state@) =~= before.map_values(
                            |state: BoardState| state@,
                        ).push(state@));
                    }
                },
                None => {},
            }
            piece += 1;
        }
        states
    }
}

impl From<u64> for BoardState {
    /// Create a board state from its ID
    fn from(id: u64) -> (state: BoardState) {
        BoardState { id }
    }
}

impl vstd::std_specs::convert::FromSpecImpl<u64> for BoardState {
    open spec fn obeys_from_spec() -> bool {
        true
    }

    open spec fn from_spec(id: u64) -> BoardState {
        BoardState { id }
    }
}

} // verus!
