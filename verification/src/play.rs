//! The decisions of a game against the computer: which piece a line of
//! input names, and which move is best for the player to move.

use crate::board_state::BoardState;
use crate::text::{digit_to_char, push_char};
use vstd::prelude::*;
use vstd::string::StrSliceExecFns;

verus! {

/// Evaluation of the board state
#[derive(Debug, Clone, Copy, PartialEq, Eq, Structural)]
pub enum BoardStateEval {
    Win,
    /// Endless game.
    Draw,
    Loss,
}

/// Whether a character beyond ASCII counts as white space.
pub uninterp spec fn is_wide_space(character: char) -> bool;

/// Whether a character counts as white space. Among the ASCII characters
/// these are the tab, the line feed, the vertical tab, the form feed, the
/// carriage return and the space.
pub open spec fn is_space(character: char) -> bool {
    if character as u32 <= 127 {
        9 <= character as u32 <= 13 || character as u32 == 32
    } else {
        is_wide_space(character)
    }
}

/// `char::is_whitespace` tells whether Unicode counts a character as white
/// space. Of the ASCII characters it counts U+0009 to U+000D and U+0020,
/// and no other. For any other character the answer depends on the
/// character alone.
#[verifier::external_body]
fn is_whitespace(character: char) -> (space: bool)
    ensures
        space == if character as u32 <= 127 {
            9 <= character as u32 <= 13 || character as u32 == 32
        } else {
            is_wide_space(character)
        },
{
    character.is_whitespace()
}

/// `fastrand::shuffle` swaps the elements of the slice at random: the same
/// states come back, in some order.
#[verifier::external_body]
fn shuffle_states(states: &mut Vec<BoardState>)
    ensures
        final(states)@.to_multiset() == old(states)@.to_multiset(),
{
    fastrand::shuffle(states);
}

/// The text without the white space at its start.
pub open spec fn without_leading_space(text: Seq<char>) -> Seq<char>
    decreases text.len(),
{
    if text.len() > 0 && is_space(text[0]) {
        without_leading_space(text.drop_first())
    } else {
        text
    }
}

/// The text without the white space at its end.
pub open spec fn without_trailing_space(text: Seq<char>) -> Seq<char>
    decreases text.len(),
{
    if text.len() > 0 && is_space(text.last()) {
        without_trailing_space(text.drop_last())
    } else {
        text
    }
}

/// The text without the white space around it.
pub open spec fn trimmed(text: Seq<char>) -> Seq<char> {
    without_trailing_space(without_leading_space(text))
}

/// The value of a decimal digit.
pub open spec fn digit_value(character: char) -> Option<int> {
    if character == '0' {
        Some(0)
    } else if character == '1' {
        Some(1)
    } else if character == '2' {
        Some(2)
    } else if character == '3' {
        Some(3)
    } else if character == '4' {
        Some(4)
    } else if character == '5' {
        Some(5)
    } else if character == '6' {
        Some(6)
    } else if character == '7' {
        Some(7)
    } else if character == '8' {
        Some(8)
    } else if character == '9' {
        Some(9)
    } else {
        None
    }
}

/// The number that a run of decimal digits stands for; none if another
/// character is among them.
pub open spec fn digits_number(digits: Seq<char>) -> Option<nat>
    decreases digits.len(),
{
    if digits.len() == 0 {
        Some(0)
    } else {
        match (digits_number(digits.drop_last()), digit_value(digits.last())) {
            (Some(number), Some(digit)) => Some((number * 10 + digit) as nat),
            _ => None,
        }
    }
}

/// The number that a text stands for: decimal digits, at least one, after
/// at most one plus sign.
pub open spec fn text_number(text: Seq<char>) -> Option<nat> {
    let digits = if text.len() > 0 && text[0] == '+' {
        text.drop_first()
    } else {
        text
    };
    if digits.len() == 0 {
        None
    } else {
        digits_number(digits)
    }
}

/// The piece that a line of input names: the number that the line stands
/// for once the white space around it is gone, if it is at most 4.
pub open spec fn named_piece(line: Seq<char>) -> Option<int> {
    match text_number(trimmed(line)) {
        Some(number) => if number <= 4 {
            Some(number as int)
        } else {
            None
        },
        None => None,
    }
}

/// The numbers of the pieces below `count` that the next player can move,
/// with a comma and a space between them.
pub open spec fn movable_pieces(state: BoardState, count: int) -> Seq<char>
    decreases count,
{
    if count <= 0 {
        Seq::empty()
    } else if state@.successor(count - 1) is None {
        movable_pieces(state, count - 1)
    } else if movable_pieces(state, count - 1).len() == 0 {
        seq![crate::text::digit_char(count - 1)]
    } else {
        movable_pieces(state, count - 1) + ", "@ + seq![crate::text::digit_char(count - 1)]
    }
}

/// Return the value of a decimal digit
fn value_of_digit(character: char) -> (value: Option<u64>)
    ensures
        match value {
            Some(value) => digit_value(character) == Some(value as int),
            None => digit_value(character) is None,
        },
{
    if character == '0' {
        Some(0)
    } else if character == '1' {
        Some(1)
    } else if character == '2' {
        Some(2)
    } else if character == '3' {
        Some(3)
    } else if character == '4' {
        Some(4)
    } else if character == '5' {
        Some(5)
    } else if character == '6' {
        Some(6)
    } else if character == '7' {
        Some(7)
    } else if character == '8' {
        Some(8)
    } else if character == '9' {
        Some(9)
    } else {
        None
    }
}

/// Return the piece that a line of input names
pub fn piece_from_input(line: &str) -> (piece: Option<usize>)
    ensures
        match piece {
            Some(piece) => named_piece(line@) == Some(piece as int),
            None => named_piece(line@) is None,
        },
{
    let length: usize = line.unicode_len();
    let mut start: usize = 0;

    proof {
        assert(line@.skip(0) =~= line@);
    }
    // Skip the white space before the number.
    loop
        invariant
            start <= length == line@.len(),
            without_leading_space(line@) == without_leading_space(line@.skip(start as int)),
        ensures
            without_leading_space(line@) == line@.skip(start as int),
        decreases length - start,
    {
        if start == length {
            break ;
        }
        if !is_whitespace(line.get_char(start)) {
            proof {
                assert(line@.skip(start as int)[0] == line@[start as int]);
            }
            break ;
        }
        proof {
            assert(line@.skip(start as int)[0] == line@[start as int]);
            assert(line@.skip(start as int).drop_first() =~= line@.skip(start as int + 1));
        }
        start += 1;
    }
    let ghost kept = line@.skip(start as int);
    let mut end: usize = length;

    proof {
        assert(kept.take(length - start) =~= kept);
    }
    // Skip the white space after the number.
    loop
        invariant
            start <= end <= length == line@.len(),
            kept == line@.skip(start as int),
            without_trailing_space(kept) == without_trailing_space(kept.take(end - start)),
        ensures
            start <= end <= length,
            without_trailing_space(kept) == kept.take(end - start),
        decreases end - start,
    {
        if end == start {
            break ;
        }
        if !is_whitespace(line.get_char(end - 1)) {
            proof {
                assert(kept.take(end - start).last() == line@[end - 1]);
            }
            break ;
        }
        proof {
            assert(kept.take(end - start).last() == line@[end - 1]);
            assert(kept.take(end - start).drop_last() =~= kept.take(end - start - 1));
        }
        end -= 1;
    }
    let ghost text = kept.take(end - start);
    proof {
        assert(text == trimmed(line@));
        assert forall|i: int| 0 <= i < text.len() implies text[i] == line@[start + i] by {}
    }

    // At most one plus sign may come before the digits.
    let mut index: usize = start;
    if index < end && line.get_char(index) == '+' {
        index += 1;
    }
    let ghost digits = text.skip(index - start);
    proof {
        assert(text.skip(0) =~= text);
        if text.len() > 0 {
            assert(text.skip(1) =~= text.drop_first());
        }
        assert(digits == if text.len() > 0 && text[0] == '+' {
            text.drop_first()
        } else {
            text
        });
    }
    if index == end {
        return None;
    }
    let first: usize = index;
    let mut number: u64 = 0;

    // Read the digits. A number above 4 names no piece, so 5 stands for all of them.
    while index < end
        invariant
            start <= first <= index <= end <= length == line@.len(),
            digits == text.skip(first - start),
            text == trimmed(line@),
            text_number(text) == digits_number(digits),
            text.len() == end - start,
            forall|i: int| 0 <= i < text.len() ==> text[i] == line@[start + i],
            number <= 5,
            match digits_number(digits.take(index - first)) {
                Some(value) => number == if value <= 4 {
                    value
                } else {
                    5
                },
                None => false,
            },
        decreases end - index,
    {
        let ghost before = digits.take(index - first);
        let character: char = line.get_char(index);
        proof {
            assert(digits.take(index - first + 1).drop_last() =~= before);
            assert(digits.take(index - first + 1).last() == character);
        }
        match value_of_digit(character) {
            Some(digit) => {
                number = number * 10 + digit;
                if number > 5 {
                    number = 5;
                }
            },
            None => {
                proof {
                    assert(digits_number(digits.take(index - first + 1)) is None);
                    lemma_no_number(digits, index - first + 1);
                    assert(text_number(text) is None);
                }
                return None;
            },
        }
        index += 1;
    }
    proof {
        assert(digits.take(index - first) =~= digits);
    }
    if number <= 4 {
        Some(number as usize)
    } else {
        None
    }
}

/// A run of characters stands for no number once a part of it at its
/// start does not.
proof fn lemma_no_number(digits: Seq<char>, count: int)
    requires
        0 <= count <= digits.len(),
        digits_number(digits.take(count)) is None,
    ensures
        digits_number(digits) is None,
    decreases digits.len() - count,
{
    if count < digits.len() {
        assert(digits.take(count + 1).drop_last() =~= digits.take(count));
        lemma_no_number(digits, count + 1);
    } else {
        assert(digits.take(count) =~= digits);
    }
}

/// Return the next state for the move that a line of input asks for
///
/// There is none when the line does not name a piece that the next
/// player can move.
pub fn get_next_state_from_user_input(state: &BoardState, line: &str) -> (next: Option<BoardState>)
    requires
        state.wf(),
    ensures
        match named_piece(line@) {
            Some(piece) => {
                &&& next is Some <==> state@.successor(piece) is Some
                &&& next matches Some(next_state) ==> next_state.wf() && Some(next_state@)
                    == state@.successor(piece)
            },
            None => next is None,
        },
{
    match piece_from_input(line) {
        // If the user-given piece is valid, return the corresponding state.
        Some(piece) => state.get_next_state(piece),
        None => None,
    }
}

/// Return the numbers of the pieces that the next player can move, as they are shown after an invalid move
pub fn available_pieces(state: &BoardState) -> (pieces: String)
    requires
        state.wf(),
    ensures
        pieces@ == movable_pieces(*state, 5),
{
    let mut pieces: String = String::new();
    let mut found: bool = false;
    let mut piece: usize = 0;

    while piece < 5
        invariant
            state.wf(),
            piece <= 5,
            pieces@ == movable_pieces(*state, piece as int),
            found == (pieces@.len() > 0),
        decreases 5 - piece,
    {
        if state.get_next_state(piece).is_some() {
            if found {
                let ghost before = pieces@;
                pieces.append(", ");
                proof {
                    assert(pieces@ =~= before + ", "@);
                }
            }
            push_char(&mut pieces, digit_to_char(piece as u64));
            found = true;
        }
        piece += 1;
    }
    pieces
}

/// Return the next states in a random order
pub fn get_shuffled_next_states(state: &BoardState) -> (next_states: Vec<BoardState>)
    requires
        state.wf(),
    ensures
        next_states.len() == state@.successors().len(),
        forall|i: int|
            0 <= i < next_states.len() ==> (#[trigger] next_states[i]).wf()
                && state@.successors().contains(next_states[i]@),
        forall|i: int|
            0 <= i < state@.successors().len() ==> next_states@.map_values(
                |next: BoardState| next@,
            ).contains(#[trigger] state@.successors()[i]),
{
    let mut next_states: Vec<BoardState> = state.get_next_states();
    let ghost ordered = next_states@;
    shuffle_states(&mut next_states);
    proof {
        let shuffled = next_states@;
        let mapped = ordered.map_values(|next: BoardState| next@);
        ordered.to_multiset_ensures();
        shuffled.to_multiset_ensures();
        assert forall|i: int| 0 <= i < shuffled.len() implies (#[trigger] shuffled[i]).wf()
            && state@.successors().contains(shuffled[i]@) by {
            assert(shuffled.contains(shuffled[i]));
            assert(shuffled.to_multiset().count(shuffled[i]) > 0);
            assert(ordered.to_multiset().count(shuffled[i]) > 0);
            assert(ordered.contains(shuffled[i]));
            let j = choose|j: int| 0 <= j < ordered.len() && ordered[j] == shuffled[i];
            assert(mapped[j] == shuffled[i]@);
        }
        assert forall|i: int| 0 <= i < state@.successors().len() implies shuffled.map_values(
            |next: BoardState| next@,
        ).contains(#[trigger] state@.successors()[i]) by {
            assert(mapped[i] == ordered[i]@);
            assert(ordered.contains(ordered[i]));
            assert(ordered.to_multiset().count(ordered[i]) > 0);
            assert(shuffled.to_multiset().count(ordered[i]) > 0);
            assert(shuffled.contains(ordered[i]));
            let j = choose|j: int| 0 <= j < shuffled.len() && shuffled[j] == ordered[i];
            assert(shuffled.map_values(|next: BoardState| next@)[j] == state@.successors()[i]);
        }
    }
    next_states
}

/// Return a next state that gives the best final outcome for the next player
///
/// `winning[i]` tells whether `next_states[i]` is a winning state of the
/// next player, `losing[i]` whether it is one of the other player. The
/// first winning state is chosen; without one, the first state that is not
/// losing; without one, the first state.
pub fn get_best_next_state(next_states: &[BoardState], winning: &[bool], losing: &[bool]) -> (best: (
    Option<BoardState>,
    Option<BoardStateEval>,
))
    requires
        next_states.len() > 0,
        winning.len() == next_states.len(),
        losing.len() == next_states.len(),
    ensures
        match best {
            (Some(next_state), Some(BoardStateEval::Win)) => exists|i: int|
                0 <= i < next_states.len() && #[trigger] winning[i] && next_state
                    == next_states[i] && forall|j: int| 0 <= j < i ==> !winning[j],
            (Some(next_state), Some(BoardStateEval::Draw)) => {
                &&& forall|j: int| 0 <= j < winning.len() ==> !winning[j]
                &&& exists|i: int|
                    0 <= i < next_states.len() && !#[trigger] losing[i] && next_state
                        == next_states[i] && forall|j: int| 0 <= j < i ==> losing[j]
            },
            (Some(next_state), Some(BoardStateEval::Loss)) => {
                &&& forall|j: int| 0 <= j < winning.len() ==> !winning[j] && losing[j]
                &&& next_state == next_states[0]
            },
            _ => false,
        },
{
    // Look for a winning state in `next_states`.
    let mut index: usize = 0;
    while index < next_states.len()
        invariant
            index <= next_states.len() == winning.len(),
            forall|j: int| 0 <= j < index ==> !winning[j],
        decreases next_states.len() - index,
    {
        if winning[index] {
            // Return a winning state.
            return (Some(next_states[index]), Some(BoardStateEval::Win));
        }
        index += 1;
    }

    // Look for a non-winning state (for the previous player) in `next_states`.
    let mut index: usize = 0;
    while index < next_states.len()
        invariant
            index <= next_states.len() == losing.len(),
            forall|j: int| 0 <= j < winning.len() ==> !winning[j],
            forall|j: int| 0 <= j < index ==> losing[j],
        decreases next_states.len() - index,
    {
        if !losing[index] {
            // Return a drawing state.
            return (Some(next_states[index]), Some(BoardStateEval::Draw));
        }
        index += 1;
    }

    // Return a losing state.
    (Some(next_states[0]), Some(BoardStateEval::Loss))
}

} // verus!
