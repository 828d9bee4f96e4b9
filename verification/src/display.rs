//! The picture of a board state for a terminal.

use crate::board_state::{BoardState, Position};
use crate::text::{decimal, digit_char, digit_to_char, push_char, push_decimal};
use vstd::prelude::*;

verus! {

/// The empty board, 16 rows of 32 characters. The dots beside each lane
/// tell how far a piece moves at once in that direction.
pub const BOARD: [[char; 32]; 16] = [
    [
        ' ', ' ', ' ', ' ', ' ', ' ', ' ', ' ', ' ', ' ', ' ', ' ', ' ', ' ', ' ', ' ',
        ' ', ' ', ' ', ' ', ' ', ' ', ' ', ' ', ' ', ' ', ' ', ' ', ' ', ' ', ' ', ' ',
    ],
    [
        ' ', ' ', ' ', ' ', ' ', ' ', ' ', '┏', '━', '━', '━', '┳', '━', '━', '━', '┳',
        '━', '━', '━', '┳', '━', '━', '━', '┳', '━', '━', '━', '┓', ' ', ' ', ' ', ' ',
    ],
    [
        ' ', ' ', ' ', ' ', ' ', '■', ' ', '┃', '·', ' ', ' ', '┃', '∵', ' ', ' ', '┃',
        ':', ' ', ' ', '┃', '∵', ' ', ' ', '┃', '·', ' ', ' ', '┃', ' ', '■', ' ', ' ',
    ],
    [
        ' ', ' ', ' ', '┏', '━', '━', '━', '╃', '─', '─', '─', '╀', '─', '─', '─', '╀',
        '─', '─', '─', '╀', '─', '─', '─', '╀', '─', '─', '─', '╄', '━', '━', '━', '┓',
    ],
    [
        ' ', ' ', ' ', '┃', '∵', ' ', ' ', '│', ' ', ' ', ' ', '│', ' ', ' ', ' ', '│',
        ' ', ' ', ' ', '│', ' ', ' ', ' ', '│', ' ', ' ', ' ', '│', ' ', ' ', '·', '┃',
    ],
    [
        ' ', ' ', ' ', '┣', '━', '━', '━', '┽', '─', '─', '─', '┼', '─', '─', '─', '┼',
        '─', '─', '─', '┼', '─', '─', '─', '┼', '─', '─', '─', '┾', '━', '━', '━', '┫',
    ],
    [
        ' ', ' ', ' ', '┃', '·', ' ', ' ', '│', ' ', ' ', ' ', '│', ' ', ' ', ' ', '│',
        ' ', ' ', ' ', '│', ' ', ' ', ' ', '│', ' ', ' ', ' ', '│', ' ', ' ', '∵', '┃',
    ],
    [
        ' ', ' ', ' ', '┣', '━', '━', '━', '┽', '─', '─', '─', '┼', '─', '─', '─', '┼',
        '─', '─', '─', '┼', '─', '─', '─', '┼', '─', '─', '─', '┾', '━', '━', '━', '┫',
    ],
    [
        ' ', ' ', ' ', '┃', ':', ' ', ' ', '│', ' ', ' ', ' ', '│', ' ', ' ', ' ', '│',
        ' ', ' ', ' ', '│', ' ', ' ', ' ', '│', ' ', ' ', ' ', '│', ' ', ' ', ':', '┃',
    ],
    [
        ' ', ' ', ' ', '┣', '━', '━', '━', '┽', '─', '─', '─', '┼', '─', '─', '─', '┼',
        '─', '─', '─', '┼', '─', '─', '─', '┼', '─', '─', '─', '┾', '━', '━', '━', '┫',
    ],
    [
        ' ', ' ', ' ', '┃', '·', ' ', ' ', '│', ' ', ' ', ' ', '│', ' ', ' ', ' ', '│',
        ' ', ' ', ' ', '│', ' ', ' ', ' ', '│', ' ', ' ', ' ', '│', ' ', ' ', '∵', '┃',
    ],
    [
        ' ', ' ', ' ', '┣', '━', '━', '━', '┽', '─', '─', '─', '┼', '─', '─', '─', '┼',
        '─', '─', '─', '┼', '─', '─', '─', '┼', '─', '─', '─', '┾', '━', '━', '━', '┫',
    ],
    [
        ' ', ' ', ' ', '┃', '∵', ' ', ' ', '│', ' ', ' ', ' ', '│', ' ', ' ', ' ', '│',
        ' ', ' ', ' ', '│', ' ', ' ', ' ', '│', ' ', ' ', ' ', '│', ' ', ' ', '·', '┃',
    ],
    [
        ' ', ' ', ' ', '┗', '━', '━', '━', '╅', '─', '─', '─', '╁', '─', '─', '─', '╁',
        '─', '─', '─', '╁', '─', '─', '─', '╁', '─', '─', '─', '╆', '━', '━', '━', '┛',
    ],
    [
        ' ', ' ', ' ', ' ', ' ', '■', ' ', '┃', ' ', ' ', '∵', '┃', ' ', ' ', '·', '┃',
        ' ', ' ', ':', '┃', ' ', ' ', '·', '┃', ' ', ' ', '∵', '┃', ' ', '■', ' ', ' ',
    ],
    [
        ' ', ' ', ' ', ' ', ' ', ' ', ' ', '┗', '━', '━', '━', '┻', '━', '━', '━', '┻',
        '━', '━', '━', '┻', '━', '━', '━', '┻', '━', '━', '━', '┛', ' ', ' ', ' ', ' ',
    ],
];

/// Row in which a piece of player 0 at `position` is drawn.
pub open spec fn top_row(position: int) -> int {
    if position < 6 {
        (position + 1) * 2
    } else {
        (13 - position) * 2
    }
}

/// Column in which `piece` of player 0 is drawn.
pub open spec fn top_column(piece: int) -> int {
    (piece + 1) * 4 + 5
}

/// Row in which `piece` of player 1 is drawn.
pub open spec fn left_row(piece: int) -> int {
    (piece + 2) * 2
}

/// Column in which a piece of player 1 at `position` is drawn.
pub open spec fn left_column(position: int) -> int {
    if position < 6 {
        position * 4 + 5
    } else {
        (12 - position) * 4 + 5
    }
}

/// What `piece` of player 0 puts at a place of the board: an arrow where it
/// stands, and its number at the top when it can be moved next.
pub open spec fn top_mark(position: Position, piece: int, row: int, column: int) -> Option<char> {
    let progress = position.piece(0, piece);
    if column != top_column(piece) {
        None
    } else if row == 0 && !position.is_ended() && position.next_player == 0 && progress < 12 {
        Some(digit_char(piece))
    } else if row == top_row(progress) {
        Some(
            if progress < 6 {
                '↓'
            } else {
                '↑'
            },
        )
    } else {
        None
    }
}

/// What `piece` of player 1 puts at a place of the board: an arrow where it
/// stands, and its number on the left when it can be moved next.
pub open spec fn left_mark(position: Position, piece: int, row: int, column: int) -> Option<char> {
    let progress = position.piece(1, piece);
    if row != left_row(piece) {
        None
    } else if column == 1 && !position.is_ended() && position.next_player == 1 && progress < 12 {
        Some(digit_char(piece))
    } else if column == left_column(progress) {
        Some(
            if progress < 6 {
                '→'
            } else {
                '←'
            },
        )
    } else {
        None
    }
}

/// The board with the first `count` pieces of player 0 drawn on it.
pub open spec fn with_top_pieces(position: Position, count: int, row: int, column: int) -> char
    decreases count,
{
    if count <= 0 {
        BOARD[row][column]
    } else {
        match top_mark(position, count - 1, row, column) {
            Some(mark) => mark,
            None => with_top_pieces(position, count - 1, row, column),
        }
    }
}

/// The board with the pieces of player 0 and, over them, the first `count`
/// pieces of player 1 drawn on it.
pub open spec fn with_left_pieces(position: Position, count: int, row: int, column: int) -> char
    decreases count,
{
    if count <= 0 {
        with_top_pieces(position, 5, row, column)
    } else {
        match left_mark(position, count - 1, row, column) {
            Some(mark) => mark,
            None => with_left_pieces(position, count - 1, row, column),
        }
    }
}

/// A line character with its vertical strokes made thick.
pub open spec fn thick_vertical(character: char) -> char {
    if character == '│' {
        '┃'
    } else if character == '╃' || character == '┽' || character == '╅' {
        '╉'
    } else if character == '╀' || character == '┼' || character == '╁' {
        '╂'
    } else if character == '╄' || character == '┾' || character == '╆' {
        '╊'
    } else {
        character
    }
}

/// A line character with its horizontal strokes made thick.
pub open spec fn thick_horizontal(character: char) -> char {
    if character == '─' {
        '━'
    } else if character == '╃' || character == '╀' || character == '╄' {
        '╇'
    } else if character == '┽' || character == '┼' || character == '┾' {
        '┿'
    } else if character == '╅' || character == '╁' || character == '╆' {
        '╈'
    } else if character == '╉' || character == '╂' || character == '╊' {
        '╋'
    } else {
        character
    }
}

/// The character shown at a place of the board: the lanes of the player to
/// move are drawn thin, all others thick, and all are thick once the game
/// is over.
pub open spec fn shown_char(position: Position, row: int, column: int) -> char {
    let drawn = with_left_pieces(position, 5, row, column);
    let upright = if position.is_ended() || position.next_player == 0 {
        thick_vertical(drawn)
    } else {
        drawn
    };
    if position.is_ended() || position.next_player == 1 {
        thick_horizontal(upright)
    } else {
        upright
    }
}

/// The first `count` characters of a row as they are shown.
pub open spec fn shown_row(position: Position, row: int, count: int) -> Seq<char> {
    Seq::new(count as nat, |column: int| shown_char(position, row, column))
}

/// The first `count` rows as they are shown, each followed by a line break.
pub open spec fn shown_rows(position: Position, count: int) -> Seq<char>
    decreases count,
{
    if count <= 0 {
        Seq::empty()
    } else {
        shown_rows(position, count - 1) + shown_row(position, count - 1, 32).push('\n')
    }
}

/// The picture of the board state with this ID: the 16 rows of the board
/// and a last line that gives the ID.
pub open spec fn picture(id: u64) -> Seq<char> {
    shown_rows(crate::board_state::decode(id as int), 16) + "(ID : "@ + decimal(id as nat) + ")"@
}

/// Make the vertical strokes of a line character thick
fn thicken_vertical(character: char) -> (thick: char)
    ensures
        thick == thick_vertical(character),
{
    if character == '│' {
        '┃'
    } else if character == '╃' || character == '┽' || character == '╅' {
        '╉'
    } else if character == '╀' || character == '┼' || character == '╁' {
        '╂'
    } else if character == '╄' || character == '┾' || character == '╆' {
        '╊'
    } else {
        character
    }
}

/// Make the horizontal strokes of a line character thick
fn thicken_horizontal(character: char) -> (thick: char)
    ensures
        thick == thick_horizontal(character),
{
    if character == '─' {
        '━'
    } else if character == '╃' || character == '╀' || character == '╄' {
        '╇'
    } else if character == '┽' || character == '┼' || character == '┾' {
        '┿'
    } else if character == '╅' || character == '╁' || character == '╆' {
        '╈'
    } else if character == '╉' || character == '╂' || character == '╊' {
        '╋'
    } else {
        character
    }
}

impl BoardState {
    /// Format the board state to display it on a terminal
    pub fn to_string(&self) -> (text: String)
        ensures
            text@ == picture(self.id),
    {
        let next_player: usize = self.get_next_player();
        let ended: bool = self.is_ended();
        let ghost position = self@;

        let mut board_arr: Vec<char> = Vec::new();
        let mut row: usize = 0;
        while row < 16
            invariant
                row <= 16,
                board_arr.len() == row * 32,
                forall|r: int, c: int|
                    0 <= r < row && 0 <= c < 32 ==> #[trigger] board_arr[r * 32 + c] == BOARD[r][c],
            decreases 16 - row,
        {
            let mut column: usize = 0;
            while column < 32
                invariant
                    row < 16,
                    column <= 32,
                    board_arr.len() == row * 32 + column,
                    forall|r: int, c: int|
                        0 <= r < row && 0 <= c < 32 ==> #[trigger] board_arr[r * 32 + c]
                            == BOARD[r][c],
                    forall|c: int|
                        0 <= c < column ==> #[trigger] board_arr[row * 32 + c]
                            == BOARD[row as int][c],
                decreases 32 - column,
            {
                board_arr.push(BOARD[row][column]);
                column += 1;
            }
            row += 1;
        }

        // Add pieces of player 0.
        let mut piece: usize = 0;
        while piece < 5
            invariant
                piece <= 5,
                position == self@,
                next_player == position.next_player,
                ended == position.is_ended(),
                board_arr.len() == 512,
                forall|r: int, c: int|
                    0 <= r < 16 && 0 <= c < 32 ==> #[trigger] board_arr[r * 32 + c]
                        == with_top_pieces(position, piece as int, r, c),
            decreases 5 - piece,
        {
            let progress: usize = self.get_piece_position(0, piece);
            let column: usize = (piece + 1) * 4 + 5;

            if progress < 6 {
                board_arr.set((progress + 1) * 2 * 32 + column, '↓');
            } else {
                board_arr.set((13 - progress) * 2 * 32 + column, '↑');
            }
            // When a piece can be moved next, display its number at the top.
            if !ended && next_player == 0 && progress < 12 {
                board_arr.set(column, digit_to_char(piece as u64));
            }
            piece += 1;
        }

        // Add pieces of player 1.
        let mut piece: usize = 0;
        while piece < 5
            invariant
                piece <= 5,
                position == self@,
                next_player == position.next_player,
                ended == position.is_ended(),
                board_arr.len() == 512,
                forall|r: int, c: int|
                    0 <= r < 16 && 0 <= c < 32 ==> #[trigger] board_arr[r * 32 + c]
                        == with_left_pieces(position, piece as int, r, c),
            decreases 5 - piece,
        {
            let progress: usize = self.get_piece_position(1, piece);
            let row: usize = (piece + 2) * 2;

            if progress < 6 {
                board_arr.set(row * 32 + progress * 4 + 5, '→');
            } else {
                board_arr.set(row * 32 + (12 - progress) * 4 + 5, '←');
            }
            // When a piece can be moved next, display its number on the left.
            if !ended && next_player == 1 && progress < 12 {
                board_arr.set(row * 32 + 1, digit_to_char(piece as u64));
            }
            piece += 1;
        }

        let mut text: String = String::new();
        let mut row: usize = 0;
        while row < 16
            invariant
                row <= 16,
                position == self@,
                next_player == position.next_player,
                ended == position.is_ended(),
                board_arr.len() == 512,
                forall|r: int, c: int|
                    0 <= r < 16 && 0 <= c < 32 ==> #[trigger] board_arr[r * 32 + c]
                        == with_left_pieces(position, 5, r, c),
                text@ == shown_rows(position, row as int),
            decreases 16 - row,
        {
            let ghost before = text@;
            let mut column: usize = 0;
            while column < 32
                invariant
                    row < 16,
                    column <= 32,
                    next_player == position.next_player,
                    ended == position.is_ended(),
                    board_arr.len() == 512,
                    forall|r: int, c: int|
                        0 <= r < 16 && 0 <= c < 32 ==> #[trigger] board_arr[r * 32 + c]
                            == with_left_pieces(position, 5, r, c),
                    text@ == before + shown_row(position, row as int, column as int),
                decreases 32 - column,
            {
                let mut character: char = board_arr[row * 32 + column];
                if ended || next_player == 0 {
                    // Replace light vertical lines with thick ones.
                    character = thicken_vertical(character);
                }
                if ended || next_player == 1 {
                    // Replace light horizontal lines with thick ones.
                    character = thicken_horizontal(character);
                }
                push_char(&mut text, character);
                proof {
                    assert(board_arr[row * 32 + column] == with_left_pieces(
                        position,
                        5,
                        row as int,
                        column as int,
                    ));
                    assert(shown_row(position, row as int, column as int + 1) =~= shown_row(
                        position,
                        row as int,
                        column as int,
                    ).push(shown_char(position, row as int, column as int)));
                }
                column += 1;
            }
            push_char(&mut text, '\n');
            proof {
                assert(before + shown_row(position, row as int, 32).push('\n') =~= (before
                    + shown_row(position, row as int, 32)).push('\n'));
            }
            row += 1;
        }
        text.append("(ID : ");
        push_decimal(&mut text, self.id);
        text.append(")");
        text
    }
}

} // verus!
