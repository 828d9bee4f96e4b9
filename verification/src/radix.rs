//! Facts about the mixed-radix layout of board state IDs: each part can be
//! read and replaced independently, and IDs below `ID_LIMIT` correspond one
//! to one to valid positions.

use crate::board_state::{
    compress, decode, encode, encode_pieces, expand, first_move, id_part, is_resting_position,
    part_factor, part_index, part_size, switched_id, with_id_part, Position, ID_LIMIT,
};
use vstd::arithmetic::div_mod::{
    lemma_div_denominator, lemma_fundamental_div_mod, lemma_fundamental_div_mod_converse,
    lemma_hoist_over_denominator, lemma_mod_bound, lemma_mod_breakdown,
    lemma_mod_multiples_vanish, lemma_div_pos_is_pos,
};
use vstd::prelude::*;

verus! {

/// Each place value is the next one times the size of the next part; the
/// last is 1 and the first times its size is `ID_LIMIT`.
pub proof fn lemma_factor_chain(index: int)
    requires
        0 <= index < 11,
    ensures
        part_factor(index) > 0,
        2 <= part_size(index) <= 12,
        index < 10 ==> part_factor(index) == part_factor(index + 1) * part_size(index + 1),
        index == 10 ==> part_factor(index) == 1 && part_size(index) == 2,
        index == 0 ==> part_factor(index) * part_size(index) == ID_LIMIT,
{
    if index == 0 {
        assert(part_factor(0) == 8671297536 && part_factor(1) == 722608128 && part_size(1) == 12);
    } else if index == 1 {
        assert(part_factor(1) == 722608128 && part_factor(2) == 60217344 && part_size(2) == 12);
    } else if index == 2 {
        assert(part_factor(2) == 60217344 && part_factor(3) == 5018112 && part_size(3) == 12);
    } else if index == 3 {
        assert(part_factor(3) == 5018112 && part_factor(4) == 456192 && part_size(4) == 11);
    } else if index == 4 {
        assert(part_factor(4) == 456192 && part_factor(5) == 41472 && part_size(5) == 11);
    } else if index == 5 {
        assert(part_factor(5) == 41472 && part_factor(6) == 3456 && part_size(6) == 12);
    } else if index == 6 {
        assert(part_factor(6) == 3456 && part_factor(7) == 288 && part_size(7) == 12);
    } else if index == 7 {
        assert(part_factor(7) == 288 && part_factor(8) == 24 && part_size(8) == 12);
    } else if index == 8 {
        assert(part_factor(8) == 24 && part_factor(9) == 2 && part_size(9) == 12);
    } else if index == 9 {
        assert(part_factor(9) == 2 && part_factor(10) == 1 && part_size(10) == 2);
    } else {
        assert(part_factor(10) == 1 && part_size(10) == 2);
    }
}

/// Every part of ID 0 is 0.
pub proof fn lemma_zero_parts(index: int)
    requires
        0 <= index < 11,
    ensures
        id_part(0, index) == 0,
{
    lemma_factor_chain(index);
    vstd::arithmetic::div_mod::lemma_div_basics(part_factor(index));
    vstd::arithmetic::div_mod::lemma_small_mod(0, part_size(index) as nat);
}

/// The first move of every piece is 1, 2 or 3, and part sizes match: a piece
/// whose first move is 2 has 11 resting positions, any other has 12.
pub proof fn lemma_first_moves(player: int, piece: int)
    requires
        0 <= player < 2,
        0 <= piece < 5,
    ensures
        1 <= first_move(player, piece) <= 3,
        part_size(piece * 2 + player) == if first_move(player, piece) == 2 {
            11int
        } else {
            12int
        },
{
    if player == 0 {
        if piece == 0 {
        } else if piece == 1 {
        } else if piece == 2 {
        } else if piece == 3 {
        } else {
        }
    } else {
        if piece == 0 {
        } else if piece == 1 {
        } else if piece == 2 {
        } else if piece == 3 {
        } else {
        }
    }
}

/// Two numbers with the same quotient by the place value at `index` agree on
/// every part from the first up to `index`.
proof fn lemma_parts_above(x: int, y: int, index: int)
    requires
        0 <= x,
        0 <= y,
        0 <= index < 11,
        x / part_factor(index) == y / part_factor(index),
    ensures
        forall|other: int| 0 <= other <= index ==> #[trigger] id_part(x, other) == id_part(y, other),
        x / part_factor(0) == y / part_factor(0),
    decreases index,
{
    lemma_factor_chain(index);
    if index > 0 {
        lemma_factor_chain(index - 1);
        let f = part_factor(index);
        let s = part_size(index);
        lemma_div_denominator(x, f, s);
        lemma_div_denominator(y, f, s);
        assert(x / part_factor(index - 1) == y / part_factor(index - 1));
        lemma_parts_above(x, y, index - 1);
    }
}

/// Two numbers with the same remainder by the place value at `index` agree on
/// every part after `index`.
proof fn lemma_parts_below(x: int, y: int, index: int)
    requires
        0 <= x,
        0 <= y,
        0 <= index < 11,
        x % part_factor(index) == y % part_factor(index),
    ensures
        forall|other: int| index < other < 11 ==> #[trigger] id_part(x, other) == id_part(y, other),
    decreases 10 - index,
{
    if index < 10 {
        lemma_factor_chain(index);
        lemma_factor_chain(index + 1);
        let g = part_factor(index + 1);
        let t = part_size(index + 1);
        lemma_mod_breakdown(x, g, t);
        lemma_mod_breakdown(y, g, t);
        lemma_mod_bound(x, g);
        lemma_mod_bound(y, g);
        let dx = (x / g) % t;
        let dy = (y / g) % t;
        let rx = x % g;
        let ry = y % g;
        assert(g * dx + rx == g * dy + ry);
        assert(dx == dy && rx == ry) by (nonlinear_arith)
            requires
                g * dx + rx == g * dy + ry,
                0 <= rx < g,
                0 <= ry < g,
        ;
        lemma_parts_below(x, y, index + 1);
    }
}

/// Replacing one part of a valid ID gives a valid ID in which that part has
/// the new value and every other part is unchanged.
pub proof fn lemma_with_id_part(id: int, index: int, value: int)
    requires
        0 <= id < ID_LIMIT,
        0 <= index < 11,
        0 <= value < part_size(index),
    ensures
        0 <= id_part(id, index) < part_size(index),
        0 <= part_factor(index) * id_part(id, index) <= id,
        0 <= with_id_part(id, index, value) < ID_LIMIT,
        forall|other: int|
            0 <= other < 11 ==> #[trigger] id_part(with_id_part(id, index, value), other) == if other
                == index {
                value
            } else {
                id_part(id, other)
            },
{
    let f = part_factor(index);
    let s = part_size(index);
    let q = id / f;
    let d = q % s;
    let h = q / s;
    let new_id = with_id_part(id, index, value);
    lemma_factor_chain(index);
    lemma_factor_chain(0);
    lemma_div_pos_is_pos(id, f);
    lemma_div_pos_is_pos(q, s);
    lemma_mod_bound(q, s);
    lemma_mod_bound(id, f);
    lemma_fundamental_div_mod(id, f);
    lemma_fundamental_div_mod(q, s);
    let low = id % f;
    assert(f * d <= id && 0 <= f * d && new_id == f * (h * s + value) + low && new_id == f * (value
        - d) + id && 0 <= new_id) by (nonlinear_arith)
        requires
            new_id == id - f * d + f * value,
            id == f * q + low,
            q == s * h + d,
            0 <= low,
            0 <= value,
            0 <= d,
            0 <= h,
            0 < f,
            0 < s,
    ;
    // Parts after `index` only depend on the remainder by `f`.
    lemma_mod_multiples_vanish(value - d, id, f);
    lemma_parts_below(new_id, id, index);
    // The part at `index` and the quotient above it.
    lemma_hoist_over_denominator(id, value - d, f as nat);
    assert((value - d) * f == f * (value - d)) by (nonlinear_arith);
    let new_q = new_id / f;
    assert(new_q == q + value - d);
    assert(new_q == h * s + value) by (nonlinear_arith)
        requires
            new_q == q + value - d,
            q == s * h + d,
    ;
    lemma_fundamental_div_mod_converse(new_q, s, h, value);
    assert(id_part(new_id, index) == value);
    // Parts before `index` only depend on the quotient by `f * s`.
    if index > 0 {
        lemma_factor_chain(index - 1);
        lemma_div_denominator(id, f, s);
        lemma_div_denominator(new_id, f, s);
        lemma_parts_above(new_id, id, index - 1);
    } else {
        assert(f == 8671297536 && s == 12);
        assert(q == id / 8671297536);
        assert(h == q / 12);
    }
    assert(part_factor(0) == 8671297536);
    assert(new_id / part_factor(0) < 12);
}

/// Switching the next player replaces the last part and leaves the pieces
/// where they are.
pub proof fn lemma_switch(id: int)
    requires
        0 <= id < ID_LIMIT,
    ensures
        switched_id(id) == with_id_part(id, 10, 1 - id % 2),
        0 <= switched_id(id) < ID_LIMIT,
        decode(switched_id(id)) == decode(id).switched(),
{
    lemma_factor_chain(10);
    lemma_with_id_part(id, 10, 1 - id % 2);
    assert(decode(switched_id(id)).progress =~= decode(id).progress);
}

/// Switching the next player twice gives the same ID back.
pub proof fn lemma_switch_twice(id: int)
    ensures
        switched_id(switched_id(id)) == id,
{
}

/// The stored part of a position where a piece can rest fits the part's
/// size and expands to the position again.
pub proof fn lemma_expand_compress(player: int, piece: int, position: int)
    requires
        0 <= player < 2,
        0 <= piece < 5,
        is_resting_position(first_move(player, piece), position),
    ensures
        0 <= compress(first_move(player, piece), position) < part_size(part_index(player, piece)),
        expand(first_move(player, piece), compress(first_move(player, piece), position))
            == position,
{
    lemma_first_moves(player, piece);
}

/// Every value of a part expands to a position where the piece can rest,
/// and that position is stored as the same value.
pub proof fn lemma_compress_expand(player: int, piece: int, part: int)
    requires
        0 <= player < 2,
        0 <= piece < 5,
        0 <= part < part_size(part_index(player, piece)),
    ensures
        is_resting_position(first_move(player, piece), expand(first_move(player, piece), part)),
        compress(first_move(player, piece), expand(first_move(player, piece), part)) == part,
{
    lemma_first_moves(player, piece);
}

/// Weighted sum of the first `count` parts of `id`.
pub open spec fn weighted_parts(id: int, count: int) -> int
    decreases count,
{
    if count <= 0 {
        0
    } else {
        weighted_parts(id, count - 1) + part_factor(count - 1) * id_part(id, count - 1)
    }
}

/// The weighted sum of the first parts of an ID is the ID with the
/// remaining parts cleared.
proof fn lemma_weighted_parts(id: int, count: int)
    requires
        0 <= id < ID_LIMIT,
        1 <= count <= 11,
    ensures
        weighted_parts(id, count) == part_factor(count - 1) * (id / part_factor(count - 1)),
    decreases count,
{
    let c = count - 1;
    lemma_factor_chain(c);
    let f = part_factor(c);
    let s = part_size(c);
    let r = id / f;
    if count == 1 {
        assert(f == 8671297536 && s == 12);
        assert(r == id / 8671297536);
        assert(id_part(id, 0) == r % 12);
        assert(weighted_parts(id, 0) == 0);
    } else {
        lemma_weighted_parts(id, count - 1);
        lemma_factor_chain(c - 1);
        lemma_div_denominator(id, f, s);
        lemma_fundamental_div_mod(r, s);
        let h = r / s;
        let d = r % s;
        assert(f * s * h + f * d == f * r) by (nonlinear_arith)
            requires
                r == s * h + d,
        ;
    }
}

/// The stored parts of what an ID decodes to are the parts of the ID.
proof fn lemma_encode_decoded_pieces(id: int, count: int)
    requires
        0 <= id < ID_LIMIT,
        0 <= count <= 10,
    ensures
        encode_pieces(decode(id).progress, count) == weighted_parts(id, count),
    decreases count,
{
    if count > 0 {
        lemma_encode_decoded_pieces(id, count - 1);
        let k = count - 1;
        lemma_factor_chain(k);
        lemma_mod_bound(id / part_factor(k), part_size(k));
        lemma_compress_expand(k % 2, k / 2, id_part(id, k));
    }
}

/// Every ID below `ID_LIMIT` stands for a valid position, and that position
/// is encoded as the same ID.
pub proof fn lemma_decode_then_encode(id: int)
    requires
        0 <= id < ID_LIMIT,
    ensures
        decode(id).valid(),
        encode(decode(id)) == id,
{
    let position = decode(id);
    assert forall|player: int, piece: int| 0 <= player < 2 && 0 <= piece < 5 implies is_resting_position(
        first_move(player, piece),
        #[trigger] position.piece(player, piece),
    ) by {
        let k = part_index(player, piece);
        lemma_factor_chain(k);
        lemma_mod_bound(id / part_factor(k), part_size(k));
        lemma_compress_expand(player, piece, id_part(id, k));
    }
    lemma_factor_chain(10);
    lemma_mod_bound(id, 2);
    lemma_encode_decoded_pieces(id, 10);
    lemma_weighted_parts(id, 11);
    assert(weighted_parts(id, 11) == weighted_parts(id, 10) + 1 * id_part(id, 10));
    assert(weighted_parts(id, 11) == 1 * (id / 1));
}

/// The sum over the first `count` pieces of a valid position is an ID below
/// `ID_LIMIT` whose first `count` parts store those pieces and whose other
/// parts are 0.
proof fn lemma_encoded_parts(position: Position, count: int)
    requires
        position.valid(),
        0 <= count <= 10,
    ensures
        0 <= encode_pieces(position.progress, count) < ID_LIMIT,
        forall|k: int|
            0 <= k < 11 ==> #[trigger] id_part(encode_pieces(position.progress, count), k) == if k
                < count {
                compress(first_move(k % 2, k / 2), position.progress[k])
            } else {
                0
            },
    decreases count,
{
    if count <= 0 {
        assert forall|k: int| 0 <= k < 11 implies #[trigger] id_part(0, k) == 0 by {
            lemma_zero_parts(k);
        }
    } else {
        let c = count - 1;
        let before = encode_pieces(position.progress, c);
        let stored = compress(first_move(c % 2, c / 2), position.progress[c]);
        lemma_encoded_parts(position, c);
        assert(position.progress[c] == position.piece(c % 2, c / 2));
        lemma_expand_compress(c % 2, c / 2, position.progress[c]);
        lemma_with_id_part(before, c, stored);
        assert(id_part(before, c) == 0);
        assert(with_id_part(before, c, stored) == before + part_factor(c) * stored) by (nonlinear_arith)
            requires
                with_id_part(before, c, stored) == before - part_factor(c) * id_part(before, c)
                    + part_factor(c) * stored,
                id_part(before, c) == 0,
        ;
    }
}

/// Encoding a valid position gives an ID below `ID_LIMIT` that decodes to
/// the same position.
pub proof fn lemma_encode_then_decode(position: Position)
    requires
        position.valid(),
    ensures
        0 <= encode(position) < ID_LIMIT,
        decode(encode(position)) == position,
{
    let pieces = encode_pieces(position.progress, 10);
    lemma_encoded_parts(position, 10);
    lemma_factor_chain(10);
    lemma_with_id_part(pieces, 10, position.next_player);
    assert(with_id_part(pieces, 10, position.next_player) == encode(position));
    let decoded = decode(encode(position));
    assert forall|k: int| 0 <= k < 10 implies decoded.progress[k] == position.progress[k] by {
        assert(position.progress[k] == position.piece(k % 2, k / 2));
        lemma_expand_compress(k % 2, k / 2, position.progress[k]);
    }
    assert(decoded.progress =~= position.progress);
}

} // verus!
