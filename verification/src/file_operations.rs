//! The chunked bit-set layout in which sets of state IDs are stored: one
//! chunk of bytes for each run of `CHUNK_SIZE_BITS` IDs that holds a member,
//! with the zero bytes at its end cut off.

use crate::text::{decimal, push_decimal};
use crate::ordered::treemap_next_value;
use crate::treemap::members;
use roaring::RoaringTreemap;
use vstd::prelude::*;

verus! {

/// Largest number of bytes in a chunk.
pub const CHUNK_SIZE_BYTES: usize = 1048576;

/// Number of state IDs that a chunk covers.
pub const CHUNK_SIZE_BITS: u64 = 8388608;

/// Number of the chunk that covers the largest state ID.
pub const LAST_CHUNK: u64 = 2199023255551;

/// A run of the bit-set: the bits of the state IDs from
/// `id * CHUNK_SIZE_BITS` on, eight to a byte, lowest bit first.
pub struct Chunk {
    pub id: u64,
    pub bytes: Vec<u8>,
}

/// Number of the chunk that covers `state_id`.
pub open spec fn chunk_of(state_id: u64) -> u64 {
    state_id / CHUNK_SIZE_BITS
}

/// Place of the bit of `state_id` in its chunk.
pub open spec fn bit_of(state_id: u64) -> int {
    (state_id % CHUNK_SIZE_BITS) as int
}

/// The state ID whose bit is at place `bit` of the chunk `chunk_id`.
pub open spec fn state_at(chunk_id: u64, bit: int) -> int {
    chunk_id * CHUNK_SIZE_BITS + bit
}

/// Is the bit at `position` of `byte` set?
pub open spec fn byte_bit(byte: u8, position: u8) -> bool {
    (byte >> position) & 1 == 1
}

/// Is the bit at place `bit` of the chunk set? The bytes that a chunk does
/// not hold are zero.
pub open spec fn stored_bit(bytes: Seq<u8>, bit: int) -> bool {
    0 <= bit / 8 < bytes.len() && byte_bit(bytes[bit / 8], (bit % 8) as u8)
}

/// `bytes` is the chunk `chunk_id` of the set: it is not empty, it does not
/// end in a zero byte, and its bits are set for the members of the set.
pub open spec fn is_chunk_of(states: Set<u64>, chunk_id: u64, bytes: Seq<u8>) -> bool {
    &&& chunk_id <= LAST_CHUNK
    &&& 0 < bytes.len() <= CHUNK_SIZE_BYTES
    &&& bytes.last() != 0
    &&& forall|bit: int|
        0 <= bit < CHUNK_SIZE_BITS ==> (#[trigger] stored_bit(bytes, bit) <==> states.contains(
            state_at(chunk_id, bit) as u64,
        ))
}

/// `chunks` are the chunks of the set, in ascending order: one for each
/// run of IDs that holds a member, and no other.
pub open spec fn is_archive_of(states: Set<u64>, chunks: Seq<Chunk>) -> bool {
    &&& forall|i: int|
        0 <= i < chunks.len() ==> is_chunk_of(states, (#[trigger] chunks[i]).id, chunks[i].bytes@)
    &&& forall|i: int, j: int|
        0 <= i < j < chunks.len() ==> (#[trigger] chunks[i]).id < (#[trigger] chunks[j]).id
    &&& forall|state_id: u64|
        states.contains(state_id) ==> exists|i: int|
            0 <= i < chunks.len() && (#[trigger] chunks[i]).id == chunk_of(state_id)
}

/// The bytes of the first chunk with this number, if there is one.
pub open spec fn find_chunk(chunks: Seq<Chunk>, chunk_id: u64) -> Option<Seq<u8>>
    decreases chunks.len(),
{
    if chunks.len() == 0 {
        None
    } else if chunks[0].id == chunk_id {
        Some(chunks[0].bytes@)
    } else {
        find_chunk(chunks.drop_first(), chunk_id)
    }
}

/// The bit of `state_id` as the chunks store it: unset where the chunk is
/// missing.
pub open spec fn stored_value(chunks: Seq<Chunk>, state_id: u64) -> bool {
    match find_chunk(chunks, chunk_of(state_id)) {
        Some(bytes) => stored_bit(bytes, bit_of(state_id)),
        None => false,
    }
}

/// Setting one bit of a byte sets that bit and leaves the others.
proof fn lemma_set_bit(byte: u8, position: u8, other: u8)
    requires
        position < 8,
        other < 8,
    ensures
        byte_bit(byte | (1u8 << position), other) == (other == position || byte_bit(byte, other)),
        byte | (1u8 << position) != 0,
        !byte_bit(0, other),
{
    assert(((byte | (1u8 << position)) >> other) & 1 == 1 <==> (other == position || (byte
        >> other) & 1 == 1)) by (bit_vector)
        requires
            position < 8,
            other < 8,
    ;
    assert(byte | (1u8 << position) != 0) by (bit_vector)
        requires
            position < 8,
    ;
    assert((0u8 >> other) & 1 != 1) by (bit_vector);
}

/// Return the number of the chunk that holds the bit of `state_id`
pub fn chunk_id_of(state_id: u64) -> (chunk_id: u64)
    ensures
        chunk_id == chunk_of(state_id),
        chunk_id <= LAST_CHUNK,
{
    state_id / CHUNK_SIZE_BITS
}

/// Return the first state ID after the chunk `chunk_id`, where the search
/// for the chunk after it starts
///
/// There is none after the last chunk.
pub fn next_chunk_start(chunk_id: u64) -> (from: Option<u64>)
    ensures
        from == if chunk_id >= LAST_CHUNK {
            None
        } else {
            Some(((chunk_id + 1) * CHUNK_SIZE_BITS) as u64)
        },
        from matches Some(state_id) ==> chunk_of(state_id) == chunk_id + 1 && bit_of(state_id)
            == 0,
{
    if chunk_id >= LAST_CHUNK {
        None
    } else {
        Some((chunk_id + 1) * CHUNK_SIZE_BITS)
    }
}

/// Return the name under which the chunk `chunk_id` is stored
pub fn chunk_name(chunk_id: u64) -> (name: String)
    ensures
        name@ == "chunk"@ + decimal(chunk_id as nat),
{
    let mut name: String = String::from_str("chunk");
    push_decimal(&mut name, chunk_id);
    name
}

/// Return the value of bit `state_id` from the bytes of its chunk
pub fn read_chunk_bit(chunk: &[u8], state_id: u64) -> (value: bool)
    ensures
        value == stored_bit(chunk@, bit_of(state_id)),
{
    let bit_index: u64 = state_id % CHUNK_SIZE_BITS;
    let byte_index: u64 = bit_index / 8;

    if byte_index >= chunk.len() as u64 {
        // `byte_index` is part of (removed) 0s at the end of the chunk.
        return false;
    }
    // Return the value of the bit `bit_index` from the chunk.
    let byte: u8 = chunk[byte_index as usize];
    (byte >> ((bit_index % 8) as u8)) & 1 == 1
}

/// Return the value of bit `state_id` from the chunked bit-set `chunks`
pub fn read_state_value(chunks: &[Chunk], state_id: u64) -> (value: bool)
    ensures
        value == stored_value(chunks@, state_id),
{
    let chunk_id: u64 = chunk_id_of(state_id);
    let mut index: usize = 0;

    proof {
        assert(chunks@.skip(0) =~= chunks@);
    }
    // Look for the chunk `chunk_id`.
    while index < chunks.len()
        invariant
            index <= chunks.len(),
            chunk_id == chunk_of(state_id),
            find_chunk(chunks@, chunk_id) == find_chunk(chunks@.skip(index as int), chunk_id),
        decreases chunks.len() - index,
    {
        if chunks[index].id == chunk_id {
            proof {
                assert(chunks@.skip(index as int)[0] == chunks@[index as int]);
            }
            return read_chunk_bit(chunks[index].bytes.as_slice(), state_id);
        }
        proof {
            assert(chunks@.skip(index as int)[0] == chunks@[index as int]);
            assert(chunks@.skip(index as int).drop_first() =~= chunks@.skip(index as int + 1));
        }
        index += 1;
    }
    // The chunk is absent when it's only made of 0s.
    false
}

/// Return the first chunk of `states` that covers a member of at least `from`
///
/// The chunk holds the bits of all the members that it covers. There is
/// none when no member is that large.
pub fn next_chunk(states: &RoaringTreemap, from: u64) -> (chunk: Option<Chunk>)
    ensures
        match chunk {
            Some(chunk) => {
                &&& is_chunk_of(members(*states), chunk.id, chunk.bytes@)
                &&& exists|state_id: u64|
                    members(*states).contains(state_id) && from <= state_id && #[trigger] chunk_of(
                        state_id,
                    ) == chunk.id
                &&& forall|state_id: u64|
                    members(*states).contains(state_id) && from <= state_id ==> chunk.id
                        <= chunk_of(state_id)
            },
            None => forall|state_id: u64| members(*states).contains(state_id) ==> state_id < from,
        },
{
    let first: u64 = match treemap_next_value(states, from) {
        Some(state_id) => state_id,
        None => {
            return None;
        },
    };
    let chunk_id: u64 = first / CHUNK_SIZE_BITS;
    let start: u64 = chunk_id * CHUNK_SIZE_BITS;
    let mut chunk_buffer: Vec<u8> = Vec::with_capacity(CHUNK_SIZE_BYTES);
    let mut next: Option<u64> = treemap_next_value(states, start);
    let ghost mut done: int = 0;

    loop
        invariant
            chunk_id <= LAST_CHUNK,
            start == chunk_id * CHUNK_SIZE_BITS,
            0 <= done <= CHUNK_SIZE_BITS,
            chunk_buffer.len() * 8 <= done + 7,
            chunk_buffer.len() > 0 ==> chunk_buffer@.last() != 0,
            forall|bit: int|
                0 <= bit < CHUNK_SIZE_BITS ==> (#[trigger] stored_bit(chunk_buffer@, bit) <==> bit
                    < done && members(*states).contains(state_at(chunk_id, bit) as u64)),
            match next {
                Some(state_id) => {
                    &&& members(*states).contains(state_id)
                    &&& start + done <= state_id
                    &&& forall|other: u64|
                        members(*states).contains(other) && start + done <= other ==> state_id
                            <= other
                },
                None => forall|other: u64| members(*states).contains(other) ==> other < start + done,
            },
        ensures
            chunk_buffer.len() <= CHUNK_SIZE_BYTES,
            chunk_buffer.len() > 0 ==> chunk_buffer@.last() != 0,
            forall|bit: int|
                0 <= bit < CHUNK_SIZE_BITS ==> (#[trigger] stored_bit(chunk_buffer@, bit)
                    <==> members(*states).contains(state_at(chunk_id, bit) as u64)),
        decreases CHUNK_SIZE_BITS - done,
    {
        if next.is_none() {
            break ;
        }
        let state_id: u64 = next.unwrap();
        if state_id / CHUNK_SIZE_BITS != chunk_id {
            break ;
        }
        let bit_index: u64 = state_id % CHUNK_SIZE_BITS;
        let byte_index: usize = (bit_index / 8) as usize;
        let position: u8 = (bit_index % 8) as u8;
        let ghost before = chunk_buffer@;

        if byte_index >= chunk_buffer.len() {
            // Grow `chunk_buffer` when necessary.
            chunk_buffer.resize(byte_index + 1, 0);
        }
        let ghost grown = chunk_buffer@;

        // Write 1 to bit `bit_index`.
        let byte: u8 = chunk_buffer[byte_index];
        chunk_buffer.set(byte_index, byte | (1u8 << position));
        proof {
            assert(byte_index == before.len() - 1 || byte_index >= before.len());
            assert forall|bit: int| 0 <= bit < CHUNK_SIZE_BITS implies (#[trigger] stored_bit(
                chunk_buffer@,
                bit,
            ) <==> bit < bit_index + 1 && members(*states).contains(
                state_at(chunk_id, bit) as u64,
            )) by {
                lemma_set_bit(byte, position, (bit % 8) as u8);
                if bit / 8 < before.len() {
                    assert(grown[bit / 8] == before[bit / 8]) by {
                        if byte_index >= before.len() {
                            assert(grown.subrange(0, before.len() as int)[bit / 8] == grown[bit
                                / 8]);
                        }
                    }
                } else if bit / 8 < grown.len() {
                    assert(grown[bit / 8] == 0);
                }
                if done <= bit && bit < bit_index {
                    assert(!members(*states).contains(state_at(chunk_id, bit) as u64));
                }
                assert(stored_bit(before, bit) <==> bit < done && members(*states).contains(
                    state_at(chunk_id, bit) as u64,
                ));
            }
            lemma_set_bit(byte, position, 0);
            done = bit_index as int + 1;
        }
        if state_id == u64::MAX {
            next = None;
        } else {
            next = treemap_next_value(states, state_id + 1);
        }
    }
    proof {
        let bit = first - start;
        assert(state_at(chunk_id, bit) as u64 == first);
        assert(stored_bit(chunk_buffer@, bit));
        assert(chunk_of(first) == chunk_id);
    }
    Some(Chunk { id: chunk_id, bytes: chunk_buffer })
}

/// Store `states` as a chunked bit-set
pub fn write_states(states: &RoaringTreemap) -> (chunks: Vec<Chunk>)
    ensures
        is_archive_of(members(*states), chunks@),
{
    let mut chunks: Vec<Chunk> = Vec::new();
    let mut from: u64 = 0;

    loop
        invariant_except_break
            from % CHUNK_SIZE_BITS == 0,
            forall|i: int|
                0 <= i < chunks.len() ==> is_chunk_of(
                    members(*states),
                    (#[trigger] chunks[i]).id,
                    chunks[i].bytes@,
                ) && chunks[i].id < from / CHUNK_SIZE_BITS,
            forall|i: int, j: int|
                0 <= i < j < chunks.len() ==> (#[trigger] chunks[i]).id < (#[trigger] chunks[j]).id,
            forall|state_id: u64|
                members(*states).contains(state_id) && state_id < from ==> exists|i: int|
                    0 <= i < chunks.len() && (#[trigger] chunks[i]).id == chunk_of(state_id),
        ensures
            is_archive_of(members(*states), chunks@),
        decreases LAST_CHUNK + 1 - from / CHUNK_SIZE_BITS,
    {
        let ghost before = chunks@;
        let next: Option<Chunk> = next_chunk(states, from);
        if next.is_none() {
            break ;
        }
        let chunk: Chunk = next.unwrap();
        let chunk_id: u64 = chunk.id;
        chunks.push(chunk);
        proof {
            assert(from / CHUNK_SIZE_BITS <= chunk_id) by {
                let state_id = choose|state_id: u64|
                    members(*states).contains(state_id) && from <= state_id && #[trigger] chunk_of(
                        state_id,
                    ) == chunk_id;
            }
            assert forall|i: int| 0 <= i < chunks.len() implies is_chunk_of(
                members(*states),
                (#[trigger] chunks[i]).id,
                chunks[i].bytes@,
            ) && chunks[i].id <= chunk_id by {
                if i < before.len() {
                    assert(chunks[i] == before[i]);
                }
            }
            assert forall|i: int, j: int| 0 <= i < j < chunks.len() implies (#[trigger] chunks[i]).id
                < (#[trigger] chunks[j]).id by {
                assert(chunks[i] == before[i]);
                if j < before.len() {
                    assert(chunks[j] == before[j]);
                }
            }
            assert forall|state_id: u64|
                members(*states).contains(state_id) && chunk_of(state_id)
                    <= chunk_id implies exists|i: int|
                0 <= i < chunks.len() && (#[trigger] chunks[i]).id == chunk_of(state_id) by {
                if state_id < from {
                    let i = choose|i: int|
                        0 <= i < before.len() && (#[trigger] before[i]).id == chunk_of(state_id);
                    assert(chunks[i].id == chunk_of(state_id));
                } else {
                    assert(chunks[chunks.len() - 1].id == chunk_of(state_id));
                }
            }
        }
        let start: Option<u64> = next_chunk_start(chunk_id);
        if start.is_none() {
            break ;
        }
        from = start.unwrap();
    }
    chunks
}

/// A chunk that the list holds is the one that is found under its number,
/// as no two chunks of an archive share a number.
proof fn lemma_find_chunk(chunks: Seq<Chunk>, chunk_id: u64)
    requires
        forall|i: int, j: int|
            0 <= i < j < chunks.len() ==> (#[trigger] chunks[i]).id < (#[trigger] chunks[j]).id,
    ensures
        match find_chunk(chunks, chunk_id) {
            Some(bytes) => exists|i: int|
                0 <= i < chunks.len() && (#[trigger] chunks[i]).id == chunk_id && chunks[i].bytes@
                    == bytes,
            None => forall|i: int| 0 <= i < chunks.len() ==> (#[trigger] chunks[i]).id != chunk_id,
        },
    decreases chunks.len(),
{
    if chunks.len() > 0 && chunks[0].id != chunk_id {
        let rest = chunks.drop_first();
        assert forall|i: int, j: int| 0 <= i < j < rest.len() implies (#[trigger] rest[i]).id < (
        #[trigger] rest[j]).id by {
            assert(rest[i] == chunks[i + 1] && rest[j] == chunks[j + 1]);
        }
        lemma_find_chunk(rest, chunk_id);
        match find_chunk(rest, chunk_id) {
            Some(bytes) => {
                let i = choose|i: int|
                    0 <= i < rest.len() && (#[trigger] rest[i]).id == chunk_id && rest[i].bytes@
                        == bytes;
                assert(chunks[i + 1] == rest[i]);
            },
            None => {
                assert forall|i: int| 0 <= i < chunks.len() implies (#[trigger] chunks[i]).id
                    != chunk_id by {
                    if i > 0 {
                        assert(rest[i - 1] == chunks[i]);
                    }
                }
            },
        }
    }
}

/// Reading a bit from the chunks of a set tells whether the ID is a member
/// of the set.
pub proof fn lemma_read_what_was_written(states: Set<u64>, chunks: Seq<Chunk>, state_id: u64)
    requires
        is_archive_of(states, chunks),
    ensures
        stored_value(chunks, state_id) == states.contains(state_id),
{
    let chunk_id = chunk_of(state_id);
    lemma_find_chunk(chunks, chunk_id);
    assert(state_at(chunk_id, bit_of(state_id)) as u64 == state_id);
    match find_chunk(chunks, chunk_id) {
        Some(bytes) => {
            let i = choose|i: int|
                0 <= i < chunks.len() && (#[trigger] chunks[i]).id == chunk_id && chunks[i].bytes@
                    == bytes;
            assert(is_chunk_of(states, chunks[i].id, chunks[i].bytes@));
        },
        None => {},
    }
}

/// A byte that is not zero has a bit that is set.
proof fn lemma_some_bit(byte: u8) -> (position: u8)
    requires
        byte != 0,
    ensures
        position < 8,
        byte_bit(byte, position),
{
    assert((byte >> 0u8) & 1 == 1 || (byte >> 1u8) & 1 == 1 || (byte >> 2u8) & 1 == 1 || (byte
        >> 3u8) & 1 == 1 || (byte >> 4u8) & 1 == 1 || (byte >> 5u8) & 1 == 1 || (byte >> 6u8) & 1
        == 1 || (byte >> 7u8) & 1 == 1) by (bit_vector)
        requires
            byte != 0,
    ;
    if byte_bit(byte, 0) {
        0
    } else if byte_bit(byte, 1) {
        1
    } else if byte_bit(byte, 2) {
        2
    } else if byte_bit(byte, 3) {
        3
    } else if byte_bit(byte, 4) {
        4
    } else if byte_bit(byte, 5) {
        5
    } else if byte_bit(byte, 6) {
        6
    } else {
        7
    }
}

/// Some member of the set is covered by the chunk with this number.
pub open spec fn covers_member(states: Set<u64>, chunk_id: u64) -> bool {
    exists|state_id: u64| states.contains(state_id) && #[trigger] chunk_of(state_id) == chunk_id
}

/// The chunks of a set are numbered as the runs of IDs that hold a member:
/// no chunk is stored for a run without one.
pub proof fn lemma_chunks_hold_members(states: Set<u64>, chunks: Seq<Chunk>)
    requires
        is_archive_of(states, chunks),
    ensures
        forall|i: int| 0 <= i < chunks.len() ==> covers_member(states, (#[trigger] chunks[i]).id),
{
    assert forall|i: int| 0 <= i < chunks.len() implies covers_member(
        states,
        (#[trigger] chunks[i]).id,
    ) by {
        let bytes = chunks[i].bytes@;
        assert(is_chunk_of(states, chunks[i].id, bytes));
        let position = lemma_some_bit(bytes.last());
        let bit = (bytes.len() - 1) * 8 + position;
        assert(stored_bit(bytes, bit));
        let state_id = state_at(chunks[i].id, bit) as u64;
        assert(states.contains(state_id));
        assert(chunk_of(state_id) == chunks[i].id);
    }
}

/// An empty set is stored without any chunk.
pub proof fn lemma_no_chunk(chunks: Seq<Chunk>)
    requires
        is_archive_of(Set::<u64>::empty(), chunks),
    ensures
        chunks.len() == 0,
{
    lemma_chunks_hold_members(Set::<u64>::empty(), chunks);
    if chunks.len() > 0 {
        assert(covers_member(Set::<u64>::empty(), chunks[0].id));
    }
}

/// A set of one ID is stored as one chunk: the one that covers the ID.
pub proof fn lemma_one_chunk(state_id: u64, chunks: Seq<Chunk>)
    requires
        is_archive_of(set![state_id], chunks),
    ensures
        chunks.len() == 1,
        chunks[0].id == chunk_of(state_id),
{
    let states = set![state_id];
    lemma_chunks_hold_members(states, chunks);
    assert(states.contains(state_id));
    assert forall|j: int| 0 <= j < chunks.len() implies (#[trigger] chunks[j]).id == chunk_of(
        state_id,
    ) by {
        assert(covers_member(states, chunks[j].id));
    }
    if chunks.len() > 1 {
        assert(chunks[0].id < chunks[1].id);
    }
}

} // verus!
