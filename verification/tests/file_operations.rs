use roaring::RoaringTreemap;
use squadro::file_operations::{
    chunk_id_of, chunk_name, next_chunk, next_chunk_start, read_chunk_bit, read_state_value,
    write_states, Chunk, CHUNK_SIZE_BITS, CHUNK_SIZE_BYTES, LAST_CHUNK,
};
use std::io::{Cursor, Read, Write};

#[test]
fn state_from_zip() {
    assert_eq!(chunk_name(17), "chunk17");
    assert_eq!(chunk_name(0), "chunk0");

    let chunks = vec![
        Chunk {
            id: 17,
            bytes: vec![0b10000000, 0b00000000, 0b00000000, 0b00000001],
        },
        Chunk {
            id: 0,
            bytes: vec![0b00000000, 0b00000000, 0b11111111, 0b00001000],
        },
    ];

    let at_max_100_bits = std::cmp::min(100, CHUNK_SIZE_BITS);
    for chunk_id in 0..=25 {
        let chunk_start_bit = chunk_id * CHUNK_SIZE_BITS;
        let chunk_end_bit = (chunk_id + 1) * CHUNK_SIZE_BITS;
        for i in (chunk_start_bit..=chunk_start_bit + at_max_100_bits)
            .chain(chunk_end_bit - at_max_100_bits..chunk_end_bit)
        {
            assert_eq!(
                read_state_value(&chunks, i),
                (i == 17 * CHUNK_SIZE_BITS + 7)
                    || (i == 17 * CHUNK_SIZE_BITS + 24)
                    || (i == 27)
                    || (16..24).contains(&i)
            );
        }
    }
}

#[test]
fn states_to_zip() {
    let mut states = {
        let mut marked_ids = [
            3,
            14,
            1592653589793238462u64,
            33 * CHUNK_SIZE_BITS + 8,
            327 * CHUNK_SIZE_BITS - 95,
        ];
        marked_ids.sort();
        RoaringTreemap::from_sorted_iter(marked_ids).unwrap()
    };

    // Store the chunks the way the files are written, one entry for each.
    let mut writer = zip::ZipWriter::new(Cursor::new(Vec::new()));
    for chunk in write_states(&states) {
        writer
            .start_file(chunk_name(chunk.id), zip::write::SimpleFileOptions::default())
            .unwrap();
        writer.write_all(&chunk.bytes).unwrap();
    }
    let stored = writer.finish().unwrap();

    let mut archive = zip::ZipArchive::new(stored).unwrap();
    assert_eq!(archive.len(), 4);
    for i in 0..archive.len() {
        let mut file = archive.by_index(i).unwrap();
        let file_name = file.name().unwrap().to_string();
        assert!(file_name.starts_with("chunk"));
        let chunk_id = (file_name[5..]).parse::<u64>().unwrap();
        assert_eq!(chunk_name(chunk_id), file_name);
        let mut chunk_data = Vec::new();
        file.read_to_end(&mut chunk_data).unwrap();
        assert_eq!(file.size(), chunk_data.len().try_into().unwrap());

        for chunk_bit_index in 0..file.size() * 8 {
            let state_id = CHUNK_SIZE_BITS * chunk_id + chunk_bit_index;
            if read_chunk_bit(&chunk_data, state_id) {
                assert!(states.remove(state_id));
            }
        }
    }

    assert!(states.is_empty());
}

#[test]
fn states_empty_to_zip() {
    let chunks = write_states(&RoaringTreemap::new());

    assert!(chunks.is_empty());
    assert!(!read_state_value(&chunks, 0));
    assert!(!read_state_value(&chunks, 1));
    assert!(!read_state_value(&chunks, u64::MAX));
    assert!(next_chunk(&RoaringTreemap::new(), 0).is_none());
}

#[test]
fn states_unique_to_zip() {
    let chunks = write_states(&RoaringTreemap::from_sorted_iter([u64::MAX]).unwrap());

    assert_eq!(chunks.len(), 1);
    assert_eq!(chunks[0].id, LAST_CHUNK);
    assert_eq!(chunks[0].bytes.len(), CHUNK_SIZE_BYTES);
    assert!(!read_state_value(&chunks, 0));
    assert!(!read_state_value(&chunks, 1));
    assert!(!read_state_value(&chunks, u64::MAX - 1));
    assert!(read_state_value(&chunks, u64::MAX));
}

#[test]
fn written_bits_are_read_back() {
    let members = [
        0,
        7,
        8,
        CHUNK_SIZE_BITS - 1,
        CHUNK_SIZE_BITS,
        5 * CHUNK_SIZE_BITS + 1234567,
        104055570431,
    ];
    let states = RoaringTreemap::from_sorted_iter(members).unwrap();
    let chunks = write_states(&states);

    assert_eq!(
        chunks.iter().map(|chunk| chunk.id).collect::<Vec<u64>>(),
        vec![0, 1, 5, 12404]
    );
    assert_eq!(chunks[0].bytes.len(), 1048576);
    assert_eq!(chunks[0].bytes[0], 0b10000001);
    assert_eq!(chunks[0].bytes[1], 0b00000001);
    assert_eq!(chunks[1].bytes, vec![1]);
    for chunk in &chunks {
        assert_ne!(*chunk.bytes.last().unwrap(), 0);
    }
    for id in members {
        assert!(read_state_value(&chunks, id));
        for other in [id.wrapping_sub(1), id + 1] {
            assert_eq!(read_state_value(&chunks, other), states.contains(other));
        }
    }
}

#[test]
fn chunks_one_at_a_time() {
    let states =
        RoaringTreemap::from_sorted_iter([3, 2 * CHUNK_SIZE_BITS + 9, 2 * CHUNK_SIZE_BITS + 10])
            .unwrap();

    let first = next_chunk(&states, 0).unwrap();
    assert_eq!((first.id, first.bytes), (0, vec![0b00001000]));

    // A chunk holds all its bits, wherever in it the search starts.
    let second = next_chunk(&states, 2 * CHUNK_SIZE_BITS + 10).unwrap();
    assert_eq!((second.id, second.bytes), (2, vec![0, 0b00000110]));
    assert_eq!(next_chunk(&states, 4).unwrap().id, 2);

    assert!(next_chunk(&states, 3 * CHUNK_SIZE_BITS).is_none());
}

#[test]
fn chunk_names_and_numbers() {
    assert_eq!(chunk_id_of(0), 0);
    assert_eq!(chunk_id_of(8388607), 0);
    assert_eq!(chunk_id_of(8388608), 1);
    assert_eq!(chunk_id_of(u64::MAX), 2199023255551);
    assert_eq!(chunk_name(9), "chunk9");
    assert_eq!(chunk_name(10), "chunk10");
    assert_eq!(chunk_name(12404), "chunk12404");
    assert_eq!(chunk_name(2199023255551), "chunk2199023255551");
}

#[test]
fn search_goes_on_after_a_chunk() {
    assert_eq!(next_chunk_start(0), Some(8388608));
    assert_eq!(next_chunk_start(1), Some(16777216));
    assert_eq!(next_chunk_start(12404), Some(12405 * 8388608));
    assert_eq!(next_chunk_start(LAST_CHUNK - 1), Some(u64::MAX - 8388607));
    assert_eq!(next_chunk_start(LAST_CHUNK), None);
    assert_eq!(next_chunk_start(u64::MAX), None);

    // Going from chunk to chunk this way finds each chunk once.
    let members = [5, CHUNK_SIZE_BITS, 9 * CHUNK_SIZE_BITS + 3, u64::MAX - 1, u64::MAX];
    let states = RoaringTreemap::from_sorted_iter(members).unwrap();
    let mut found = Vec::new();
    let mut from = Some(0);
    while let Some(state_id) = from {
        from = match next_chunk(&states, state_id) {
            Some(chunk) => {
                found.push(chunk.id);
                next_chunk_start(chunk.id)
            }
            None => None,
        };
    }
    assert_eq!(found, vec![0, 1, 9, LAST_CHUNK]);
    assert_eq!(
        found,
        write_states(&states).iter().map(|chunk| chunk.id).collect::<Vec<u64>>()
    );
}
