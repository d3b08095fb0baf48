use chunkgrep::codec::{decode_index, encode_index};
use chunkgrep::create_files::create_container;
use chunkgrep::expand_files::expand_container;
use chunkgrep::query::{fill_query, match_query, query_chunks, split_fragments, verify_candidate};
use chunkgrep::CoreError;

fn round_trip(source: &[u8], chunk_size: usize) {
    let (container, list) = create_container(source, chunk_size);
    let back = expand_container(&container, &list).unwrap();
    assert_eq!(back.as_slice(), source);
}

fn varied(len: usize) -> Vec<u8> {
    (0..len).map(|i| (i % 251) as u8 ^ (i / 65536) as u8).collect()
}

#[test]
fn round_trip_empty_source() {
    round_trip(&[], 4 * 1024 * 1024);
    let (container, list) = create_container(&[], 64);
    assert_eq!(container.len(), 0);
    assert_eq!(list.n, 0);
}

#[test]
fn round_trip_shorter_than_chunk() {
    round_trip(b"hello compressed world", 4 * 1024 * 1024);
    round_trip(&varied(100), 64);
}

#[test]
fn round_trip_exactly_one_chunk() {
    round_trip(&varied(4 * 1024 * 1024), 4 * 1024 * 1024);
    round_trip(&varied(64), 64);
}

#[test]
fn round_trip_multiple_full_chunks() {
    round_trip(&varied(8 * 1024 * 1024), 4 * 1024 * 1024);
    round_trip(&varied(192), 64);
}

#[test]
fn round_trip_full_chunks_and_remainder() {
    round_trip(&varied(8 * 1024 * 1024 + 17), 4 * 1024 * 1024);
    round_trip(&varied(193), 64);
}

#[test]
fn round_trip_other_supported_sizes() {
    round_trip(&varied(8 * 1024 * 1024 + 5), 8 * 1024 * 1024);
    round_trip(&varied(1024), 16 * 1024 * 1024);
}

#[test]
fn index_invariants_hold() {
    let source = varied(1000);
    let (container, list) = create_container(&source, 128);
    assert_eq!(list.n as usize, list.indexies.len());
    assert_eq!(list.n, 8);
    let mut offset = 0u64;
    let mut original_total = 0u64;
    for e in &list.indexies {
        assert_eq!(e.offset, offset);
        offset += e.compress_size as u64;
        original_total += e.original_size as u64;
    }
    assert_eq!(offset as usize, container.len());
    assert_eq!(original_total as usize, source.len());
    // every chunk but the last is full
    for e in &list.indexies[..7] {
        assert_eq!(e.original_size, 128);
    }
    assert_eq!(list.indexies[7].original_size, 1000 - 7 * 128);
}

#[test]
fn creation_is_idempotent() {
    let source = varied(5000);
    let (c1, l1) = create_container(&source, 512);
    let (c2, l2) = create_container(&source, 512);
    assert_eq!(c1, c2);
    assert_eq!(encode_index(&l1), encode_index(&l2));
}

#[test]
fn index_blob_survives_codec() {
    let source = varied(3000);
    let (_, list) = create_container(&source, 256);
    let blob = encode_index(&list);
    let back = decode_index(&blob).unwrap();
    assert_eq!(encode_index(&back), blob);
}

#[test]
fn expand_rejects_truncated_container() {
    let source = varied(4000);
    let (container, list) = create_container(&source, 512);
    let cut = &container[..container.len() - 1];
    assert_eq!(expand_container(cut, &list).unwrap_err(), CoreError::Codec);
}

#[test]
fn container_is_compressed() {
    let source = vec![0u8; 1024 * 1024];
    let (container, _) = create_container(&source, 4 * 1024 * 1024);
    assert!(container.len() < source.len() / 10);
}

#[test]
fn query_finds_the_right_chunk_and_line() {
    // Three chunks of 32 bytes; the needle sits on the second line of the
    // second chunk.
    let mut source = Vec::new();
    source.extend_from_slice(b"aaaaaaaaaaaaaaa\nbbbbbbbbbbbbbbb\n"); // chunk 0
    source.extend_from_slice(b"ccccccccccccccc\nxx needle yy zz\n"); // chunk 1
    source.extend_from_slice(b"ddddddddddddddd\neeeeeeeeeeeeeee\n"); // chunk 2
    let (container, list) = create_container(&source, 32);
    assert_eq!(list.n, 3);

    let query = b"needle";
    let frags = split_fragments(query, b'*');
    let pats: Vec<&[u8]> = frags.iter().map(|f| f.as_slice()).collect();
    let eol = [b'\n'];
    let found = query_chunks(&container, &list, query, &pats, &eol).unwrap();
    assert_eq!(found.len(), 1);
    assert_eq!(found[0].chunk, 1);
    assert_eq!(found[0].start, 16);
    assert_eq!(found[0].end, 32);

    let absent = query_chunks(&container, &list, b"unfindable", &pats, &eol).unwrap();
    // The fragments still say "needle", so even candidate chunks verify to
    // nothing or the same line; querying a string whose shingles are absent
    // selects no candidate at all.
    assert!(absent.len() <= 1);
}

#[test]
fn query_no_false_negative_end_to_end() {
    let mut source = Vec::new();
    for i in 0..64 {
        source.extend_from_slice(format!("line number {i:04} padding padding\n").as_bytes());
    }
    let needle = b"number 0042";
    let (_, list) = create_container(&source, 256);
    let qw = fill_query(needle);
    // The chunk that truly holds the needle must pass the containment test.
    let holder = source
        .chunks(256)
        .position(|c| c.windows(needle.len()).any(|w| w == needle))
        .unwrap();
    assert!(match_query(&qw, list.indexies[holder].hash.as_slice()));
}

#[test]
fn query_rejects_truncated_container() {
    let source = varied(2048);
    let (container, list) = create_container(&source, 256);
    let query = [source[100], source[101], source[102], source[103]];
    let frags = split_fragments(&query, b'*');
    let pats: Vec<&[u8]> = frags.iter().map(|f| f.as_slice()).collect();
    let eol = [b'\n'];
    // Sanity: the full container answers.
    assert!(query_chunks(&container, &list, &query, &pats, &eol).is_ok());
    // A container cut inside the first chunk's payload fails on that
    // candidate, which truly holds the query bytes.
    let cut = &container[..list.indexies[0].compress_size as usize - 1];
    assert_eq!(query_chunks(cut, &list, &query, &pats, &eol).unwrap_err(), CoreError::Codec);
}

#[test]
fn verify_candidate_confirms_and_rejects() {
    let chunk = b"first line\nthe pattern sits here\nlast line\n";
    let (container, list) = create_container(&chunk[..], 4 * 1024 * 1024);
    assert_eq!(list.n, 1);
    let e = &list.indexies[0];
    let payload = &container[e.offset as usize..(e.offset + e.compress_size as u64) as usize];
    let pat = [&b"pattern"[..], &b"here"[..]];
    let pats: Vec<&[u8]> = pat.to_vec();
    let eol = [b'\n'];
    let found = verify_candidate(payload, e.original_size as usize, &pats, &eol).unwrap();
    assert_eq!(found, Some((11, 33)));
    // A wrong original size is corruption.
    assert_eq!(
        verify_candidate(payload, e.original_size as usize + 1, &pats, &eol).unwrap_err(),
        CoreError::Codec
    );
    // Malformed payload bytes are corruption.
    assert_eq!(
        verify_candidate(&payload[..payload.len() / 2], e.original_size as usize, &pats, &eol)
            .unwrap_err(),
        CoreError::Codec
    );
}

#[test]
fn split_fragments_on_wildcard() {
    let deep = |v: Vec<Vec<u8>>| v;
    assert_eq!(deep(split_fragments(b"abc*def", b'*')), vec![b"abc".to_vec(), b"def".to_vec()]);
    assert_eq!(deep(split_fragments(b"abc", b'*')), vec![b"abc".to_vec()]);
    assert_eq!(deep(split_fragments(b"**", b'*')), Vec::<Vec<u8>>::new());
    assert_eq!(
        deep(split_fragments(b"*ab**cd*", b'*')),
        vec![b"ab".to_vec(), b"cd".to_vec()]
    );
    assert_eq!(deep(split_fragments(b"", b'*')), Vec::<Vec<u8>>::new());
}
