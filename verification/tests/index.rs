use chunkgrep::index::{bitmap_get, fill_index, hash_3_to_2, Index};
use chunkgrep::query::{fill_query, match_query};

#[test]
fn hash_all_zero_input_maps_to_bucket_zero() {
    assert_eq!(hash_3_to_2(0, 0, 0), 0);
}

#[test]
fn hash_fixed_vectors() {
    // high = b1 ^ (b2 << 4), low = (b2 >> 4) ^ b3, result = (high << 8) | low
    // in 16-bit width, the left shift dropping overflowing bits.
    assert_eq!(hash_3_to_2(1, 2, 3), 0x2103);
    assert_eq!(hash_3_to_2(0xff, 0xff, 0xff), 0x0ff0);
    assert_eq!(hash_3_to_2(0, 0, 1), 0x0001);
    assert_eq!(hash_3_to_2(1, 0, 0), 0x0100);
    assert_eq!(hash_3_to_2(0, 1, 0), 0x1000);
    assert_eq!(hash_3_to_2(0, 0x10, 0), 0x0001);
}

#[test]
fn hash_is_deterministic() {
    for t in [(3u8, 141u8, 59u8), (200, 1, 255), (17, 17, 17)] {
        assert_eq!(hash_3_to_2(t.0, t.1, t.2), hash_3_to_2(t.0, t.1, t.2));
    }
}

#[test]
fn fill_index_packs_bucket_k_at_bit_k() {
    let mut v = vec![false; 65536];
    v[0] = true;
    v[65] = true;
    v[65535] = true;
    let mut e = Index { offset: 7, compress_size: 8, original_size: 9, hash: Vec::new() };
    fill_index(&mut e, &v);
    assert_eq!(e.offset, 7);
    assert_eq!(e.compress_size, 8);
    assert_eq!(e.original_size, 9);
    assert_eq!(e.hash.len(), 1024);
    assert_eq!(e.hash[0], 1);
    assert_eq!(e.hash[1], 2);
    assert_eq!(e.hash[1023], 1u64 << 63);
    for w in 2..1023 {
        assert_eq!(e.hash[w], 0);
    }
}

#[test]
fn unpacking_inverts_packing() {
    let mut v = vec![false; 65536];
    for k in [0usize, 1, 63, 64, 100, 4097, 65535] {
        v[k] = true;
    }
    let mut e = Index { offset: 0, compress_size: 0, original_size: 0, hash: Vec::new() };
    fill_index(&mut e, &v);
    for k in 0..65536usize {
        assert_eq!(bitmap_get(&e.hash, k as u16), v[k]);
    }
}

#[test]
fn fill_query_sets_exactly_the_window_buckets() {
    let q = b"abc";
    let words = fill_query(&q[..]);
    assert_eq!(words.len(), 1024);
    let k = hash_3_to_2(b'a', b'b', b'c') as usize;
    let mut set_bits = 0u32;
    for w in 0..1024 {
        set_bits += words[w].count_ones();
    }
    assert_eq!(set_bits, 1);
    assert_eq!((words[k / 64] >> (k % 64)) & 1, 1);
}

#[test]
fn fill_query_short_string_sets_nothing() {
    let words = fill_query(&b"ab"[..]);
    assert!(words.iter().all(|w| *w == 0));
    let words = fill_query(&b""[..]);
    assert!(words.iter().all(|w| *w == 0));
}

#[test]
fn match_query_containment() {
    let mut q = vec![0u64; 1024];
    let mut ix = vec![0u64; 1024];
    // Zero query words are wildcards: everything is a candidate.
    assert!(match_query(&q, &ix));
    q[3] = 0b101;
    ix[3] = 0b111;
    assert!(match_query(&q, &ix));
    ix[3] = 0b011;
    assert!(!match_query(&q, &ix));
    ix[3] = 0b101;
    assert!(match_query(&q, &ix));
    q[1000] = 1 << 63;
    assert!(!match_query(&q, &ix));
    ix[1000] = u64::MAX;
    assert!(match_query(&q, &ix));
}

#[test]
fn query_bitmap_contained_in_chunk_bitmap_when_substring() {
    // Build both bitmaps the way the engine does and check the
    // containment test passes whenever the chunk contains the query.
    let chunk = b"the quick brown fox jumps over the lazy dog";
    let query = b"brown fox";
    let qw = fill_query(&query[..]);
    let cw = fill_query(&chunk[..]);
    assert!(match_query(&qw, cw.as_slice()));
}
