use chunkgrep::codec::{decode_index, encode_index, ENTRY_BYTES};
use chunkgrep::index::{Index, ListofIndex};
use chunkgrep::CoreError;

fn sample_entry(seed: u64) -> Index {
    let mut hash = Vec::with_capacity(1024);
    for w in 0..1024u64 {
        hash.push(seed.wrapping_mul(0x9e3779b97f4a7c15).wrapping_add(w));
    }
    Index {
        offset: seed * 1000,
        compress_size: 17 + seed as u32,
        original_size: 40 + seed as u32,
        hash,
    }
}

fn assert_lists_equal(a: &ListofIndex, b: &ListofIndex) {
    assert_eq!(a.n, b.n);
    assert_eq!(a.indexies.len(), b.indexies.len());
    for (x, y) in a.indexies.iter().zip(b.indexies.iter()) {
        assert_eq!(x.offset, y.offset);
        assert_eq!(x.compress_size, y.compress_size);
        assert_eq!(x.original_size, y.original_size);
        assert_eq!(x.hash, y.hash);
    }
}

#[test]
fn codec_round_trip_empty() {
    let list = ListofIndex { n: 0, indexies: Vec::new() };
    let blob = encode_index(&list);
    assert_eq!(blob.len(), 4);
    let back = decode_index(&blob).unwrap();
    assert_lists_equal(&list, &back);
}

#[test]
fn codec_round_trip_entries() {
    let list = ListofIndex { n: 3, indexies: vec![sample_entry(0), sample_entry(1), sample_entry(2)] };
    let blob = encode_index(&list);
    assert_eq!(blob.len(), 4 + 3 * ENTRY_BYTES);
    let back = decode_index(&blob).unwrap();
    assert_lists_equal(&list, &back);
}

#[test]
fn codec_layout_is_little_endian_and_fixed() {
    let list = ListofIndex { n: 1, indexies: vec![sample_entry(1)] };
    let blob = encode_index(&list);
    // count
    assert_eq!(&blob[0..4], &[1, 0, 0, 0]);
    // offset 1000 = 0x3e8, little endian over 8 bytes
    assert_eq!(&blob[4..12], &[0xe8, 0x03, 0, 0, 0, 0, 0, 0]);
    // compressed size 18, original size 41
    assert_eq!(&blob[12..16], &[18, 0, 0, 0]);
    assert_eq!(&blob[16..20], &[41, 0, 0, 0]);
}

#[test]
fn codec_rejects_truncated_blob() {
    let list = ListofIndex { n: 2, indexies: vec![sample_entry(4), sample_entry(5)] };
    let blob = encode_index(&list);
    for cut in [0, 1, 3, 4, 5, 4 + ENTRY_BYTES, blob.len() - 1] {
        assert_eq!(decode_index(&blob[..cut]).unwrap_err(), CoreError::Format);
    }
}

#[test]
fn codec_rejects_count_without_records() {
    // A count of one, but no record bytes behind it.
    let blob = [1u8, 0, 0, 0];
    assert_eq!(decode_index(&blob).unwrap_err(), CoreError::Format);
}

#[test]
fn codec_ignores_trailing_garbage() {
    let list = ListofIndex { n: 1, indexies: vec![sample_entry(9)] };
    let mut blob = encode_index(&list);
    blob.extend_from_slice(b"trailing junk");
    let back = decode_index(&blob).unwrap();
    assert_lists_equal(&list, &back);
}
