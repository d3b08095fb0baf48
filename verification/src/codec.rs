//! The binary index blob: a fixed-layout, little-endian codec.
//!
//! Layout: a 4-byte record count, then one fixed-size record per chunk —
//! 8 bytes of container offset, 4 bytes of compressed size, 4 bytes of
//! original size, and the 8192-byte packed bitmap as 1024 little-endian
//! words. Byte order and field placement are explicit; nothing depends on
//! platform memory layout. Decoding rejects a truncated blob with a
//! `Format` error and ignores trailing bytes beyond the counted records;
//! encode and decode are exact inverses, see
//! [`lemma_index_codec_round_trip`].

use vstd::prelude::*;

use crate::index::{Index, IndexV, ListV, ListofIndex};
use crate::CoreError;

verus! {

/// Size in bytes of one encoded index record.
pub const ENTRY_BYTES: usize = 8208;

/// The 4 little-endian bytes of `x`.
pub open spec fn spec_le_u32(x: u32) -> Seq<u8> {
    seq![
        (x & 0xff) as u8,
        ((x >> 8) & 0xff) as u8,
        ((x >> 16) & 0xff) as u8,
        ((x >> 24) & 0xff) as u8,
    ]
}

/// The 8 little-endian bytes of `x`.
pub open spec fn spec_le_u64(x: u64) -> Seq<u8> {
    seq![
        (x & 0xff) as u8,
        ((x >> 8) & 0xff) as u8,
        ((x >> 16) & 0xff) as u8,
        ((x >> 24) & 0xff) as u8,
        ((x >> 32) & 0xff) as u8,
        ((x >> 40) & 0xff) as u8,
        ((x >> 48) & 0xff) as u8,
        ((x >> 56) & 0xff) as u8,
    ]
}

/// The value of the 4 little-endian bytes of `data` at position `p`.
pub open spec fn spec_dec_u32_at(data: Seq<u8>, p: int) -> u32
    recommends
        0 <= p,
        p + 4 <= data.len(),
{
    (data[p] as u32) | ((data[p + 1] as u32) << 8) | ((data[p + 2] as u32) << 16) | ((data[p
        + 3] as u32) << 24)
}

/// The value of the 8 little-endian bytes of `data` at position `p`.
pub open spec fn spec_dec_u64_at(data: Seq<u8>, p: int) -> u64
    recommends
        0 <= p,
        p + 8 <= data.len(),
{
    (data[p] as u64) | ((data[p + 1] as u64) << 8) | ((data[p + 2] as u64) << 16) | ((data[p
        + 3] as u64) << 24) | ((data[p + 4] as u64) << 32) | ((data[p + 5] as u64) << 40) | ((
    data[p + 6] as u64) << 48) | ((data[p + 7] as u64) << 56)
}

/// Reading 4 bytes back where the little-endian bytes of `x` were laid
/// down yields `x`.
proof fn lemma_dec_at_of_le_u32(data: Seq<u8>, p: int, x: u32)
    requires
        forall|t: int| 0 <= t < 4 ==> data[p + t] == #[trigger] spec_le_u32(x)[t],
    ensures
        spec_dec_u32_at(data, p) == x,
{
    assert(data[p + 0] == spec_le_u32(x)[0]);
    assert(data[p + 1] == spec_le_u32(x)[1]);
    assert(data[p + 2] == spec_le_u32(x)[2]);
    assert(data[p + 3] == spec_le_u32(x)[3]);
    let b0 = data[p];
    let b1 = data[p + 1];
    let b2 = data[p + 2];
    let b3 = data[p + 3];
    assert((b0 as u32) | ((b1 as u32) << 8) | ((b2 as u32) << 16) | ((b3 as u32) << 24) == x)
        by (bit_vector)
        requires
            b0 == (x & 0xff) as u8,
            b1 == ((x >> 8) & 0xff) as u8,
            b2 == ((x >> 16) & 0xff) as u8,
            b3 == ((x >> 24) & 0xff) as u8,
    ;
}

/// Reading 8 bytes back where the little-endian bytes of `x` were laid
/// down yields `x`.
proof fn lemma_dec_at_of_le_u64(data: Seq<u8>, p: int, x: u64)
    requires
        forall|t: int| 0 <= t < 8 ==> data[p + t] == #[trigger] spec_le_u64(x)[t],
    ensures
        spec_dec_u64_at(data, p) == x,
{
    assert(data[p + 0] == spec_le_u64(x)[0]);
    assert(data[p + 1] == spec_le_u64(x)[1]);
    assert(data[p + 2] == spec_le_u64(x)[2]);
    assert(data[p + 3] == spec_le_u64(x)[3]);
    assert(data[p + 4] == spec_le_u64(x)[4]);
    assert(data[p + 5] == spec_le_u64(x)[5]);
    assert(data[p + 6] == spec_le_u64(x)[6]);
    assert(data[p + 7] == spec_le_u64(x)[7]);
    let b0 = data[p];
    let b1 = data[p + 1];
    let b2 = data[p + 2];
    let b3 = data[p + 3];
    let b4 = data[p + 4];
    let b5 = data[p + 5];
    let b6 = data[p + 6];
    let b7 = data[p + 7];
    assert((b0 as u64) | ((b1 as u64) << 8) | ((b2 as u64) << 16) | ((b3 as u64) << 24) | ((
    b4 as u64) << 32) | ((b5 as u64) << 40) | ((b6 as u64) << 48) | ((b7 as u64) << 56) == x)
        by (bit_vector)
        requires
            b0 == (x & 0xff) as u8,
            b1 == ((x >> 8) & 0xff) as u8,
            b2 == ((x >> 16) & 0xff) as u8,
            b3 == ((x >> 24) & 0xff) as u8,
            b4 == ((x >> 32) & 0xff) as u8,
            b5 == ((x >> 40) & 0xff) as u8,
            b6 == ((x >> 48) & 0xff) as u8,
            b7 == ((x >> 56) & 0xff) as u8,
    ;
}

/// The first `j` bitmap words, each as 8 little-endian bytes.
pub open spec fn spec_encode_words(words: Seq<u64>, j: int) -> Seq<u8>
    decreases j,
{
    if j <= 0 {
        Seq::empty()
    } else {
        spec_encode_words(words, j - 1) + spec_le_u64(words[j - 1])
    }
}

proof fn lemma_encode_words_len(words: Seq<u64>, j: int)
    requires
        0 <= j,
    ensures
        spec_encode_words(words, j).len() == 8 * j,
    decreases j,
{
    if j > 0 {
        lemma_encode_words_len(words, j - 1);
    }
}

proof fn lemma_encode_words_index(words: Seq<u64>, j: int, w: int, t: int)
    requires
        0 <= w < j,
        0 <= t < 8,
    ensures
        spec_encode_words(words, j)[8 * w + t] == spec_le_u64(words[w])[t],
    decreases j,
{
    lemma_encode_words_len(words, j);
    lemma_encode_words_len(words, j - 1);
    if w == j - 1 {
    } else {
        lemma_encode_words_index(words, j - 1, w, t);
    }
}

/// One record: offset, compressed size, original size, bitmap words.
pub open spec fn spec_encode_entry(e: IndexV) -> Seq<u8> {
    spec_le_u64(e.offset) + spec_le_u32(e.compress_size) + spec_le_u32(e.original_size)
        + spec_encode_words(e.hash, 1024)
}

proof fn lemma_encode_entry_len(e: IndexV)
    ensures
        spec_encode_entry(e).len() == 16 + spec_encode_words(e.hash, 1024).len(),
        e.wf() ==> spec_encode_entry(e).len() == ENTRY_BYTES,
{
    lemma_encode_words_len(e.hash, 1024);
}

/// The first `j` records, concatenated.
pub open spec fn spec_encode_entries(entries: Seq<IndexV>, j: int) -> Seq<u8>
    decreases j,
{
    if j <= 0 {
        Seq::empty()
    } else {
        spec_encode_entries(entries, j - 1) + spec_encode_entry(entries[j - 1])
    }
}

proof fn lemma_encode_entries_len(entries: Seq<IndexV>, j: int)
    requires
        0 <= j <= entries.len(),
        forall|i: int| 0 <= i < entries.len() ==> (#[trigger] entries[i]).wf(),
    ensures
        spec_encode_entries(entries, j).len() == (ENTRY_BYTES as int) * j,
    decreases j,
{
    if j > 0 {
        lemma_encode_entries_len(entries, j - 1);
        lemma_encode_entry_len(entries[j - 1]);
    }
}

proof fn lemma_encode_entries_index(entries: Seq<IndexV>, j: int, i: int, t: int)
    requires
        0 <= i < j <= entries.len(),
        0 <= t < ENTRY_BYTES,
        forall|x: int| 0 <= x < entries.len() ==> (#[trigger] entries[x]).wf(),
    ensures
        spec_encode_entries(entries, j)[(ENTRY_BYTES as int) * i + t] == spec_encode_entry(
            entries[i],
        )[t],
    decreases j,
{
    lemma_encode_entries_len(entries, j);
    lemma_encode_entries_len(entries, j - 1);
    lemma_encode_entry_len(entries[j - 1]);
    if i == j - 1 {
    } else {
        lemma_encode_entries_index(entries, j - 1, i, t);
    }
}

/// The whole blob: the count, then every record.
pub open spec fn spec_encode_list(l: ListV) -> Seq<u8> {
    spec_le_u32(l.n) + spec_encode_entries(l.entries, l.entries.len() as int)
}

/// The 1024 bitmap words decoded from `data` starting at `base`.
pub open spec fn spec_decode_words(data: Seq<u8>, base: int) -> Seq<u64> {
    Seq::new(1024, |w: int| spec_dec_u64_at(data, base + 8 * w))
}

/// The record decoded from `data` starting at `base`.
pub open spec fn spec_decode_entry(data: Seq<u8>, base: int) -> IndexV {
    IndexV {
        offset: spec_dec_u64_at(data, base),
        compress_size: spec_dec_u32_at(data, base + 8),
        original_size: spec_dec_u32_at(data, base + 12),
        hash: spec_decode_words(data, base + 16),
    }
}

/// The index decoded from a blob: `None` exactly when the blob is too
/// short for its own record count (or for the count itself); bytes beyond
/// the counted records are ignored.
pub open spec fn spec_decode_list(data: Seq<u8>) -> Option<ListV> {
    if data.len() < 4 {
        None
    } else {
        let n = spec_dec_u32_at(data, 0);
        if data.len() < 4 + (ENTRY_BYTES as int) * (n as int) {
            None
        } else {
            Some(
                ListV {
                    n,
                    entries: Seq::new(
                        n as nat,
                        |i: int| spec_decode_entry(data, 4 + (ENTRY_BYTES as int) * i),
                    ),
                },
            )
        }
    }
}

proof fn lemma_decode_entry_of_encode(data: Seq<u8>, base: int, e: IndexV)
    requires
        e.wf(),
        0 <= base,
        base + ENTRY_BYTES <= data.len(),
        forall|t: int|
            0 <= t < ENTRY_BYTES ==> #[trigger] data[base + t] == spec_encode_entry(e)[t],
    ensures
        spec_decode_entry(data, base) == e,
{
    let enc = spec_encode_entry(e);
    lemma_encode_words_len(e.hash, 1024);
    assert forall|t: int| 0 <= t < 8 implies data[base + t] == #[trigger] spec_le_u64(
        e.offset,
    )[t] by {
        assert(data[base + t] == enc[t]);
    }
    lemma_dec_at_of_le_u64(data, base, e.offset);
    assert forall|t: int| 0 <= t < 4 implies data[base + 8 + t] == #[trigger] spec_le_u32(
        e.compress_size,
    )[t] by {
        assert(data[base + (8 + t)] == enc[8 + t]);
        assert(data[base + 8 + t] == data[base + (8 + t)]);
    }
    lemma_dec_at_of_le_u32(data, base + 8, e.compress_size);
    assert forall|t: int| 0 <= t < 4 implies data[base + 12 + t] == #[trigger] spec_le_u32(
        e.original_size,
    )[t] by {
        assert(data[base + (12 + t)] == enc[12 + t]);
        assert(data[base + 12 + t] == data[base + (12 + t)]);
    }
    lemma_dec_at_of_le_u32(data, base + 12, e.original_size);
    assert forall|w: int| 0 <= w < 1024 implies spec_decode_words(data, base + 16)[w]
        == e.hash[w] by {
        assert forall|t: int| 0 <= t < 8 implies data[base + 16 + 8 * w + t]
            == #[trigger] spec_le_u64(e.hash[w])[t] by {
            lemma_encode_words_index(e.hash, 1024, w, t);
            assert(data[base + (16 + 8 * w + t)] == enc[16 + 8 * w + t]);
            assert(enc[16 + 8 * w + t] == spec_encode_words(e.hash, 1024)[8 * w + t]);
            assert(data[base + 16 + 8 * w + t] == data[base + (16 + 8 * w + t)]);
        }
        lemma_dec_at_of_le_u64(data, base + 16 + 8 * w, e.hash[w]);
    }
    assert(spec_decode_words(data, base + 16) =~= e.hash);
    assert(spec_decode_entry(data, base) =~= e);
}

/// Decoding inverts encoding exactly: a well-formed index written as a
/// blob reads back equal, record for record.
pub proof fn lemma_index_codec_round_trip(l: ListV)
    requires
        l.wf(),
    ensures
        spec_decode_list(spec_encode_list(l)) == Some(l),
{
    let sz = ENTRY_BYTES as int;
    let data = spec_encode_list(l);
    let m = l.entries.len() as int;
    lemma_encode_entries_len(l.entries, m);
    assert(data.len() == 4 + sz * m);
    assert forall|t: int| 0 <= t < 4 implies data[0 + t] == #[trigger] spec_le_u32(l.n)[t] by {
        assert(data[t] == spec_le_u32(l.n)[t]);
    }
    lemma_dec_at_of_le_u32(data, 0, l.n);
    let dec = spec_decode_list(data);
    assert(dec is Some);
    assert forall|i: int| 0 <= i < m implies spec_decode_entry(data, 4 + sz * i)
        == l.entries[i] by {
        lemma_encode_entry_len(l.entries[i]);
        assert forall|t: int| 0 <= t < ENTRY_BYTES implies #[trigger] data[4 + sz * i + t]
            == spec_encode_entry(l.entries[i])[t] by {
            lemma_encode_entries_index(l.entries, m, i, t);
            assert(data[4 + (sz * i + t)] == spec_encode_entries(l.entries, m)[sz * i + t]);
            assert(data[4 + sz * i + t] == data[4 + (sz * i + t)]);
        }
        lemma_decode_entry_of_encode(data, 4 + sz * i, l.entries[i]);
    }
    assert(dec->0.entries =~= l.entries);
    assert(dec->0 =~= l);
}

fn push_le_u32(out: &mut Vec<u8>, x: u32)
    ensures
        final(out)@ == old(out)@ + spec_le_u32(x),
{
    proof {
        assert(x & 0xff < 256 && (x >> 8) & 0xff < 256 && (x >> 16) & 0xff < 256 && (x >> 24)
            & 0xff < 256) by (bit_vector);
    }
    out.push((x & 0xff) as u8);
    out.push(((x >> 8) & 0xff) as u8);
    out.push(((x >> 16) & 0xff) as u8);
    out.push(((x >> 24) & 0xff) as u8);
    assert(out@ =~= old(out)@ + spec_le_u32(x));
}

fn push_le_u64(out: &mut Vec<u8>, x: u64)
    ensures
        final(out)@ == old(out)@ + spec_le_u64(x),
{
    proof {
        assert(x & 0xff < 256 && (x >> 8) & 0xff < 256 && (x >> 16) & 0xff < 256 && (x >> 24)
            & 0xff < 256 && (x >> 32) & 0xff < 256 && (x >> 40) & 0xff < 256 && (x >> 48) & 0xff
            < 256 && (x >> 56) & 0xff < 256) by (bit_vector);
    }
    out.push((x & 0xff) as u8);
    out.push(((x >> 8) & 0xff) as u8);
    out.push(((x >> 16) & 0xff) as u8);
    out.push(((x >> 24) & 0xff) as u8);
    out.push(((x >> 32) & 0xff) as u8);
    out.push(((x >> 40) & 0xff) as u8);
    out.push(((x >> 48) & 0xff) as u8);
    out.push(((x >> 56) & 0xff) as u8);
    assert(out@ =~= old(out)@ + spec_le_u64(x));
}

/// Serializes the whole index to one binary blob, in the fixed layout.
pub fn encode_index(list: &ListofIndex) -> (r: Vec<u8>)
    requires
        list@.wf(),
    ensures
        r@ == spec_encode_list(list@),
{
    let ghost lv = list@;
    let mut out: Vec<u8> = Vec::new();
    push_le_u32(&mut out, list.n);
    assert(out@ =~= spec_le_u32(lv.n) + spec_encode_entries(lv.entries, 0));
    let m = list.indexies.len();
    let mut i: usize = 0;
    while i < m
        invariant
            lv == list@,
            lv.wf(),
            m == lv.entries.len(),
            m == list.indexies@.len(),
            i <= m,
            out@ == spec_le_u32(lv.n) + spec_encode_entries(lv.entries, i as int),
        decreases m - i,
    {
        let e = &list.indexies[i];
        proof {
            assert(e@ == lv.entries[i as int]);
        }
        push_le_u64(&mut out, e.offset);
        push_le_u32(&mut out, e.compress_size);
        push_le_u32(&mut out, e.original_size);
        let ghost head = spec_le_u32(lv.n) + spec_encode_entries(lv.entries, i as int)
            + spec_le_u64(e@.offset) + spec_le_u32(e@.compress_size) + spec_le_u32(
            e@.original_size,
        );
        assert(out@ =~= head + spec_encode_words(e@.hash, 0));
        let hn = e.hash.len();
        assert(hn == 1024);
        let mut w: usize = 0;
        while w < hn
            invariant
                lv == list@,
                m == list.indexies@.len(),
                i < m,
                e == &list.indexies@[i as int],
                e@ == lv.entries[i as int],
                hn == e.hash@.len(),
                w <= hn,
                head == spec_le_u32(lv.n) + spec_encode_entries(lv.entries, i as int)
                    + spec_le_u64(e@.offset) + spec_le_u32(e@.compress_size) + spec_le_u32(
                    e@.original_size,
                ),
                out@ == head + spec_encode_words(e@.hash, w as int),
            decreases hn - w,
        {
            push_le_u64(&mut out, e.hash[w]);
            assert(out@ =~= head + spec_encode_words(e@.hash, w as int + 1));
            w += 1;
        }
        assert(out@ =~= spec_le_u32(lv.n) + spec_encode_entries(lv.entries, i as int + 1));
        i += 1;
    }
    out
}

fn read_le_u32(data: &[u8], base: usize) -> (r: u32)
    requires
        base + 4 <= data@.len(),
    ensures
        r == spec_dec_u32_at(data@, base as int),
{
    (data[base] as u32) | ((data[base + 1] as u32) << 8) | ((data[base + 2] as u32) << 16) | ((
    data[base + 3] as u32) << 24)
}

fn read_le_u64(data: &[u8], base: usize) -> (r: u64)
    requires
        base + 8 <= data@.len(),
    ensures
        r == spec_dec_u64_at(data@, base as int),
{
    (data[base] as u64) | ((data[base + 1] as u64) << 8) | ((data[base + 2] as u64) << 16) | ((
    data[base + 3] as u64) << 24) | ((data[base + 4] as u64) << 32) | ((data[base + 5] as u64)
        << 40) | ((data[base + 6] as u64) << 48) | ((data[base + 7] as u64) << 56)
}

/// Deserializes an index blob. Returns a `Format` error exactly when the
/// blob is shorter than its own record count requires; trailing bytes
/// beyond the counted records are ignored.
pub fn decode_index(data: &[u8]) -> (r: Result<ListofIndex, CoreError>)
    ensures
        r is Ok <==> spec_decode_list(data@) is Some,
        r is Ok ==> r->Ok_0@ == spec_decode_list(data@)->0 && r->Ok_0@.wf(),
        r is Err ==> r->Err_0 == CoreError::Format,
{
    if data.len() < 4 {
        return Err(CoreError::Format);
    }
    let n = read_le_u32(data, 0);
    let need: u64 = 4u64 + (ENTRY_BYTES as u64) * (n as u64);
    if (data.len() as u64) < need {
        return Err(CoreError::Format);
    }
    let count = n as usize;
    proof {
        assert(data@.len() <= usize::MAX);
    }
    let mut entries: Vec<Index> = Vec::new();
    let mut i: usize = 0;
    while i < count
        invariant
            count == n as int,
            data@.len() >= 4 + (ENTRY_BYTES as int) * count,
            data@.len() <= usize::MAX,
            i <= count,
            entries@.len() == i,
            forall|x: int|
                0 <= x < i ==> #[trigger] entries@[x]@ == spec_decode_entry(
                    data@,
                    4 + (ENTRY_BYTES as int) * x,
                ),
        decreases count - i,
    {
        proof {
            assert((ENTRY_BYTES as int) * i + ENTRY_BYTES == (ENTRY_BYTES as int) * (i + 1) <= (
            ENTRY_BYTES as int) * count) by (nonlinear_arith)
                requires
                    0 <= i < count,
            ;
        }
        let base = 4 + ENTRY_BYTES * i;
        let offset = read_le_u64(data, base);
        let compress_size = read_le_u32(data, base + 8);
        let original_size = read_le_u32(data, base + 12);
        let mut hash: Vec<u64> = Vec::new();
        let mut w: usize = 0;
        while w < 1024
            invariant
                base == 4 + (ENTRY_BYTES as int) * i,
                0 <= i < count,
                count == n as int,
                data@.len() >= 4 + (ENTRY_BYTES as int) * count,
                data@.len() <= usize::MAX,
                base + ENTRY_BYTES <= data@.len(),
                w <= 1024,
                hash@.len() == w,
                forall|x: int|
                    0 <= x < w ==> #[trigger] hash@[x] == spec_dec_u64_at(
                        data@,
                        base + 16 + 8 * x,
                    ),
            decreases 1024 - w,
        {
            hash.push(read_le_u64(data, base + 16 + 8 * w));
            w += 1;
        }
        let entry = Index { offset, compress_size, original_size, hash };
        proof {
            assert(entry@.hash =~= spec_decode_words(data@, base as int + 16));
            assert(entry@ =~= spec_decode_entry(data@, 4 + (ENTRY_BYTES as int) * (i as int)));
        }
        entries.push(entry);
        i += 1;
    }
    let list = ListofIndex { n, indexies: entries };
    proof {
        let dec = spec_decode_list(data@)->0;
        assert(list@.entries =~= dec.entries);
        assert(list@ =~= dec);
    }
    Ok(list)
}

} // verus!
