//! Chunk ingestion: cutting the source into fixed-size chunks, compressing
//! each one into the container, and recording one index entry per chunk.
//!
//! The source is processed strictly in order: chunk `i` covers bytes
//! `i*chunk_size ..` (up to `chunk_size` of them; the final chunk may be
//! shorter), its bitmap covers exactly the 3-byte windows inside it (a
//! window straddling a chunk boundary is invisible to both sides — a known
//! limitation), and its compressed payload is appended to the container at
//! the running offset. An empty source produces no chunk and no entry.

use vstd::prelude::*;

use crate::compress::{compress_chunk, lz4_compress, lz4_decompress};
use crate::index::{
    bitmap_matches, bucket_fn, entries_view, fill_index, lemma_word_of_bits_congruence,
    vec_bit_fn, word_of_bits, build_bits, Index, IndexV, ListV, ListofIndex,
};

verus! {

/// How many chunks a source of `len` bytes yields: the ceiling of
/// `len / c`; an empty source yields none.
pub open spec fn spec_num_chunks(len: int, c: int) -> int
    recommends
        c >= 1,
{
    (len + c - 1) / c
}

/// Chunk `i` of `s`: `c` bytes starting at `i*c`, fewer at the end.
pub open spec fn spec_chunk(s: Seq<u8>, c: int, i: int) -> Seq<u8>
    recommends
        c >= 1,
        0 <= i,
        i * c <= s.len(),
{
    if i * c + c <= s.len() {
        s.subrange(i * c, i * c + c)
    } else {
        s.subrange(i * c, s.len() as int)
    }
}

/// Sum of the first `j` compressed sizes.
pub open spec fn spec_csize_sum(entries: Seq<IndexV>, j: int) -> int
    decreases j,
{
    if j <= 0 {
        0
    } else {
        spec_csize_sum(entries, j - 1) + entries[j - 1].compress_size
    }
}

/// Sum of the first `j` original sizes.
pub open spec fn spec_osize_sum(entries: Seq<IndexV>, j: int) -> int
    decreases j,
{
    if j <= 0 {
        0
    } else {
        spec_osize_sum(entries, j - 1) + entries[j - 1].original_size
    }
}

/// Entry `i` records chunk `i` of `s` exactly: its length, its payload's
/// place in the container (the offset is the sum of the compressed sizes
/// before it), the payload itself — one self-contained block that
/// decompresses back to the chunk — and the chunk's bitmap.
pub open spec fn created_entry(
    s: Seq<u8>,
    c: int,
    container: Seq<u8>,
    entries: Seq<IndexV>,
    i: int,
) -> bool {
    let e = entries[i];
    let chunk = spec_chunk(s, c, i);
    &&& e.original_size == chunk.len()
    &&& e.offset == spec_csize_sum(entries, i)
    &&& e.offset + e.compress_size <= container.len()
    &&& container.subrange(e.offset as int, e.offset + e.compress_size) == lz4_compress(chunk)
    &&& lz4_decompress(lz4_compress(chunk)) == Some(chunk)
    &&& bitmap_matches(e.hash, chunk)
}

/// Everything creation guarantees of the container and the index built
/// from source `s` with chunk size `c`: one entry per chunk, in order,
/// each as [`created_entry`] says; the container is exactly the
/// compressed payloads back to back; and the original sizes add up to the
/// source length.
pub open spec fn created(s: Seq<u8>, c: int, container: Seq<u8>, l: ListV) -> bool {
    &&& l.wf()
    &&& l.n == spec_num_chunks(s.len() as int, c)
    &&& l.entries.len() == l.n
    &&& forall|i: int|
        0 <= i < l.entries.len() ==> #[trigger] created_entry(s, c, container, l.entries, i)
    &&& container.len() == spec_csize_sum(l.entries, l.entries.len() as int)
    &&& spec_osize_sum(l.entries, l.entries.len() as int) == s.len()
}

/// The first `j` compressed sizes do not depend on the entries behind
/// them.
proof fn lemma_csize_sum_push(entries: Seq<IndexV>, e: IndexV, j: int)
    requires
        0 <= j <= entries.len(),
    ensures
        spec_csize_sum(entries.push(e), j) == spec_csize_sum(entries, j),
    decreases j,
{
    if j > 0 {
        lemma_csize_sum_push(entries, e, j - 1);
    }
}

/// The first `j` original sizes do not depend on the entries behind them.
proof fn lemma_osize_sum_push(entries: Seq<IndexV>, e: IndexV, j: int)
    requires
        0 <= j <= entries.len(),
    ensures
        spec_osize_sum(entries.push(e), j) == spec_osize_sum(entries, j),
    decreases j,
{
    if j > 0 {
        lemma_osize_sum_push(entries, e, j - 1);
    }
}

/// Cuts `source` into chunks of `chunk_size` bytes (the last may be
/// shorter), compresses each chunk as one self-contained block appended
/// to the returned container, and records one index entry per chunk with
/// its offset, sizes and presence bitmap. Two runs on the same input
/// yield the same chunk boundaries and bitmaps,
/// see [`lemma_creation_deterministic`].
pub fn create_container(source: &[u8], chunk_size: usize) -> (r: (Vec<u8>, ListofIndex))
    requires
        1 <= chunk_size <= 0x100_0000,
        spec_num_chunks(source@.len() as int, chunk_size as int) <= u32::MAX,
    ensures
        created(source@, chunk_size as int, r.0@, r.1@),
{
    let len = source.len();
    let ghost c = chunk_size as int;
    let mut container: Vec<u8> = Vec::new();
    let mut indexies: Vec<Index> = Vec::new();
    let mut pos: usize = 0;
    proof {
        assert(spec_num_chunks(0, c) == 0) by (nonlinear_arith)
            requires
                c >= 1,
        ;
    }
    while pos < len
        invariant
            1 <= chunk_size <= 0x100_0000,
            c == chunk_size as int,
            len == source@.len(),
            spec_num_chunks(len as int, c) <= u32::MAX,
            pos <= len,
            entries_view(indexies@).len() == indexies@.len(),
            indexies@.len() == spec_num_chunks(pos as int, c),
            pos == indexies@.len() * c || pos == len,
            container@.len() == spec_csize_sum(entries_view(indexies@), indexies@.len() as int),
            spec_osize_sum(entries_view(indexies@), indexies@.len() as int) == pos,
            forall|i: int|
                0 <= i < indexies@.len() ==> #[trigger] created_entry(
                    source@,
                    c,
                    container@,
                    entries_view(indexies@),
                    i,
                ),
            forall|i: int| 0 <= i < indexies@.len() ==> (#[trigger] entries_view(indexies@)[i]).wf(),
        decreases len - pos,
    {
        let ghost old_entries = entries_view(indexies@);
        let ghost old_container = container@;
        let ghost cnt = indexies@.len() as int;
        proof {
            assert(pos == cnt * c);
            assert(cnt * c + c == (cnt + 1) * c) by (nonlinear_arith);
        }
        let remain = len - pos;
        let clen = if remain >= chunk_size {
            chunk_size
        } else {
            remain
        };
        let chunk: &[u8] = &source[pos..pos + clen];
        proof {
            assert(chunk@ == spec_chunk(source@, c, cnt));
        }
        let bits = build_bits(chunk);
        let mut compressed = compress_chunk(chunk);
        let csize = compressed.len();
        proof {
            assert(csize <= 20 + 0x100_0000 * 110 / 100);
        }
        let mut ielm = Index {
            offset: container.len() as u64,
            compress_size: csize as u32,
            original_size: clen as u32,
            hash: Vec::new(),
        };
        fill_index(&mut ielm, &bits);
        proof {
            assert forall|w: int| 0 <= w < 1024 implies ielm@.hash[w] == word_of_bits(
                bucket_fn(chunk@, w),
                64,
            ) by {
                lemma_word_of_bits_congruence(vec_bit_fn(bits@, w), bucket_fn(chunk@, w), 64);
            }
            assert(bitmap_matches(ielm@.hash, chunk@));
        }
        container.append(&mut compressed);
        indexies.push(ielm);
        pos = pos + clen;
        proof {
            let new_entries = entries_view(indexies@);
            assert(new_entries =~= old_entries.push(ielm@));
            lemma_csize_sum_push(old_entries, ielm@, cnt);
            lemma_osize_sum_push(old_entries, ielm@, cnt);
            assert(spec_csize_sum(new_entries, cnt) == spec_csize_sum(old_entries, cnt));
            assert(spec_osize_sum(new_entries, cnt) == spec_osize_sum(old_entries, cnt));
            assert forall|i: int| 0 <= i < cnt implies #[trigger] created_entry(
                source@,
                c,
                container@,
                new_entries,
                i,
            ) by {
                assert(created_entry(source@, c, old_container, old_entries, i));
                lemma_csize_sum_push(old_entries, ielm@, i);
                let e = old_entries[i];
                assert(container@.subrange(e.offset as int, e.offset + e.compress_size)
                    =~= old_container.subrange(e.offset as int, e.offset + e.compress_size));
            }
            let e = ielm@;
            assert(container@.subrange(e.offset as int, e.offset + e.compress_size)
                =~= lz4_compress(chunk@));
            assert(created_entry(source@, c, container@, new_entries, cnt));
            if clen == chunk_size {
                assert(spec_num_chunks(pos as int, c) == cnt + 1) by (nonlinear_arith)
                    requires
                        c >= 1,
                        pos == (cnt + 1) * c,
                ;
            } else {
                assert(spec_num_chunks(pos as int, c) == cnt + 1) by (nonlinear_arith)
                    requires
                        c >= 1,
                        cnt * c < pos < (cnt + 1) * c,
                ;
            }
        }
    }
    proof {
        assert(indexies@.len() <= u32::MAX) by {
            assert(spec_num_chunks(pos as int, c) <= spec_num_chunks(len as int, c))
                by (nonlinear_arith)
                requires
                    c >= 1,
                    pos <= len,
            ;
        }
    }
    let n = indexies.len() as u32;
    let list = ListofIndex { n, indexies };
    (container, list)
}

/// Creation is deterministic: two containers and index lists built from
/// the same source and chunk size have equal indexes — the same chunk
/// boundaries, sizes, offsets and bitmaps.
pub proof fn lemma_creation_deterministic(
    s: Seq<u8>,
    c: int,
    cont1: Seq<u8>,
    l1: ListV,
    cont2: Seq<u8>,
    l2: ListV,
)
    requires
        created(s, c, cont1, l1),
        created(s, c, cont2, l2),
    ensures
        l1 == l2,
{
    let m = l1.entries.len() as int;
    assert(l2.entries.len() as int == m);
    assert forall|i: int| 0 <= i < m implies l1.entries[i].compress_size
        == l2.entries[i].compress_size && l1.entries[i].original_size
        == l2.entries[i].original_size && l1.entries[i].hash =~= l2.entries[i].hash by {
        assert(created_entry(s, c, cont1, l1.entries, i));
        assert(created_entry(s, c, cont2, l2.entries, i));
        let chunk = spec_chunk(s, c, i);
        let e1 = l1.entries[i];
        let e2 = l2.entries[i];
        assert(cont1.subrange(e1.offset as int, e1.offset + e1.compress_size).len()
            == e1.compress_size);
        assert(cont2.subrange(e2.offset as int, e2.offset + e2.compress_size).len()
            == e2.compress_size);
        assert(e1.compress_size == lz4_compress(chunk).len());
        assert(e2.compress_size == lz4_compress(chunk).len());
    }
    lemma_csize_sum_congruent(l1.entries, l2.entries, m);
    assert forall|i: int| 0 <= i < m implies l1.entries[i] == l2.entries[i] by {
        assert(created_entry(s, c, cont1, l1.entries, i));
        assert(created_entry(s, c, cont2, l2.entries, i));
        lemma_csize_sum_congruent(l1.entries, l2.entries, i);
        assert(l1.entries[i] =~= l2.entries[i]);
    }
    assert(l1.entries =~= l2.entries);
    assert(l1 =~= l2);
}

/// Prefix sums agree where the compressed sizes agree.
proof fn lemma_csize_sum_congruent(e1: Seq<IndexV>, e2: Seq<IndexV>, j: int)
    requires
        j <= e1.len(),
        j <= e2.len(),
        forall|i: int|
            0 <= i < j ==> (#[trigger] e1[i]).compress_size == (#[trigger] e2[i]).compress_size,
    ensures
        spec_csize_sum(e1, j) == spec_csize_sum(e2, j),
    decreases j,
{
    if j > 0 {
        lemma_csize_sum_congruent(e1, e2, j - 1);
    }
}

} // verus!
