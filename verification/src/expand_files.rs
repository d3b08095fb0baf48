//! Sequential expansion: replaying the index in order to decompress the
//! whole container back to the original bytes.
//!
//! Each entry's `compressed_size` bytes are taken from the container in
//! order, decompressed in isolation, and appended to the output;
//! `original_size` is authoritative for the decompressed length. Any
//! mismatch — a slice beyond the container, a malformed block, or a
//! decompressed length other than `original_size` — aborts the whole
//! expansion as unrecoverable corruption.

use vstd::prelude::*;

use crate::compress::{decompress_chunk, lz4_decompress};
use crate::create_files::{created, created_entry, spec_chunk};
use crate::index::{IndexV, ListV, ListofIndex};
use crate::CoreError;

verus! {

/// The container bytes that entry `e` points at.
pub open spec fn entry_slice(cont: Seq<u8>, e: IndexV) -> Seq<u8> {
    cont.subrange(e.offset as int, e.offset + e.compress_size)
}

/// Entry `e` replays cleanly: its slice lies inside the container, the
/// slice decompresses, and the decompressed length is exactly
/// `original_size`.
pub open spec fn entry_ok(cont: Seq<u8>, e: IndexV) -> bool {
    &&& e.offset + e.compress_size <= cont.len()
    &&& lz4_decompress(entry_slice(cont, e)) is Some
    &&& lz4_decompress(entry_slice(cont, e))->0.len() == e.original_size
}

/// The bytes entry `e` contributes to the output.
pub open spec fn entry_piece(cont: Seq<u8>, e: IndexV) -> Seq<u8> {
    lz4_decompress(entry_slice(cont, e))->0
}

/// The output of replaying the first `j` entries: the concatenation of
/// their decompressed chunks, or nothing as soon as one entry fails.
pub open spec fn spec_expand_upto(cont: Seq<u8>, entries: Seq<IndexV>, j: int) -> Option<Seq<u8>>
    decreases j,
{
    if j <= 0 {
        Some(Seq::<u8>::empty())
    } else {
        match spec_expand_upto(cont, entries, j - 1) {
            Option::None => Option::None,
            Option::Some(pre) => if entry_ok(cont, entries[j - 1]) {
                Some(pre + entry_piece(cont, entries[j - 1]))
            } else {
                Option::None
            },
        }
    }
}

/// The full expansion of a container under an index.
pub open spec fn spec_expand(cont: Seq<u8>, l: ListV) -> Option<Seq<u8>> {
    spec_expand_upto(cont, l.entries, l.entries.len() as int)
}

/// Once some entry fails, every longer replay fails too.
proof fn lemma_expand_upto_none(cont: Seq<u8>, entries: Seq<IndexV>, j: int, j2: int)
    requires
        j <= j2,
        spec_expand_upto(cont, entries, j) is None,
    ensures
        spec_expand_upto(cont, entries, j2) is None,
    decreases j2 - j,
{
    if j < j2 {
        lemma_expand_upto_none(cont, entries, j, j2 - 1);
    }
}

/// Decompresses the whole container back to the original bytes, replaying
/// index entries strictly in order with plain sequential reads. Returns a
/// `Codec` error exactly when some entry does not replay cleanly (see
/// [`entry_ok`]); on success the output is the concatenation of every
/// entry's decompressed chunk.
pub fn expand_container(container: &[u8], list: &ListofIndex) -> (r: Result<Vec<u8>, CoreError>)
    requires
        list@.wf(),
    ensures
        r is Ok <==> spec_expand(container@, list@) is Some,
        r is Ok ==> r->Ok_0@ == spec_expand(container@, list@)->0,
        r is Err ==> r->Err_0 == CoreError::Codec,
{
    let ghost entries = list@.entries;
    let m = list.indexies.len();
    let mut out: Vec<u8> = Vec::new();
    let mut i: usize = 0;
    while i < m
        invariant
            list@.wf(),
            entries == list@.entries,
            m == list.indexies@.len(),
            m == entries.len(),
            i <= m,
            spec_expand_upto(container@, entries, i as int) == Some(out@),
        decreases m - i,
    {
        let e = &list.indexies[i];
        proof {
            assert(e@ == entries[i as int]);
        }
        let clen64 = container.len() as u64;
        if e.offset > clen64 || (e.compress_size as u64) > clen64 - e.offset {
            proof {
                assert(!entry_ok(container@, entries[i as int]));
                lemma_expand_upto_none(container@, entries, i as int + 1, entries.len() as int);
            }
            return Err(CoreError::Codec);
        }
        let start = e.offset as usize;
        let end = start + (e.compress_size as usize);
        let piece = decompress_chunk(&container[start..end], e.original_size as usize);
        match piece {
            Option::None => {
                proof {
                    assert(!entry_ok(container@, entries[i as int]));
                    lemma_expand_upto_none(container@, entries, i as int + 1, entries.len() as int);
                }
                return Err(CoreError::Codec);
            },
            Option::Some(mut d) => {
                if d.len() != e.original_size as usize {
                    proof {
                        assert(!entry_ok(container@, entries[i as int]));
                        lemma_expand_upto_none(
                            container@,
                            entries,
                            i as int + 1,
                            entries.len() as int,
                        );
                    }
                    return Err(CoreError::Codec);
                }
                proof {
                    assert(entry_ok(container@, entries[i as int]));
                    assert(d@ == entry_piece(container@, entries[i as int]));
                }
                out.append(&mut d);
            },
        }
        i += 1;
    }
    Ok(out)
}

/// The round trip: expanding a container under the index that creation
/// built for source `s` yields `s` again, byte for byte — for any source
/// length and chunk size, empty sources and partial final chunks included.
pub proof fn lemma_round_trip(s: Seq<u8>, c: int, container: Seq<u8>, l: ListV)
    requires
        c >= 1,
        created(s, c, container, l),
    ensures
        spec_expand(container, l) == Some(s),
{
    let m = l.entries.len() as int;
    lemma_round_trip_upto(s, c, container, l, m);
    assert(m * c >= s.len()) by (nonlinear_arith)
        requires
            c >= 1,
            m == (s.len() + c - 1) / c,
    ;
    assert(s.subrange(0, s.len() as int) =~= s);
}

/// Replaying the first `j` entries of a created index yields exactly the
/// first `min(j*c, |s|)` source bytes.
proof fn lemma_round_trip_upto(s: Seq<u8>, c: int, container: Seq<u8>, l: ListV, j: int)
    requires
        c >= 1,
        created(s, c, container, l),
        0 <= j <= l.entries.len(),
    ensures
        spec_expand_upto(container, l.entries, j) == Some(
            s.subrange(
                0,
                if j * c <= s.len() {
                    j * c
                } else {
                    s.len() as int
                },
            ),
        ),
    decreases j,
{
    if j == 0 {
        assert(s.subrange(0, 0) =~= Seq::<u8>::empty());
    } else {
        lemma_round_trip_upto(s, c, container, l, j - 1);
        assert(created_entry(s, c, container, l.entries, j - 1));
        let e = l.entries[j - 1];
        let chunk = spec_chunk(s, c, j - 1);
        assert((j - 1) * c <= s.len()) by (nonlinear_arith)
            requires
                c >= 1,
                0 < j <= (s.len() + c - 1) / c,
        ;
        assert(entry_slice(container, e) == lz4_compress_of_chunk(s, c, j - 1));
        assert(entry_ok(container, e));
        assert(entry_piece(container, e) == chunk);
        let pre_hi = if (j - 1) * c <= s.len() {
            (j - 1) * c
        } else {
            s.len() as int
        };
        let hi = if j * c <= s.len() {
            j * c
        } else {
            s.len() as int
        };
        assert(pre_hi == (j - 1) * c);
        assert((j - 1) * c + c == j * c) by (nonlinear_arith);
        assert(s.subrange(0, pre_hi) + chunk =~= s.subrange(0, hi));
    }
}

/// The compressed block of chunk `i`, named for the proof above.
spec fn lz4_compress_of_chunk(s: Seq<u8>, c: int, i: int) -> Seq<u8> {
    crate::compress::lz4_compress(spec_chunk(s, c, i))
}

} // verus!
