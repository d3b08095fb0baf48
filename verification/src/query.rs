//! The query engine: candidate selection by bitmap containment, then
//! verification of candidates by line-bounded literal matching.
//!
//! A search string is hashed into an ephemeral query bitmap exactly as a
//! chunk is at creation. A chunk is a candidate unless some 64-bit word of
//! the query bitmap has a bit its index word lacks — a zero query word is
//! a wildcard. Candidates can be false positives (hash collisions, and
//! shingle presence does not give adjacency); they are never false
//! negatives for strings that lie inside one chunk. Each candidate's
//! payload is decompressed in isolation and the matcher confirms or
//! discards it; a decompression failure aborts the whole query.

use vstd::prelude::*;

use crate::compress::{decompress_chunk, lz4_decompress};
use crate::glob::{glob_wf, lined_glob, spec_lined_glob};
use crate::create_files::{created, created_entry, spec_chunk};
use crate::index::{
    bitmap_bit, bitmap_matches, bitmap_wf, bucket_fn, build_bits, lemma_bitmap_matches_bit,
    lemma_word_of_bits_congruence, pack_bits, spec_hash_3_to_2, vec_bit_fn, word_of_bits, IndexV,
    ListV, ListofIndex,
};
use crate::expand_files::{entry_ok, entry_piece, entry_slice};
use crate::CoreError;

verus! {

/// The packed query bitmap of the byte string `q`: the same canonical
/// packing a chunk gets at creation.
pub open spec fn spec_query_words(q: Seq<u8>) -> Seq<u64> {
    Seq::new(1024, |w: int| word_of_bits(bucket_fn(q, w), 64))
}

/// Builds the ephemeral query bitmap from the raw search bytes, hashing
/// every 3-byte window of the string; never persisted.
pub fn fill_query(query_bytes: &[u8]) -> (r: Vec<u64>)
    ensures
        r@ == spec_query_words(query_bytes@),
        bitmap_matches(r@, query_bytes@),
{
    let bits = build_bits(query_bytes);
    let words = pack_bits(&bits);
    proof {
        assert forall|w: int| 0 <= w < 1024 implies words@[w] == word_of_bits(
            bucket_fn(query_bytes@, w),
            64,
        ) by {
            lemma_word_of_bits_congruence(vec_bit_fn(bits@, w), bucket_fn(query_bytes@, w), 64);
        }
        assert(words@ =~= spec_query_words(query_bytes@));
    }
    words
}

/// Word-by-word containment: every word of `q` is covered by the matching
/// word of `w`.
pub open spec fn spec_words_contained(q: Seq<u64>, w: Seq<u64>) -> bool {
    forall|i: int| 0 <= i < q.len() ==> #[trigger] (q[i] & w[i]) == q[i]
}

/// The containment test of the query engine: `true` unless some nonzero
/// 64-bit query word has a bit that the index word lacks (a zero query
/// word is a wildcard, always satisfied).
pub fn match_query(query: &Vec<u64>, index: &[u64]) -> (r: bool)
    requires
        query@.len() == index@.len(),
    ensures
        r == spec_words_contained(query@, index@),
{
    let mut i: usize = 0;
    while i < query.len()
        invariant
            query@.len() == index@.len(),
            i <= query@.len(),
            forall|x: int| 0 <= x < i ==> #[trigger] (query@[x] & index@[x]) == query@[x],
        decreases query@.len() - i,
    {
        let q = query[i];
        if q != 0 {
            if (q & index[i]) != q {
                return false;
            }
        } else {
            proof {
                let w = index@[i as int];
                assert(0u64 & w == 0u64) by (bit_vector);
            }
        }
        i += 1;
    }
    true
}

/// Some bit below 64 is set in a nonzero word at or above position `j`
/// when the word still has a set bit at or above `j`.
proof fn lemma_nonzero_bit_from(x: u64, j: u64)
    requires
        j < 64,
        x >> j != 0,
    ensures
        exists|m: u64| j <= m < 64 && #[trigger] ((x >> m) & 1) == 1,
    decreases 64 - j,
{
    if (x >> j) & 1 == 1 {
        assert(j <= j < 64 && (x >> j) & 1 == 1);
    } else {
        assert(j < 63 && (x >> (j + 1)) != 0) by (bit_vector)
            requires
                j < 64,
                x >> j != 0,
                (x >> j) & 1 != 1,
        ;
        lemma_nonzero_bit_from(x, (j + 1) as u64);
    }
}

/// Word containment is exactly bit containment.
proof fn lemma_word_contained_bits(q: u64, w: u64)
    ensures
        (q & w == q) <==> (forall|j: u64| j < 64 && #[trigger] ((q >> j) & 1) == 1 ==> ((w >> j)
            & 1) == 1),
{
    if q & w == q {
        assert forall|j: u64| j < 64 && #[trigger] ((q >> j) & 1) == 1 implies ((w >> j) & 1)
            == 1 by {
            assert((q & w == q && (q >> j) & 1 == 1) ==> ((w >> j) & 1 == 1)) by (bit_vector);
        }
    } else {
        let d = q & !w;
        assert(d != 0 && d >> 0 == d) by (bit_vector)
            requires
                q & w != q,
                d == q & !w,
        ;
        lemma_nonzero_bit_from(d, 0);
        let m = choose|m: u64| 0 <= m < 64 && #[trigger] ((d >> m) & 1) == 1;
        assert((q >> m) & 1 == 1 && (w >> m) & 1 == 0) by (bit_vector)
            requires
                m < 64,
                d == q & !w,
                (d >> m) & 1 == 1,
        ;
    }
}

/// The containment test holds exactly when every bucket set in the query
/// bitmap is set in the index bitmap too.
pub proof fn lemma_containment_test(q: Seq<u64>, w: Seq<u64>)
    requires
        bitmap_wf(q),
        bitmap_wf(w),
    ensures
        spec_words_contained(q, w) <==> (forall|k: int|
            0 <= k < 65536 && bitmap_bit(q, k) ==> #[trigger] bitmap_bit(w, k)),
{
    if spec_words_contained(q, w) {
        assert forall|k: int| 0 <= k < 65536 && bitmap_bit(q, k) implies #[trigger] bitmap_bit(
            w,
            k,
        ) by {
            let i = k / 64;
            let j = k % 64;
            assert(0 <= i < 1024 && 0 <= j < 64) by (nonlinear_arith)
                requires
                    i == k / 64,
                    j == k % 64,
                    0 <= k < 65536,
            ;
            lemma_word_contained_bits(q[i], w[i]);
        }
    }
    if forall|k: int| 0 <= k < 65536 && bitmap_bit(q, k) ==> #[trigger] bitmap_bit(w, k) {
        assert forall|i: int| 0 <= i < q.len() implies #[trigger] (q[i] & w[i]) == q[i] by {
            lemma_word_contained_bits(q[i], w[i]);
            assert forall|j: u64| j < 64 && #[trigger] ((q[i] >> j) & 1) == 1 implies ((w[i] >> j)
                & 1) == 1 by {
                let k = i * 64 + j;
                assert(0 <= k < 65536 && k / 64 == i && k % 64 == j) by (nonlinear_arith)
                    requires
                        0 <= i < 1024,
                        0 <= j < 64,
                        k == i * 64 + j,
                ;
                assert(bitmap_bit(q, k));
                assert(bitmap_bit(w, k));
            }
        }
    }
}

/// No false negatives: when the chunk contains the query string as a
/// literal substring (so that every 3-byte window of the string lies
/// inside the chunk), the containment test passes on their bitmaps.
pub proof fn lemma_no_false_negative(
    chunk: Seq<u8>,
    query: Seq<u8>,
    qwords: Seq<u64>,
    cwords: Seq<u64>,
    at: int,
)
    requires
        bitmap_matches(qwords, query),
        bitmap_matches(cwords, chunk),
        0 <= at,
        at + query.len() <= chunk.len(),
        chunk.subrange(at, at + query.len()) == query,
    ensures
        spec_words_contained(qwords, cwords),
{
    assert forall|k: int| 0 <= k < 65536 && bitmap_bit(qwords, k) implies #[trigger] bitmap_bit(
        cwords,
        k,
    ) by {
        lemma_bitmap_matches_bit(qwords, query, k);
        lemma_bitmap_matches_bit(cwords, chunk, k);
        let x = choose|x: int|
            0 <= x && x + 3 <= query.len() && #[trigger] spec_hash_3_to_2(
                query[x],
                query[x + 1],
                query[x + 2],
            ) == (k as u16);
        assert(chunk[at + x] == query[x] && chunk[at + x + 1] == query[x + 1] && chunk[at + x + 2]
            == query[x + 2]);
        assert(spec_hash_3_to_2(chunk[at + x], chunk[at + x + 1], chunk[at + x + 2]) == (k as u16));
    }
    lemma_containment_test(qwords, cwords);
}

/// No false negatives, end to end: when a chunk of the source contains
/// the query string as a literal substring, the index that creation built
/// classifies that chunk as a candidate.
pub proof fn lemma_created_chunk_is_candidate(
    s: Seq<u8>,
    c: int,
    container: Seq<u8>,
    l: ListV,
    q: Seq<u8>,
    i: int,
    at: int,
)
    requires
        created(s, c, container, l),
        0 <= i < l.entries.len(),
        0 <= at,
        at + q.len() <= spec_chunk(s, c, i).len(),
        spec_chunk(s, c, i).subrange(at, at + q.len()) == q,
    ensures
        spec_words_contained(spec_query_words(q), l.entries[i].hash),
{
    assert(created_entry(s, c, container, l.entries, i));
    assert(bitmap_matches(spec_query_words(q), q));
    lemma_no_false_negative(spec_chunk(s, c, i), q, spec_query_words(q), l.entries[i].hash, at);
}

/// A verified match: the first matching line of candidate chunk `chunk`,
/// as a half-open byte range within the decompressed chunk.
#[derive(Clone, Copy, Debug, PartialEq, Eq, Structural)]
pub struct QueryMatch {
    pub chunk: u32,
    pub start: usize,
    pub end: usize,
}

/// The candidate chunks among the first `j` entries, in chunk order:
/// those whose bitmap passes the containment test against `qw`.
pub open spec fn spec_candidates_upto(entries: Seq<IndexV>, qw: Seq<u64>, j: int) -> Seq<u32>
    decreases j,
{
    if j <= 0 {
        Seq::empty()
    } else {
        let pre = spec_candidates_upto(entries, qw, j - 1);
        if spec_words_contained(qw, entries[j - 1].hash) {
            pre.push((j - 1) as u32)
        } else {
            pre
        }
    }
}

/// Runs the containment test against every index entry and returns the
/// candidate chunk numbers, in order. Candidates may be false positives;
/// chunks that truly contain every shingle of the query are never missed.
pub fn select_candidates(list: &ListofIndex, query: &Vec<u64>) -> (r: Vec<u32>)
    requires
        list@.wf(),
        bitmap_wf(query@),
    ensures
        r@ == spec_candidates_upto(list@.entries, query@, list@.entries.len() as int),
{
    let m = list.indexies.len();
    let mut r: Vec<u32> = Vec::new();
    let mut i: usize = 0;
    while i < m
        invariant
            list@.wf(),
            bitmap_wf(query@),
            m == list.indexies@.len(),
            m == list@.entries.len(),
            i <= m,
            r@ == spec_candidates_upto(list@.entries, query@, i as int),
        decreases m - i,
    {
        let e = &list.indexies[i];
        proof {
            assert(e@ == list@.entries[i as int]);
            assert(list@.entries[i as int].wf());
        }
        if match_query(query, e.hash.as_slice()) {
            r.push(i as u32);
        }
        i += 1;
    }
    r
}

/// The fragments of a query string, split on the wildcard byte, up to
/// position `j`: the maximal nonempty runs of non-wildcard bytes.
pub open spec fn spec_split_upto(q: Seq<u8>, wc: u8, j: int) -> Seq<Seq<u8>>
    decreases j,
{
    if j <= 0 {
        Seq::empty()
    } else {
        let pre = spec_split_upto(q, wc, j - 1);
        let ch = q[j - 1];
        if ch == wc {
            pre
        } else if j - 1 == 0 || q[j - 2] == wc {
            pre.push(seq![ch])
        } else {
            pre.update(pre.len() - 1, pre.last().push(ch))
        }
    }
}

/// The glob pattern of a query string: its fragments in order.
pub open spec fn spec_split(q: Seq<u8>, wc: u8) -> Seq<Seq<u8>> {
    spec_split_upto(q, wc, q.len() as int)
}

/// Derives the glob pattern from the raw query bytes: the ordered list of
/// literal fragments between wildcard bytes. Runs of wildcards and
/// wildcards at the ends contribute nothing; a query of wildcards alone
/// yields no fragment.
pub fn split_fragments(query_bytes: &[u8], wildcard: u8) -> (r: Vec<Vec<u8>>)
    ensures
        r.deep_view() == spec_split(query_bytes@, wildcard),
{
    let n = query_bytes.len();
    let mut done: Vec<Vec<u8>> = Vec::new();
    let mut cur: Vec<u8> = Vec::new();
    let mut i: usize = 0;
    while i < n
        invariant
            n == query_bytes@.len(),
            i <= n,
            cur@.len() == 0 ==> spec_split_upto(query_bytes@, wildcard, i as int)
                == done.deep_view(),
            cur@.len() == 0 ==> (i == 0 || query_bytes@[i as int - 1] == wildcard),
            cur@.len() > 0 ==> spec_split_upto(query_bytes@, wildcard, i as int)
                == done.deep_view().push(cur@),
            cur@.len() > 0 ==> (i > 0 && query_bytes@[i as int - 1] != wildcard),
        decreases n - i,
    {
        let ch = query_bytes[i];
        if ch == wildcard {
            if cur.len() > 0 {
                done.push(cur);
                cur = Vec::new();
                proof {
                    assert(done.deep_view() =~~= spec_split_upto(
                        query_bytes@,
                        wildcard,
                        i as int + 1,
                    ));
                }
            }
        } else {
            if cur.len() == 0 {
                cur.push(ch);
                proof {
                    assert(cur@ =~= seq![ch]);
                    assert(done.deep_view().push(cur@) =~~= spec_split_upto(
                        query_bytes@,
                        wildcard,
                        i as int + 1,
                    ));
                }
            } else {
                let ghost pre = done.deep_view().push(cur@);
                cur.push(ch);
                proof {
                    assert(done.deep_view().push(cur@) =~~= pre.update(
                        pre.len() - 1,
                        pre.last().push(ch),
                    ));
                }
            }
        }
        i += 1;
    }
    if cur.len() > 0 {
        done.push(cur);
        proof {
            assert(done.deep_view() =~~= spec_split(query_bytes@, wildcard));
        }
    }
    done
}

/// After a non-wildcard byte the split has at least one fragment.
proof fn lemma_split_nonempty(q: Seq<u8>, wc: u8, j: int)
    requires
        1 <= j <= q.len(),
        q[j - 1] != wc,
    ensures
        spec_split_upto(q, wc, j).len() > 0,
    decreases j,
{
    if !(j - 1 == 0 || q[j - 2] == wc) {
        lemma_split_nonempty(q, wc, j - 1);
        let pre = spec_split_upto(q, wc, j - 1);
        assert(spec_split_upto(q, wc, j) == pre.update(pre.len() - 1, pre.last().push(q[j - 1])));
    }
}

/// Every fragment the split yields is nonempty and wildcard-free.
pub proof fn lemma_split_fragments_wf(q: Seq<u8>, wc: u8, j: int)
    requires
        j <= q.len(),
    ensures
        forall|p: int|
            0 <= p < spec_split_upto(q, wc, j).len() ==> (#[trigger] spec_split_upto(q, wc, j)[p]).len()
                > 0 && !spec_split_upto(q, wc, j)[p].contains(wc),
    decreases j,
{
    if j > 0 {
        lemma_split_fragments_wf(q, wc, j - 1);
        let pre = spec_split_upto(q, wc, j - 1);
        let cur = spec_split_upto(q, wc, j);
        let ch = q[j - 1];
        if ch == wc {
        } else if j - 1 == 0 || q[j - 2] == wc {
            assert forall|p: int| 0 <= p < cur.len() implies (#[trigger] cur[p]).len() > 0
                && !cur[p].contains(wc) by {
                if p == pre.len() {
                    assert(cur[p] == seq![ch]);
                    assert(forall|t: int| 0 <= t < seq![ch].len() ==> seq![ch][t] == ch);
                }
            }
        } else {
            lemma_split_nonempty(q, wc, j - 1);
            let f = pre.last().push(ch);
            assert(!pre.last().contains(wc));
            assert forall|t: int| 0 <= t < f.len() implies f[t] != wc by {
                if t < pre.last().len() {
                    assert(pre.last()[t] != wc);
                }
            }
            assert(!f.contains(wc));
            assert forall|p: int| 0 <= p < cur.len() implies (#[trigger] cur[p]).len() > 0
                && !cur[p].contains(wc) by {
                if p == pre.len() - 1 {
                    assert(cur[p] == f);
                } else {
                    assert(cur[p] == pre[p]);
                }
            }
        }
    }
}

/// The pipeline's verdict on the first `j` chunks: for each candidate, in
/// order, the first matching line of its decompressed payload, if any; a
/// candidate that does not replay cleanly (see `entry_ok`) aborts the
/// whole query with a `Codec` error. Non-candidates are never touched.
pub open spec fn spec_query_upto(
    cont: Seq<u8>,
    entries: Seq<IndexV>,
    qw: Seq<u64>,
    pats: Seq<Seq<u8>>,
    eol: Seq<u8>,
    j: int,
) -> Result<Seq<QueryMatch>, CoreError>
    decreases j,
{
    if j <= 0 {
        Result::Ok(Seq::empty())
    } else {
        match spec_query_upto(cont, entries, qw, pats, eol, j - 1) {
            Result::Err(e) => Result::Err(e),
            Result::Ok(pre) => {
                let e = entries[j - 1];
                if spec_words_contained(qw, e.hash) {
                    if entry_ok(cont, e) {
                        match spec_lined_glob(entry_piece(cont, e), pats, eol) {
                            Option::Some(p) => Result::Ok(
                                pre.push(
                                    QueryMatch {
                                        chunk: (j - 1) as u32,
                                        start: p.0 as usize,
                                        end: p.1 as usize,
                                    },
                                ),
                            ),
                            Option::None => Result::Ok(pre),
                        }
                    } else {
                        Result::Err(CoreError::Codec)
                    }
                } else {
                    Result::Ok(pre)
                }
            },
        }
    }
}

/// The whole query pipeline over a container and its index.
pub open spec fn spec_query(
    cont: Seq<u8>,
    l: ListV,
    q: Seq<u8>,
    pats: Seq<Seq<u8>>,
    eol: Seq<u8>,
) -> Result<Seq<QueryMatch>, CoreError> {
    spec_query_upto(cont, l.entries, spec_query_words(q), pats, eol, l.entries.len() as int)
}

/// Once some candidate fails, every longer run of the pipeline fails the
/// same way.
proof fn lemma_query_upto_err(
    cont: Seq<u8>,
    entries: Seq<IndexV>,
    qw: Seq<u64>,
    pats: Seq<Seq<u8>>,
    eol: Seq<u8>,
    j: int,
    j2: int,
)
    requires
        j <= j2,
        spec_query_upto(cont, entries, qw, pats, eol, j) is Err,
    ensures
        spec_query_upto(cont, entries, qw, pats, eol, j2) == spec_query_upto(
            cont,
            entries,
            qw,
            pats,
            eol,
            j,
        ),
    decreases j2 - j,
{
    if j < j2 {
        lemma_query_upto_err(cont, entries, qw, pats, eol, j, j2 - 1);
    }
}

/// Decompresses one candidate payload, bounded by `original_size`, and
/// verifies it with the line matcher. Returns the first matching line
/// range if the candidate really matches, `None` if the bloom-filter hit
/// was a false positive, and a `Codec` error exactly when the payload is
/// malformed or does not decompress to `original_size` bytes.
pub fn verify_candidate(
    compressed: &[u8],
    original_size: usize,
    patterns: &Vec<&[u8]>,
    eol: &[u8],
) -> (r: Result<Option<(usize, usize)>, CoreError>)
    requires
        glob_wf(patterns.deep_view()),
    ensures
        r is Ok <==> (lz4_decompress(compressed@) is Some && lz4_decompress(compressed@)->0.len()
            == original_size),
        r is Ok ==> (match spec_lined_glob(
            lz4_decompress(compressed@)->0,
            patterns.deep_view(),
            eol@,
        ) {
            Option::Some(p) => r->Ok_0 is Some && (r->Ok_0->0).0 == p.0 && (r->Ok_0->0).1 == p.1,
            Option::None => r->Ok_0 is None,
        }),
        r is Err ==> r->Err_0 == CoreError::Codec,
{
    match decompress_candidate(compressed, original_size) {
        Result::Err(e) => Err(e),
        Result::Ok(d) => Ok(lined_glob(d.as_slice(), patterns, eol)),
    }
}

/// Decompresses one candidate payload in isolation, bounded by the
/// entry's `original_size`, which is authoritative: succeeds exactly when
/// the payload is a well-formed block of `original_size` bytes, and fails
/// with a `Codec` error otherwise.
pub fn decompress_candidate(compressed: &[u8], original_size: usize) -> (r: Result<
    Vec<u8>,
    CoreError,
>)
    ensures
        r is Ok <==> (lz4_decompress(compressed@) is Some && lz4_decompress(compressed@)->0.len()
            == original_size),
        r is Ok ==> r->Ok_0@ == lz4_decompress(compressed@)->0,
        r is Err ==> r->Err_0 == CoreError::Codec,
{
    match decompress_chunk(compressed, original_size) {
        Option::None => Err(CoreError::Codec),
        Option::Some(d) => {
            if d.len() != original_size {
                return Err(CoreError::Codec);
            }
            Ok(d)
        },
    }
}

/// The query engine: builds the query bitmap from the raw search bytes,
/// selects candidate chunks by the containment test, decompresses exactly
/// the candidates (each by its own offset and sizes, so lookups are
/// independent of any shared cursor), and reports only the verified
/// matches, one first-matching-line range per matching chunk, in chunk
/// order. A candidate that fails to decompress aborts the whole query
/// with a `Codec` error; a bloom-filter hit that verifies to no line
/// yields no output for that chunk.
pub fn query_chunks(
    container: &[u8],
    list: &ListofIndex,
    query_bytes: &[u8],
    patterns: &Vec<&[u8]>,
    eol: &[u8],
) -> (r: Result<Vec<QueryMatch>, CoreError>)
    requires
        list@.wf(),
        glob_wf(patterns.deep_view()),
    ensures
        ({
            let s = spec_query(container@, list@, query_bytes@, patterns.deep_view(), eol@);
            match r {
                Result::Ok(v) => s is Ok && v@ == s->Ok_0,
                Result::Err(e) => s is Err && e == s->Err_0,
            }
        }),
{
    let ghost entries = list@.entries;
    let ghost pats = patterns.deep_view();
    let query = fill_query(query_bytes);
    let ghost qw = query@;
    let m = list.indexies.len();
    let mut out: Vec<QueryMatch> = Vec::new();
    let mut i: usize = 0;
    while i < m
        invariant
            list@.wf(),
            glob_wf(pats),
            pats == patterns.deep_view(),
            entries == list@.entries,
            qw == query@,
            qw == spec_query_words(query_bytes@),
            m == list.indexies@.len(),
            m == entries.len(),
            i <= m,
            spec_query_upto(container@, entries, qw, pats, eol@, i as int) == Result::<
                Seq<QueryMatch>,
                CoreError,
            >::Ok(out@),
        decreases m - i,
    {
        let e = &list.indexies[i];
        proof {
            assert(e@ == entries[i as int]);
            assert(entries[i as int].wf());
        }
        if match_query(&query, e.hash.as_slice()) {
            let clen64 = container.len() as u64;
            if e.offset > clen64 || (e.compress_size as u64) > clen64 - e.offset {
                proof {
                    assert(!entry_ok(container@, entries[i as int]));
                    lemma_query_upto_err(
                        container@,
                        entries,
                        qw,
                        pats,
                        eol@,
                        i as int + 1,
                        entries.len() as int,
                    );
                }
                return Err(CoreError::Codec);
            }
            let start = e.offset as usize;
            let end = start + (e.compress_size as usize);
            let slice = &container[start..end];
            proof {
                assert(slice@ == entry_slice(container@, entries[i as int]));
            }
            match verify_candidate(slice, e.original_size as usize, patterns, eol) {
                Result::Err(err) => {
                    proof {
                        assert(!entry_ok(container@, entries[i as int]));
                        lemma_query_upto_err(
                            container@,
                            entries,
                            qw,
                            pats,
                            eol@,
                            i as int + 1,
                            entries.len() as int,
                        );
                    }
                    return Err(err);
                },
                Result::Ok(found) => {
                    proof {
                        assert(entry_ok(container@, entries[i as int]));
                    }
                    match found {
                        Option::Some(range) => {
                            out.push(
                                QueryMatch { chunk: i as u32, start: range.0, end: range.1 },
                            );
                        },
                        Option::None => {},
                    }
                },
            }
        }
        i += 1;
    }
    Ok(out)
}

} // verus!
