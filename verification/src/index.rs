//! Shingle hashing and the per-chunk presence bitmap.
//!
//! Every 3-byte sliding window (shingle) of a chunk is hashed to one of
//! 65536 buckets; the chunk's bitmap records which buckets are hit. The
//! bitmap is held packed, 64 buckets per `u64` word: bucket `k` lives at
//! bit `k % 64` of word `k / 64`, the low bit first. This explicit
//! bit-indexing replaces any reliance on platform memory layout, and it
//! keeps every bucket (the packing drops no bit); writer and reader both
//! use it.

use vstd::prelude::*;

verus! {

/// The shingle hash, as a mathematical function: the high byte mixes the
/// first byte with the low nibble of the second (the left shift truncates
/// in 16-bit width), the low byte mixes the high nibble of the second byte
/// with the third.
pub open spec fn spec_hash_3_to_2(b1: u8, b2: u8, b3: u8) -> u16 {
    (((b1 as u16) ^ ((b2 as u16) << 4)) << 8) | (((b2 as u16) >> 4) ^ (b3 as u16))
}

/// Small pseudo hash of 3 bytes down to a 16-bit bucket id. Pure and
/// deterministic; collisions are expected and acceptable.
pub fn hash_3_to_2(byte1: u8, byte2: u8, byte3: u8) -> (r: u16)
    ensures
        r == spec_hash_3_to_2(byte1, byte2, byte3),
{
    let high = (byte1 as u16) ^ ((byte2 as u16) << 4);
    let low = ((byte2 as u16) >> 4) ^ (byte3 as u16);
    (high << 8) | low
}

/// Some 3-byte window of `data` hashes to bucket `k`.
pub open spec fn chunk_has_bucket(data: Seq<u8>, k: u16) -> bool {
    exists|i: int|
        0 <= i && i + 3 <= data.len() && #[trigger] spec_hash_3_to_2(data[i], data[i + 1], data[i + 2])
            == k
}

/// The canonical word with booleans `f(0), .., f(j-1)` packed at bits
/// `0, .., j-1` and every higher bit clear.
pub open spec fn word_of_bits(f: spec_fn(int) -> bool, j: int) -> u64
    decreases j,
{
    if j <= 0 {
        0u64
    } else {
        word_of_bits(f, j - 1) | (if f(j - 1) {
            1u64 << ((j - 1) as u64)
        } else {
            0u64
        })
    }
}

/// The bucket predicate of word `w` of the bitmap of `data`.
pub open spec fn bucket_fn(data: Seq<u8>, w: int) -> spec_fn(int) -> bool {
    |j: int| chunk_has_bucket(data, (w * 64 + j) as u16)
}

/// A packed bitmap covers all 65536 buckets in 1024 words.
pub open spec fn bitmap_wf(words: Seq<u64>) -> bool {
    words.len() == 1024
}

/// Bucket `k` is set in the packed bitmap `words`.
pub open spec fn bitmap_bit(words: Seq<u64>, k: int) -> bool {
    (words[k / 64] >> ((k % 64) as u64)) & 1 == 1
}

/// `words` is exactly the packed presence bitmap of `data`: word `w` packs
/// the buckets `w*64 .. w*64+63`.
pub open spec fn bitmap_matches(words: Seq<u64>, data: Seq<u8>) -> bool {
    &&& bitmap_wf(words)
    &&& forall|w: int| 0 <= w < 1024 ==> words[w] == word_of_bits(bucket_fn(data, w), 64)
}

/// Bit `k` of a canonical word reads back the packed boolean: `f(k)` for
/// `k` below `j`, clear above.
pub proof fn lemma_word_of_bits_bit(f: spec_fn(int) -> bool, j: int, k: u64)
    requires
        0 <= j <= 64,
        k < 64,
    ensures
        k < j ==> (((word_of_bits(f, j) >> k) & 1 == 1) <==> f(k as int)),
        j <= k ==> (word_of_bits(f, j) >> k) & 1 == 0,
    decreases j,
{
    if j <= 0 {
        assert((0u64 >> k) & 1 == 0) by (bit_vector)
            requires
                k < 64,
        ;
    } else {
        lemma_word_of_bits_bit(f, j - 1, k);
        let a = word_of_bits(f, j - 1);
        let m = (j - 1) as u64;
        if f(j - 1) {
            assert(((a | (1u64 << m)) >> m) & 1 == 1) by (bit_vector)
                requires
                    m < 64,
            ;
            assert(k != m ==> ((a | (1u64 << m)) >> k) & 1 == (a >> k) & 1) by (bit_vector)
                requires
                    m < 64,
                    k < 64,
            ;
        } else {
            assert((a | 0u64) == a) by (bit_vector);
        }
    }
}

/// Two canonical words agree when their bit predicates agree below `j`.
pub proof fn lemma_word_of_bits_congruence(f: spec_fn(int) -> bool, g: spec_fn(int) -> bool, j: int)
    requires
        forall|x: int| 0 <= x < j ==> #[trigger] f(x) == #[trigger] g(x),
    ensures
        word_of_bits(f, j) == word_of_bits(g, j),
    decreases j,
{
    if j > 0 {
        lemma_word_of_bits_congruence(f, g, j - 1);
    }
}

/// In a bitmap that matches `data`, bucket `k` is set exactly when some
/// window of `data` hashes to it.
pub proof fn lemma_bitmap_matches_bit(words: Seq<u64>, data: Seq<u8>, k: int)
    requires
        bitmap_matches(words, data),
        0 <= k < 65536,
    ensures
        bitmap_bit(words, k) <==> chunk_has_bucket(data, k as u16),
{
    let w = k / 64;
    let j = k % 64;
    assert(0 <= w < 1024 && 0 <= j < 64 && w * 64 + j == k) by (nonlinear_arith)
        requires
            w == k / 64,
            j == k % 64,
            0 <= k < 65536,
    ;
    lemma_word_of_bits_bit(bucket_fn(data, w), 64, j as u64);
    assert(bucket_fn(data, w)(j) == chunk_has_bucket(data, k as u16));
}

/// Per-chunk index record: where the chunk's compressed payload lies in the
/// container (`offset`, `compress_size`), how long the chunk itself is
/// (`original_size`), and the chunk's packed presence bitmap (`hash`).
#[derive(Debug)]
pub struct Index {
    pub offset: u64,
    pub compress_size: u32,
    pub original_size: u32,
    pub hash: Vec<u64>,
}

/// Mathematical image of an [`Index`] record.
#[verifier::ext_equal]
pub ghost struct IndexV {
    pub offset: u64,
    pub compress_size: u32,
    pub original_size: u32,
    pub hash: Seq<u64>,
}

impl View for Index {
    type V = IndexV;

    open spec fn view(&self) -> IndexV {
        IndexV {
            offset: self.offset,
            compress_size: self.compress_size,
            original_size: self.original_size,
            hash: self.hash@,
        }
    }
}

impl IndexV {
    /// The record carries a full packed bitmap.
    pub open spec fn wf(self) -> bool {
        bitmap_wf(self.hash)
    }
}

/// The whole index: `n` records, one per chunk, in chunk order.
#[derive(Debug)]
pub struct ListofIndex {
    pub n: u32,
    pub indexies: Vec<Index>,
}

/// Mathematical image of a [`ListofIndex`].
#[verifier::ext_equal]
pub ghost struct ListV {
    pub n: u32,
    pub entries: Seq<IndexV>,
}

/// The records of a `Vec<Index>`, as their mathematical images.
pub open spec fn entries_view(v: Seq<Index>) -> Seq<IndexV> {
    Seq::new(v.len(), |i: int| v[i]@)
}

impl View for ListofIndex {
    type V = ListV;

    open spec fn view(&self) -> ListV {
        ListV { n: self.n, entries: entries_view(self.indexies@) }
    }
}

impl ListV {
    /// The count agrees with the records and every record is well formed.
    pub open spec fn wf(self) -> bool {
        &&& self.n == self.entries.len()
        &&& forall|i: int| 0 <= i < self.entries.len() ==> (#[trigger] self.entries[i]).wf()
    }
}

/// The boolean vector `v`, seen as the bit predicate of its word `w`.
pub open spec fn vec_bit_fn(v: Seq<bool>, w: int) -> spec_fn(int) -> bool {
    |j: int| v[w * 64 + j]
}

/// Packs a 65536-entry boolean vector into 1024 words, 64 booleans per
/// word, the earliest boolean at the low bit. No entry is dropped.
pub fn pack_bits(v: &Vec<bool>) -> (r: Vec<u64>)
    requires
        v@.len() == 65536,
    ensures
        bitmap_wf(r@),
        forall|w: int| 0 <= w < 1024 ==> r@[w] == word_of_bits(vec_bit_fn(v@, w), 64),
{
    let mut r: Vec<u64> = Vec::new();
    for w in 0..1024usize
        invariant
            v@.len() == 65536,
            r@.len() == w,
            forall|x: int| 0 <= x < w ==> r@[x] == word_of_bits(vec_bit_fn(v@, x), 64),
    {
        let mut word: u64 = 0;
        for j in 0..64usize
            invariant
                v@.len() == 65536,
                w < 1024,
                word == word_of_bits(vec_bit_fn(v@, w as int), j as int),
        {
            if v[w * 64 + j] {
                word = word | (1u64 << (j as u64));
            } else {
                proof {
                    let a = word_of_bits(vec_bit_fn(v@, w as int), j as int);
                    assert(a | 0u64 == a) by (bit_vector);
                }
            }
        }
        r.push(word);
    }
    r
}

/// Reads bucket `k` back out of a packed bitmap: the exact inverse of the
/// packing rule, bit `k % 64` of word `k / 64`.
pub fn bitmap_get(words: &Vec<u64>, k: u16) -> (r: bool)
    requires
        bitmap_wf(words@),
    ensures
        r == bitmap_bit(words@, k as int),
{
    let w = (k as usize) / 64;
    let j = (k as usize) % 64;
    (words[w] >> (j as u64)) & 1 == 1
}

/// Builds the 65536-entry boolean presence vector of `data`: entry `k` is
/// set exactly when some 3-byte window of `data` hashes to bucket `k`.
/// Windows never cross the ends of `data`.
pub fn build_bits(data: &[u8]) -> (r: Vec<bool>)
    ensures
        r@.len() == 65536,
        forall|k: int| 0 <= k < 65536 ==> (r@[k] <==> chunk_has_bucket(data@, k as u16)),
{
    let mut bits: Vec<bool> = Vec::new();
    for _x in 0..65536usize
        invariant
            bits@.len() == _x,
            forall|k: int| 0 <= k < _x ==> !bits@[k],
    {
        bits.push(false);
    }
    let n = data.len();
    if n >= 3 {
        for i in 0..n - 2
            invariant
                n == data@.len(),
                n >= 3,
                bits@.len() == 65536,
                forall|k: int|
                    0 <= k < 65536 ==> (bits@[k] <==> exists|x: int|
                        0 <= x < i && #[trigger] spec_hash_3_to_2(
                            data@[x],
                            data@[x + 1],
                            data@[x + 2],
                        ) == (k as u16)),
        {
            let h = hash_3_to_2(data[i], data[i + 1], data[i + 2]);
            bits.set(h as usize, true);
            proof {
                assert forall|k: int| 0 <= k < 65536 implies (bits@[k] <==> exists|x: int|
                    0 <= x < i + 1 && #[trigger] spec_hash_3_to_2(
                        data@[x],
                        data@[x + 1],
                        data@[x + 2],
                    ) == (k as u16)) by {
                    if k == h as int {
                        assert(spec_hash_3_to_2(data@[i as int], data@[i + 1], data@[i + 2]) == (
                        k as u16));
                    }
                }
            }
        }
    }
    proof {
        assert forall|k: int| 0 <= k < 65536 implies (bits@[k] <==> chunk_has_bucket(
            data@,
            k as u16,
        )) by {
            if chunk_has_bucket(data@, k as u16) {
                let x = choose|x: int|
                    0 <= x && x + 3 <= data@.len() && #[trigger] spec_hash_3_to_2(
                        data@[x],
                        data@[x + 1],
                        data@[x + 2],
                    ) == (k as u16);
                assert(n >= 3 && x < n - 2);
            }
        }
    }
    bits
}

/// Writes the packed presence bitmap of the boolean vector `v` into the
/// record's `hash` words; the other fields are untouched.
pub fn fill_index(index: &mut Index, v: &Vec<bool>)
    requires
        v@.len() == 65536,
    ensures
        final(index).offset == old(index).offset,
        final(index).compress_size == old(index).compress_size,
        final(index).original_size == old(index).original_size,
        bitmap_wf(final(index).hash@),
        forall|w: int|
            0 <= w < 1024 ==> final(index).hash@[w] == word_of_bits(vec_bit_fn(v@, w), 64),
{
    index.hash = pack_bits(v);
}

} // verus!
