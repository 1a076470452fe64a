//! The record store's embedding column: each 32-bit float, held as its
//! IEEE-754 bit pattern, is written as four little-endian bytes.

use vstd::prelude::*;

verus! {

/// Byte `k` (0 is the least significant) of a word.
pub open spec fn byte_of(w: u32, k: int) -> u8 {
    if k == 0 {
        (w & 0xff) as u8
    } else if k == 1 {
        ((w >> 8u32) & 0xff) as u8
    } else if k == 2 {
        ((w >> 16u32) & 0xff) as u8
    } else {
        ((w >> 24u32) & 0xff) as u8
    }
}

/// The word with these four bytes, least significant first.
pub open spec fn word_of(b0: u8, b1: u8, b2: u8, b3: u8) -> u32 {
    (b0 as u32) | ((b1 as u32) << 8u32) | ((b2 as u32) << 16u32) | ((b3 as u32) << 24u32)
}

/// The little-endian bytes of a sequence of words.
pub open spec fn le_bytes(v: Seq<u32>) -> Seq<u8> {
    Seq::new(4 * v.len(), |i: int| byte_of(v[i / 4], i % 4))
}

/// The words read from bytes four at a time; a trailing remainder of fewer
/// than four bytes is ignored.
pub open spec fn le_words(b: Seq<u8>) -> Seq<u32> {
    Seq::new(b.len() / 4, |i: int| word_of(b[4 * i], b[4 * i + 1], b[4 * i + 2], b[4 * i + 3]))
}

proof fn lemma_word_bytes(w: u32)
    ensures
        word_of(byte_of(w, 0), byte_of(w, 1), byte_of(w, 2), byte_of(w, 3)) == w,
{
    let b0 = (w & 0xff) as u8;
    let b1 = ((w >> 8u32) & 0xff) as u8;
    let b2 = ((w >> 16u32) & 0xff) as u8;
    let b3 = ((w >> 24u32) & 0xff) as u8;
    assert((w & 0xff) <= 0xff) by (bit_vector);
    assert(((w >> 8u32) & 0xff) <= 0xff) by (bit_vector);
    assert(((w >> 16u32) & 0xff) <= 0xff) by (bit_vector);
    assert(((w >> 24u32) & 0xff) <= 0xff) by (bit_vector);
    assert(((w & 0xff) | (((w >> 8u32) & 0xff) << 8u32) | (((w >> 16u32) & 0xff) << 16u32) | (((w
        >> 24u32) & 0xff) << 24u32)) == w) by (bit_vector);
}

proof fn lemma_index_split(i: int, k: int)
    requires
        0 <= i,
        0 <= k < 4,
    ensures
        (4 * i + k) / 4 == i,
        (4 * i + k) % 4 == k,
{
    assert((4 * i + k) / 4 == i && (4 * i + k) % 4 == k) by (nonlinear_arith)
        requires 0 <= i, 0 <= k < 4;
}

/// Writing an embedding and reading it back gives every bit pattern back
/// unchanged, so no component of the vector read back differs from the one written.
pub proof fn lemma_embedding_round_trip(v: Seq<u32>)
    ensures
        le_words(le_bytes(v)) == v,
{
    let b = le_bytes(v);
    assert((4 * v.len()) / 4 == v.len()) by (nonlinear_arith);
    assert forall|i: int| 0 <= i < v.len() implies #[trigger] le_words(b)[i] == v[i] by {
        lemma_index_split(i, 0);
        lemma_index_split(i, 1);
        lemma_index_split(i, 2);
        lemma_index_split(i, 3);
        assert(4 * i + 3 < 4 * v.len()) by (nonlinear_arith)
            requires 0 <= i < v.len();
        lemma_word_bytes(v[i]);
    }
    assert(le_words(b) =~= v);
}

/// The bytes stored for an embedding.
pub fn encode_embedding(v: &Vec<u32>) -> (r: Vec<u8>)
    requires
        4 * v@.len() <= usize::MAX,
    ensures
        r@ == le_bytes(v@),
{
    let mut r: Vec<u8> = Vec::new();
    let mut i: usize = 0;
    while i < v.len()
        invariant
            i <= v@.len(),
            r@.len() == 4 * i,
            forall|j: int| 0 <= j < 4 * i ==> #[trigger] r@[j] == byte_of(v@[j / 4], j % 4),
        decreases v@.len() - i,
    {
        let w = v[i];
        r.push((w & 0xff) as u8);
        r.push(((w >> 8u32) & 0xff) as u8);
        r.push(((w >> 16u32) & 0xff) as u8);
        r.push(((w >> 24u32) & 0xff) as u8);
        assert forall|j: int| 0 <= j < 4 * (i + 1) implies #[trigger] r@[j] == byte_of(v@[j / 4], j % 4) by {
            if j >= 4 * i {
                lemma_index_split(i as int, j - 4 * i);
            }
        }
        i = i + 1;
    }
    assert(r@ =~= le_bytes(v@));
    r
}

/// The embedding read back from its stored bytes.
pub fn decode_embedding(b: &[u8]) -> (r: Vec<u32>)
    ensures
        r@ == le_words(b@),
{
    let n = b.len() / 4;
    assert(b@.len() == b.len());
    let mut r: Vec<u32> = Vec::new();
    let mut i: usize = 0;
    while i < n
        invariant
            n == b@.len() / 4,
            b@.len() <= usize::MAX,
            i <= n,
            r@.len() == i,
            forall|j: int| 0 <= j < i ==> #[trigger] r@[j] == le_words(b@)[j],
        decreases n - i,
    {
        assert(4 * i + 3 < b@.len()) by (nonlinear_arith)
            requires i < n, n == b@.len() / 4;
        let k = 4 * i;
        let w = (b[k] as u32) | ((b[k + 1] as u32) << 8u32) | ((b[k + 2] as u32) << 16u32) | ((b[k + 3] as u32) << 24u32);
        r.push(w);
        i = i + 1;
    }
    assert(r@ =~= le_words(b@));
    r
}

} // verus!
