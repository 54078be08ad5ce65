//! Per-chunk nonce derivation.
//!
//! The full cipher nonce for a chunk is the session's base nonce followed
//! by one little-endian 32-bit word holding the chunk counter in its low
//! 31 bits and the last-chunk flag in its top bit. Within one session no
//! two chunks ever share a nonce: the counter increases strictly, and the
//! flag separates a final chunk from a non-final chunk with the same
//! counter value.

use vstd::prelude::*;

use crate::{BASE_NONCE_SIZE, COUNTER_MAX, NONCE_SIZE};

verus! {

/// The trailing nonce word: the counter with the last-chunk flag as the
/// top bit.
pub open spec fn counter_word(counter: u32, last: bool) -> u32 {
    counter | (if last {
        0x8000_0000u32
    } else {
        0u32
    })
}

/// The four bytes of `w`, least significant first.
pub open spec fn le_word_bytes(w: u32) -> Seq<u8> {
    seq![
        (w & 0xff) as u8,
        ((w >> 8) & 0xff) as u8,
        ((w >> 16) & 0xff) as u8,
        ((w >> 24) & 0xff) as u8,
    ]
}

/// The full nonce of the chunk at position `counter`: the base nonce
/// followed by the little-endian counter word.
pub open spec fn chunk_nonce(base: Seq<u8>, counter: u32, last: bool) -> Seq<u8> {
    base + le_word_bytes(counter_word(counter, last))
}

/// Derives the cipher nonce for one chunk.
pub fn derive_nonce(base: &Vec<u8>, counter: u32, last: bool) -> (r: Vec<u8>)
    requires
        base@.len() == BASE_NONCE_SIZE,
        counter <= COUNTER_MAX,
    ensures
        r@ == chunk_nonce(base@, counter, last),
        r@.len() == NONCE_SIZE,
{
    let word: u32 = counter | (if last {
        0x8000_0000u32
    } else {
        0u32
    });
    let mut r: Vec<u8> = Vec::new();
    let mut i: usize = 0;
    while i < base.len()
        invariant
            i <= base@.len(),
            base@.len() == BASE_NONCE_SIZE,
            r@ == base@.subrange(0, i as int),
        decreases base@.len() - i,
    {
        r.push(base[i]);
        i = i + 1;
    }
    proof {
        assert(r@ =~= base@);
    }
    r.push((word & 0xff) as u8);
    r.push(((word >> 8) & 0xff) as u8);
    r.push(((word >> 16) & 0xff) as u8);
    r.push(((word >> 24) & 0xff) as u8);
    proof {
        assert(r@ =~= chunk_nonce(base@, counter, last));
    }
    r
}

/// Distinct (counter, flag) pairs give distinct counter words, as long as
/// the counters leave the top bit free.
pub proof fn lemma_counter_word_injective(c1: u32, l1: bool, c2: u32, l2: bool)
    requires
        c1 <= COUNTER_MAX,
        c2 <= COUNTER_MAX,
        c1 != c2 || l1 != l2,
    ensures
        counter_word(c1, l1) != counter_word(c2, l2),
{
    if l1 == l2 {
        if l1 {
            assert((c1 | 0x8000_0000u32) != (c2 | 0x8000_0000u32)) by (bit_vector)
                requires
                    c1 <= 0x7fff_ffffu32,
                    c2 <= 0x7fff_ffffu32,
                    c1 != c2,
            ;
        } else {
            assert((c1 | 0u32) != (c2 | 0u32)) by (bit_vector)
                requires
                    c1 != c2,
            ;
        }
    } else if l1 {
        assert((c1 | 0x8000_0000u32) != (c2 | 0u32)) by (bit_vector)
            requires
                c2 <= 0x7fff_ffffu32,
        ;
    } else {
        assert((c1 | 0u32) != (c2 | 0x8000_0000u32)) by (bit_vector)
            requires
                c1 <= 0x7fff_ffffu32,
        ;
    }
}

/// The little-endian byte encoding of a 32-bit word is injective.
pub proof fn lemma_le_word_bytes_injective(w1: u32, w2: u32)
    requires
        w1 != w2,
    ensures
        le_word_bytes(w1) != le_word_bytes(w2),
{
    if le_word_bytes(w1) == le_word_bytes(w2) {
        assert((w1 & 0xff) as u8 == (w2 & 0xff) as u8);
        assert(((w1 >> 8) & 0xff) as u8 == ((w2 >> 8) & 0xff) as u8);
        assert(((w1 >> 16) & 0xff) as u8 == ((w2 >> 16) & 0xff) as u8);
        assert(((w1 >> 24) & 0xff) as u8 == ((w2 >> 24) & 0xff) as u8);
        assert(w1 == w2) by (bit_vector)
            requires
                (w1 & 0xff) as u8 == (w2 & 0xff) as u8,
                ((w1 >> 8) & 0xff) as u8 == ((w2 >> 8) & 0xff) as u8,
                ((w1 >> 16) & 0xff) as u8 == ((w2 >> 16) & 0xff) as u8,
                ((w1 >> 24) & 0xff) as u8 == ((w2 >> 24) & 0xff) as u8,
        ;
    }
}

/// Within one session, distinct (counter, flag) pairs give distinct
/// nonces.
pub proof fn lemma_chunk_nonce_injective(base: Seq<u8>, c1: u32, l1: bool, c2: u32, l2: bool)
    requires
        c1 <= COUNTER_MAX,
        c2 <= COUNTER_MAX,
        c1 != c2 || l1 != l2,
    ensures
        chunk_nonce(base, c1, l1) != chunk_nonce(base, c2, l2),
{
    lemma_counter_word_injective(c1, l1, c2, l2);
    lemma_le_word_bytes_injective(counter_word(c1, l1), counter_word(c2, l2));
    if chunk_nonce(base, c1, l1) == chunk_nonce(base, c2, l2) {
        assert(le_word_bytes(counter_word(c1, l1)) =~= le_word_bytes(counter_word(c2, l2))) by {
            assert(forall|i: int|
                0 <= i < 4 ==> le_word_bytes(counter_word(c1, l1))[i] == le_word_bytes(
                    counter_word(c2, l2),
                )[i]) by {
                assert(forall|i: int|
                    0 <= i < 4 ==> chunk_nonce(base, c1, l1)[base.len() + i] == le_word_bytes(
                        counter_word(c1, l1),
                    )[i]);
            }
        }
    }
}

/// In a stream of `n` chunks the counter of chunk `i` is `i` and only the
/// final chunk carries the flag, so the nonces of any two distinct chunk
/// positions differ.
pub proof fn lemma_stream_nonces_distinct(base: Seq<u8>, n: u32, i: u32, j: u32)
    requires
        i < n,
        j < n,
        i != j,
        n as int <= COUNTER_MAX as int + 1,
    ensures
        chunk_nonce(base, i, i == n - 1) != chunk_nonce(base, j, j == n - 1),
{
    lemma_chunk_nonce_injective(base, i, i == n - 1, j, j == n - 1);
}

} // verus!
