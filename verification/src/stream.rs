//! The stream transform: sealing and opening whole streams chunk by
//! chunk.
//!
//! Chunk `i` of a stream is sealed under the nonce derived from the
//! session's base nonce, the counter value `i`, and a flag that is set on
//! the final chunk alone. Encryption and decryption agree byte-exactly on
//! the chunk size, the nonce derivation and the tag placement, so
//! decrypting an encrypted stream under the same handle restores the
//! plaintext, and any reordering, truncation or splicing of sealed chunks
//! leaves some chunk that no longer authenticates.

use vstd::prelude::*;

use crate::bytes::{append_bytes, copy_range};
use crate::chunks::{lemma_chunks_empty, lemma_chunks_index, spec_chunks};
use crate::cipher::{open_sealed, seal, sealed};
use crate::error::GaiaError;
use crate::handle::{generate_handle, Handle};
use crate::nonce::{chunk_nonce, derive_nonce};
use crate::{BUF_SIZE, COUNTER_MAX, TAG_SIZE};

verus! {

/// The sealed form of the chunk at position `counter`.
pub open spec fn spec_seal_chunk(
    key: Seq<u8>,
    base: Seq<u8>,
    counter: u32,
    last: bool,
    plaintext: Seq<u8>,
) -> Seq<u8> {
    sealed(key, chunk_nonce(base, counter, last), plaintext)
}

/// The concatenated sealed forms of the chunks `cs`, with counter values
/// rising from `c0`.
pub open spec fn spec_seal_chunks_from(
    key: Seq<u8>,
    base: Seq<u8>,
    cs: Seq<(Seq<u8>, bool)>,
    c0: int,
) -> Seq<u8>
    decreases cs.len(),
{
    if cs.len() == 0 {
        Seq::empty()
    } else {
        spec_seal_chunk(key, base, c0 as u32, cs[0].1, cs[0].0) + spec_seal_chunks_from(
            key,
            base,
            cs.drop_first(),
            c0 + 1,
        )
    }
}

/// The whole ciphertext stream for `input`: its chunks sealed in order,
/// counters starting at zero.
pub open spec fn spec_encrypt_stream(key: Seq<u8>, base: Seq<u8>, input: Seq<u8>) -> Seq<u8> {
    spec_seal_chunks_from(key, base, spec_chunks(input, BUF_SIZE as nat), 0)
}

/// The longest plaintext stream whose chunk counters fit the 31-bit
/// counter field.
pub open spec fn max_plaintext_len() -> int {
    (COUNTER_MAX as int + 1) * (BUF_SIZE as int)
}

/// The longest ciphertext stream whose chunk counters fit the 31-bit
/// counter field.
pub open spec fn max_ciphertext_len() -> int {
    (COUNTER_MAX as int + 1) * ((BUF_SIZE + TAG_SIZE) as int)
}

/// The concatenated sealed forms of a run of full-sized, non-final
/// blocks: `data` is cut into consecutive [`BUF_SIZE`]-byte blocks, each
/// sealed without the last-chunk flag, counters rising from `c0`.
/// Meaningful only when `data`'s length is a multiple of [`BUF_SIZE`].
pub open spec fn spec_seal_blocks(key: Seq<u8>, base: Seq<u8>, data: Seq<u8>, c0: int) -> Seq<u8>
    decreases data.len(),
{
    if data.len() >= BUF_SIZE {
        spec_seal_chunk(key, base, c0 as u32, false, data.take(BUF_SIZE as int))
            + spec_seal_blocks(key, base, data.skip(BUF_SIZE as int), c0 + 1)
    } else {
        Seq::empty()
    }
}

/// Sealing one more full block extends the sealed run at its end.
pub proof fn lemma_seal_blocks_snoc(
    key: Seq<u8>,
    base: Seq<u8>,
    data: Seq<u8>,
    block: Seq<u8>,
    c0: int,
    k: int,
)
    requires
        k >= 0,
        data.len() == k * BUF_SIZE,
        block.len() == BUF_SIZE,
    ensures
        spec_seal_blocks(key, base, data + block, c0) == spec_seal_blocks(key, base, data, c0)
            + spec_seal_chunk(key, base, (c0 + k) as u32, false, block),
    decreases k,
{
    let b = BUF_SIZE as int;
    if k == 0 {
        assert(data + block =~= block);
        assert(block.take(b) =~= block);
        assert(block.skip(b) =~= Seq::<u8>::empty());
        assert(spec_seal_blocks(key, base, block.skip(b), c0 + 1) == Seq::<u8>::empty());
        assert(spec_seal_blocks(key, base, data + block, c0) =~= spec_seal_chunk(
            key,
            base,
            c0 as u32,
            false,
            block,
        ));
        assert(spec_seal_blocks(key, base, data, c0) == Seq::<u8>::empty());
        assert(spec_seal_blocks(key, base, data, c0) + spec_seal_chunk(
            key,
            base,
            (c0 + 0) as u32,
            false,
            block,
        ) =~= spec_seal_chunk(key, base, c0 as u32, false, block));
    } else {
        assert(k * b >= 1 * b) by (nonlinear_arith)
            requires
                k >= 1,
                b >= 0,
        ;
        assert((data + block).take(b) =~= data.take(b));
        assert((data + block).skip(b) =~= data.skip(b) + block);
        assert(data.skip(b).len() == (k - 1) * b) by (nonlinear_arith)
            requires
                data.len() == k * b,
                data.skip(b).len() == data.len() - b,
        ;
        lemma_seal_blocks_snoc(key, base, data.skip(b), block, c0 + 1, k - 1);
        assert(c0 + 1 + (k - 1) == c0 + k);
        assert(spec_seal_blocks(key, base, data + block, c0) =~= spec_seal_blocks(
            key,
            base,
            data,
            c0,
        ) + spec_seal_chunk(key, base, (c0 + k) as u32, false, block));
    }
}

/// A stream's sealed form decomposes as a run of full non-final blocks
/// followed by one final chunk: this is how encryption lays a stream of
/// `k` full blocks and a short remainder out on the wire.
pub proof fn lemma_stream_decompose(
    key: Seq<u8>,
    base: Seq<u8>,
    data: Seq<u8>,
    tail: Seq<u8>,
    c0: int,
    k: int,
)
    requires
        k >= 0,
        data.len() == k * BUF_SIZE,
        tail.len() <= BUF_SIZE,
        data.len() > 0 ==> tail.len() >= 1,
    ensures
        spec_seal_chunks_from(key, base, spec_chunks(data + tail, BUF_SIZE as nat), c0)
            == spec_seal_blocks(key, base, data, c0) + spec_seal_chunk(
            key,
            base,
            (c0 + k) as u32,
            true,
            tail,
        ),
    decreases k,
{
    let b = BUF_SIZE as int;
    let w = BUF_SIZE as nat;
    if k == 0 {
        assert(data + tail =~= tail);
        assert(spec_chunks(tail, w) == seq![(tail, true)]);
        let cs = seq![(tail, true)];
        assert(cs.drop_first() =~= Seq::<(Seq<u8>, bool)>::empty());
        assert(spec_seal_chunks_from(key, base, cs.drop_first(), c0 + 1) == Seq::<u8>::empty());
        assert(spec_seal_chunks_from(key, base, cs, c0) =~= spec_seal_chunk(
            key,
            base,
            c0 as u32,
            true,
            tail,
        ));
        assert(spec_seal_blocks(key, base, data, c0) == Seq::<u8>::empty());
        assert(spec_seal_blocks(key, base, data, c0) + spec_seal_chunk(
            key,
            base,
            (c0 + 0) as u32,
            true,
            tail,
        ) =~= spec_seal_chunk(key, base, c0 as u32, true, tail));
    } else {
        assert(k * b >= 1 * b) by (nonlinear_arith)
            requires
                k >= 1,
                b >= 0,
        ;
        let whole = data + tail;
        assert(whole.len() > b);
        assert(whole.take(b) =~= data.take(b));
        assert(whole.skip(b) =~= data.skip(b) + tail);
        assert(data.skip(b).len() == (k - 1) * b) by (nonlinear_arith)
            requires
                data.len() == k * b,
                data.skip(b).len() == data.len() - b,
        ;
        lemma_stream_decompose(key, base, data.skip(b), tail, c0 + 1, k - 1);
        let cs = spec_chunks(whole, w);
        assert(cs == seq![(whole.take(b), false)] + spec_chunks(whole.skip(b), w));
        assert(cs.drop_first() =~= spec_chunks(whole.skip(b), w));
        assert(cs[0] == (whole.take(b), false));
        assert(c0 + 1 + (k - 1) == c0 + k);
        assert(spec_seal_chunks_from(key, base, cs, c0) =~= spec_seal_blocks(key, base, data, c0)
            + spec_seal_chunk(key, base, (c0 + k) as u32, true, tail));
    }
}

/// One step of the sealed stream, seen from chunk position `c`: the
/// sealed chunk at `c` followed by the rest.
pub proof fn lemma_seal_chunks_from_unfold(
    key: Seq<u8>,
    base: Seq<u8>,
    cs: Seq<(Seq<u8>, bool)>,
    c: int,
)
    requires
        0 <= c < cs.len(),
    ensures
        spec_seal_chunks_from(key, base, cs.skip(c), c) == spec_seal_chunk(
            key,
            base,
            c as u32,
            cs[c].1,
            cs[c].0,
        ) + spec_seal_chunks_from(key, base, cs.skip(c + 1), c + 1),
{
    let rest = cs.skip(c);
    assert(rest.len() > 0);
    assert(rest[0] == cs[c]);
    assert(rest.drop_first() =~= cs.skip(c + 1));
}

/// A sealed chunk is its plaintext plus one tag: every non-final
/// ciphertext chunk is exactly `BUF_SIZE + TAG_SIZE` bytes, and the
/// final one is its plaintext remainder plus `TAG_SIZE`.
pub proof fn lemma_sealed_chunk_len(
    key: Seq<u8>,
    base: Seq<u8>,
    counter: u32,
    last: bool,
    plaintext: Seq<u8>,
)
    ensures
        spec_seal_chunk(key, base, counter, last, plaintext).len() == plaintext.len() + TAG_SIZE,
{
}

/// Encrypting the empty stream produces exactly one chunk: the empty
/// final chunk, sealed at counter zero, `TAG_SIZE` bytes on the wire.
pub proof fn lemma_empty_stream_framing(key: Seq<u8>, base: Seq<u8>)
    ensures
        spec_encrypt_stream(key, base, Seq::empty()) == spec_seal_chunk(
            key,
            base,
            0,
            true,
            Seq::empty(),
        ),
        spec_encrypt_stream(key, base, Seq::empty()).len() == TAG_SIZE,
{
    lemma_chunks_empty(BUF_SIZE as nat);
    let cs = spec_chunks(Seq::<u8>::empty(), BUF_SIZE as nat);
    assert(cs == seq![(Seq::<u8>::empty(), true)]);
    assert(cs.drop_first() =~= Seq::<(Seq<u8>, bool)>::empty());
    assert(spec_seal_chunks_from(key, base, cs.drop_first(), 1) == Seq::<u8>::empty());
    assert(spec_encrypt_stream(key, base, Seq::empty()) =~= spec_seal_chunk(
        key,
        base,
        0,
        true,
        Seq::empty(),
    ));
}

/// Where the next window of an honest ciphertext lies, seen from chunk
/// position `c`: before the last chunk the suffix starts with one full
/// sealed window followed by more bytes; at the last chunk the suffix is
/// exactly one final sealed window.
pub proof fn lemma_suffix_window(key: Seq<u8>, base: Seq<u8>, input: Seq<u8>, p: Seq<u8>, pos: int, c: int)
    requires
        0 <= pos <= input.len(),
        0 <= c < spec_chunks(p, BUF_SIZE as nat).len(),
        input.skip(pos) == spec_seal_chunks_from(
            key,
            base,
            spec_chunks(p, BUF_SIZE as nat).skip(c),
            c,
        ),
    ensures
        ({
            let cs = spec_chunks(p, BUF_SIZE as nat);
            let n = cs.len() as int;
            let wct = (BUF_SIZE + TAG_SIZE) as int;
            &&& (c < n - 1 ==> input.len() - pos > wct && input.subrange(pos, pos + wct)
                == spec_seal_chunk(key, base, c as u32, false, cs[c].0) && cs[c].0 == p.subrange(
                c * BUF_SIZE,
                (c + 1) * BUF_SIZE,
            ) && input.skip(pos + wct) == spec_seal_chunks_from(key, base, cs.skip(c + 1), c + 1))
            &&& (c == n - 1 ==> input.len() - pos <= wct && input.len() - pos == cs[c].0.len()
                + TAG_SIZE && input.skip(pos) == spec_seal_chunk(key, base, c as u32, true, cs[c].0)
                && cs[c].0 == p.skip(c * BUF_SIZE) && cs[c].0.len() <= BUF_SIZE && (cs[c].0.len()
                == 0 ==> p.len() == 0))
        }),
{
    let w = BUF_SIZE as nat;
    let cs = spec_chunks(p, w);
    let n = cs.len() as int;
    let wct = (BUF_SIZE + TAG_SIZE) as int;
    lemma_chunks_index(p, w);
    lemma_seal_chunks_from_unfold(key, base, cs, c);
    let piece = spec_seal_chunk(key, base, c as u32, cs[c].1, cs[c].0);
    let rest = spec_seal_chunks_from(key, base, cs.skip(c + 1), c + 1);
    assert(input.skip(pos) == piece + rest);
    assert(input.len() - pos == piece.len() + rest.len());
    if c < n - 1 {
        assert(cs[c].0 == p.subrange(c * BUF_SIZE, (c + 1) * BUF_SIZE));
        assert(cs[c].0.len() == BUF_SIZE);
        assert(!cs[c].1);
        assert(piece.len() == wct);
        lemma_seal_chunks_from_unfold(key, base, cs, c + 1);
        let piece2 = spec_seal_chunk(key, base, (c + 1) as u32, cs[c + 1].1, cs[c + 1].0);
        assert(rest == piece2 + spec_seal_chunks_from(key, base, cs.skip(c + 2), c + 2));
        assert(rest.len() >= piece2.len());
        assert(piece2.len() >= TAG_SIZE);
        assert(input.len() - pos > wct);
        assert(input.subrange(pos, pos + wct) =~= piece) by {
            assert(forall|i: int|
                0 <= i < wct ==> input.skip(pos)[i] == (piece + rest)[i] && (piece + rest)[i]
                    == piece[i]);
        }
        assert(input.skip(pos + wct) =~= rest) by {
            assert(forall|i: int|
                0 <= i < rest.len() ==> input.skip(pos + wct)[i] == input.skip(pos)[wct + i]
                    && (piece + rest)[wct + i] == rest[i]);
        }
    } else {
        assert(c == n - 1);
        assert(cs[c] == cs.last());
        assert(cs[c].1);
        assert(cs[c].0 == p.skip(c * BUF_SIZE));
        assert(cs[c].0.len() <= BUF_SIZE);
        assert(cs.skip(c + 1) =~= Seq::<(Seq<u8>, bool)>::empty());
        assert(rest == Seq::<u8>::empty());
        assert(input.skip(pos) =~= piece);
        assert(piece.len() == cs[c].0.len() + TAG_SIZE);
        if cs[c].0.len() == 0 {
            assert(p.len() == (n - 1) * BUF_SIZE + 0);
            if p.len() > 0 {
                assert(cs.last().0.len() >= 1);
                assert(false);
            }
        }
    }
}

/// Seals one chunk at position `counter`. The driving adapter decides
/// `last`; the counter advances only in the caller.
pub fn encrypt_chunk(handle: &Handle, counter: u32, last: bool, plaintext: &Vec<u8>) -> (r: Vec<u8>)
    requires
        handle.wf(),
        counter <= COUNTER_MAX,
        plaintext@.len() <= BUF_SIZE,
    ensures
        r@ == spec_seal_chunk(handle.key@, handle.base_nonce@, counter, last, plaintext@),
        r@.len() == plaintext@.len() + TAG_SIZE,
{
    let nonce = derive_nonce(&handle.base_nonce, counter, last);
    match seal(&handle.key, &nonce, plaintext) {
        Ok(c) => c,
        Err(_) => Vec::new(),
    }
}

/// Opens one sealed chunk at position `counter`, verifying its tag.
/// Success is owed exactly when the bytes are the sealing of some
/// plaintext under this handle, counter and flag; the result is then that
/// plaintext. Any other bytes give an authentication failure.
pub fn decrypt_chunk(handle: &Handle, counter: u32, last: bool, ciphertext: &Vec<u8>) -> (r: Result<
    Vec<u8>,
    GaiaError,
>)
    requires
        handle.wf(),
        counter <= COUNTER_MAX,
        ciphertext@.len() <= BUF_SIZE + TAG_SIZE,
    ensures
        r matches Ok(p) ==> ciphertext@ == spec_seal_chunk(
            handle.key@,
            handle.base_nonce@,
            counter,
            last,
            p@,
        ),
        r is Err ==> forall|q: Seq<u8>|
            ciphertext@ != spec_seal_chunk(handle.key@, handle.base_nonce@, counter, last, q),
        r matches Ok(p) ==> forall|q: Seq<u8>|
            ciphertext@ == spec_seal_chunk(handle.key@, handle.base_nonce@, counter, last, q)
                ==> p@ == q,
        r matches Err(e) ==> e == GaiaError::Decrypting,
{
    let nonce = derive_nonce(&handle.base_nonce, counter, last);
    open_sealed(&handle.key, &nonce, ciphertext)
}

/// Encrypts a whole in-memory stream under the given handle: the stream's
/// chunks sealed in order, counters from zero, the flag set on the final
/// chunk alone. Every chunk but the last yields exactly
/// `BUF_SIZE + TAG_SIZE` ciphertext bytes.
pub fn encrypt_with_handle(handle: &Handle, input: &Vec<u8>) -> (r: Vec<u8>)
    requires
        handle.wf(),
        input@.len() <= max_plaintext_len(),
    ensures
        r@ == spec_encrypt_stream(handle.key@, handle.base_nonce@, input@),
        r@.len() == input@.len() + TAG_SIZE * spec_chunks(input@, BUF_SIZE as nat).len(),
        r@.len() <= max_ciphertext_len(),
{
    let ghost key = handle.key@;
    let ghost base = handle.base_nonce@;
    let ghost w = BUF_SIZE as nat;
    let mut out: Vec<u8> = Vec::new();
    let mut pos: usize = 0;
    let mut counter: u32 = 0;
    proof {
        assert(input@.skip(0) =~= input@);
        assert(out@ + spec_seal_chunks_from(key, base, spec_chunks(input@, w), 0) =~= spec_encrypt_stream(key, base, input@));
    }
    loop
        invariant
            handle.wf(),
            handle.key@ == key,
            handle.base_nonce@ == base,
            w == BUF_SIZE as nat,
            input@.len() <= max_plaintext_len(),
            pos == counter as int * BUF_SIZE,
            pos < input@.len() || (pos == 0 && counter == 0),
            out@.len() == pos + counter as int * TAG_SIZE,
            out@ + spec_seal_chunks_from(key, base, spec_chunks(input@.skip(pos as int), w), counter as int) == spec_encrypt_stream(key, base, input@),
            counter as int + spec_chunks(input@.skip(pos as int), w).len() == spec_chunks(input@, w).len(),
        decreases input@.len() - pos,
    {
        proof {
            if pos < input@.len() {
                assert(counter as int * BUF_SIZE < (COUNTER_MAX as int + 1) * (BUF_SIZE as int));
                assert((counter as int) < COUNTER_MAX as int + 1) by (nonlinear_arith)
                    requires
                        counter as int * (BUF_SIZE as int) < (COUNTER_MAX as int + 1) * (
                        BUF_SIZE as int),
                        BUF_SIZE as int >= 1,
                ;
            }
        }
        let remaining = input.len() - pos;
        if remaining > BUF_SIZE {
            let chunk = copy_range(input, pos, pos + BUF_SIZE);
            let sealed_chunk = encrypt_chunk(handle, counter, false, &chunk);
            proof {
                let b = BUF_SIZE as int;
                let suffix = input@.skip(pos as int);
                let cs = spec_chunks(suffix, w);
                assert(suffix.len() > BUF_SIZE);
                assert(cs == seq![(suffix.take(b), false)] + spec_chunks(suffix.skip(b), w));
                assert(chunk@ =~= suffix.take(b));
                assert(cs[0] == (suffix.take(b), false));
                assert(cs.drop_first() =~= spec_chunks(suffix.skip(b), w));
                assert(spec_seal_chunks_from(key, base, cs, counter as int) == sealed_chunk@
                    + spec_seal_chunks_from(key, base, spec_chunks(suffix.skip(b), w), counter as int + 1));
                assert(suffix.skip(b) =~= input@.skip(pos as int + b));
                assert((out@ + sealed_chunk@) + spec_seal_chunks_from(
                    key,
                    base,
                    spec_chunks(input@.skip(pos as int + b), w),
                    counter as int + 1,
                ) =~= out@ + spec_seal_chunks_from(key, base, cs, counter as int));
            }
            append_bytes(&mut out, &sealed_chunk);
            pos = pos + BUF_SIZE;
            counter = counter + 1;
        } else {
            let chunk = copy_range(input, pos, input.len());
            let sealed_chunk = encrypt_chunk(handle, counter, true, &chunk);
            proof {
                let suffix = input@.skip(pos as int);
                let cs = spec_chunks(suffix, w);
                assert(suffix.len() <= BUF_SIZE);
                assert(cs == seq![(suffix, true)]);
                assert(chunk@ =~= suffix);
                assert(cs.drop_first() =~= Seq::<(Seq<u8>, bool)>::empty());
                assert(spec_seal_chunks_from(key, base, cs.drop_first(), counter as int + 1)
                    == Seq::<u8>::empty());
                assert(spec_seal_chunks_from(key, base, cs, counter as int) =~= sealed_chunk@);
                assert(out@ + sealed_chunk@ == spec_encrypt_stream(key, base, input@));
            }
            append_bytes(&mut out, &sealed_chunk);
            return out;
        }
    }
}

/// Decrypts a whole in-memory ciphertext stream under the given handle.
///
/// Success is owed exactly when the bytes are the encryption of some
/// plaintext stream under this handle; the result is then that plaintext,
/// so a round trip through [`encrypt_with_handle`] and `decrypt` restores
/// the input exactly. Any other bytes — a flipped bit, a reordered,
/// dropped or duplicated chunk, a truncation, a different handle — give
/// an authentication failure, and no plaintext at all is released. A
/// zero-length final chunk is accepted only as the framing of the empty
/// stream, the only framing encryption produces for it.
pub fn decrypt(input: &Vec<u8>, handle: &Handle) -> (r: Result<Vec<u8>, GaiaError>)
    requires
        handle.wf(),
        input@.len() <= max_ciphertext_len(),
    ensures
        r matches Ok(p) ==> input@ == spec_encrypt_stream(handle.key@, handle.base_nonce@, p@),
        forall|p: Seq<u8>|
            input@ == spec_encrypt_stream(handle.key@, handle.base_nonce@, p) ==> r is Ok
                && r->Ok_0@ == p,
        r matches Err(e) ==> e == GaiaError::Decrypting,
{
    let ghost key = handle.key@;
    let ghost base = handle.base_nonce@;
    let ghost w = BUF_SIZE as nat;
    let wct: usize = BUF_SIZE + TAG_SIZE;
    let mut out: Vec<u8> = Vec::new();
    let mut pos: usize = 0;
    let mut counter: u32 = 0;
    proof {
        assert(input@.take(0) =~= Seq::<u8>::empty());
        assert(input@.skip(0) =~= input@);
        assert(spec_seal_blocks(key, base, out@, 0) == Seq::<u8>::empty());
        assert forall|p: Seq<u8>| input@ == spec_encrypt_stream(key, base, p) implies out@
            == p.take(0) && input@.skip(0) == spec_seal_chunks_from(
            key,
            base,
            spec_chunks(p, w).skip(0),
            0,
        ) && 0 < spec_chunks(p, w).len() by {
            assert(p.take(0) =~= Seq::<u8>::empty());
            assert(spec_chunks(p, w).skip(0) =~= spec_chunks(p, w));
            lemma_chunks_index(p, w);
        }
    }
    loop
        invariant
            handle.wf(),
            handle.key@ == key,
            handle.base_nonce@ == base,
            w == BUF_SIZE as nat,
            wct == BUF_SIZE + TAG_SIZE,
            input@.len() <= max_ciphertext_len(),
            pos == counter as int * (BUF_SIZE + TAG_SIZE),
            pos < input@.len() || (pos == 0 && counter == 0),
            out@.len() == counter as int * BUF_SIZE,
            input@.take(pos as int) == spec_seal_blocks(key, base, out@, 0),
            forall|p: Seq<u8>|
                input@ == spec_encrypt_stream(key, base, p) ==> out@ == p.take(
                    counter as int * BUF_SIZE,
                ) && input@.skip(pos as int) == spec_seal_chunks_from(
                    key,
                    base,
                    spec_chunks(p, w).skip(counter as int),
                    counter as int,
                ) && (counter as int) < spec_chunks(p, w).len(),
        decreases input@.len() - pos,
    {
        proof {
            if pos < input@.len() {
                assert((counter as int) < COUNTER_MAX as int + 1) by (nonlinear_arith)
                    requires
                        counter as int * ((BUF_SIZE + TAG_SIZE) as int) < (COUNTER_MAX as int + 1)
                            * ((BUF_SIZE + TAG_SIZE) as int),
                        (BUF_SIZE + TAG_SIZE) as int >= 1,
                ;
            }
        }
        let remaining = input.len() - pos;
        if remaining > wct {
            let window = copy_range(input, pos, pos + wct);
            let res = decrypt_chunk(handle, counter, false, &window);
            let ghost c = counter as int;
            match res {
                Ok(block) => {
                    proof {
                        assert(window@ == spec_seal_chunk(key, base, counter, false, block@));
                        assert(window@.len() == block@.len() + TAG_SIZE);
                        assert(block@.len() == BUF_SIZE);
                        assert(input@.take(pos as int + wct as int) =~= input@.take(pos as int)
                            + window@);
                        lemma_seal_blocks_snoc(key, base, out@, block@, 0, c);
                        assert forall|p: Seq<u8>| input@ == spec_encrypt_stream(key, base, p)
                            implies (out@ + block@) == p.take((c + 1) * BUF_SIZE) && input@.skip(
                            pos as int + wct as int,
                        ) == spec_seal_chunks_from(
                            key,
                            base,
                            spec_chunks(p, w).skip(c + 1),
                            c + 1,
                        ) && c + 1 < spec_chunks(p, w).len() by {
                            let cs = spec_chunks(p, w);
                            let n = cs.len() as int;
                            lemma_chunks_index(p, w);
                            lemma_suffix_window(key, base, input@, p, pos as int, c);
                            if c == n - 1 {
                                assert(input@.len() - pos <= wct);
                                assert(false);
                            }
                            assert(window@ == spec_seal_chunk(key, base, counter, false, cs[c].0));
                            assert(block@ == cs[c].0);
                            assert((c + 1) * BUF_SIZE == c * BUF_SIZE + BUF_SIZE);
                            assert((c + 1) * BUF_SIZE <= (n - 1) * BUF_SIZE) by (nonlinear_arith)
                                requires
                                    c + 1 <= n - 1,
                                    BUF_SIZE as int >= 0,
                            ;
                            assert((n - 1) * (BUF_SIZE as nat) + cs.last().0.len() == p.len());
                            assert(p.take((c + 1) * BUF_SIZE) =~= p.take(c * BUF_SIZE) + p.subrange(
                                c * BUF_SIZE,
                                (c + 1) * BUF_SIZE,
                            ));
                        }
                    }
                    proof {
                        assert((c + 1) * ((BUF_SIZE + TAG_SIZE) as int) == c * ((BUF_SIZE
                            + TAG_SIZE) as int) + (BUF_SIZE + TAG_SIZE)) by (nonlinear_arith);
                        assert((c + 1) * (BUF_SIZE as int) == c * (BUF_SIZE as int)
                            + BUF_SIZE) by (nonlinear_arith);
                    }
                    append_bytes(&mut out, &block);
                    pos = pos + wct;
                    counter = counter + 1;
                },
                Err(_) => {
                    proof {
                        assert forall|p: Seq<u8>|
                            input@ != spec_encrypt_stream(key, base, p) by {
                            if input@ == spec_encrypt_stream(key, base, p) {
                                let cs = spec_chunks(p, w);
                                let n = cs.len() as int;
                                lemma_suffix_window(key, base, input@, p, pos as int, c);
                                if c == n - 1 {
                                    assert(input@.len() - pos <= wct);
                                    assert(false);
                                }
                                assert(window@ == spec_seal_chunk(
                                    key,
                                    base,
                                    counter,
                                    false,
                                    cs[c].0,
                                ));
                                assert(false);
                            }
                        }
                    }
                    return Err(GaiaError::Decrypting);
                },
            }
        } else {
            let window = copy_range(input, pos, input.len());
            let res = decrypt_chunk(handle, counter, true, &window);
            let ghost c = counter as int;
            match res {
                Ok(tail_pt) => {
                    if tail_pt.len() == 0 && counter > 0 {
                        proof {
                            assert forall|p: Seq<u8>|
                                input@ != spec_encrypt_stream(key, base, p) by {
                                if input@ == spec_encrypt_stream(key, base, p) {
                                    let cs = spec_chunks(p, w);
                                    let n = cs.len() as int;
                                    lemma_chunks_index(p, w);
                                    lemma_suffix_window(key, base, input@, p, pos as int, c);
                                    if c < n - 1 {
                                        assert(input@.len() - pos > wct);
                                        assert(false);
                                    }
                                    assert(window@ =~= input@.skip(pos as int));
                                    assert(window@ == spec_seal_chunk(
                                        key,
                                        base,
                                        counter,
                                        true,
                                        cs[c].0,
                                    ));
                                    assert(tail_pt@ == cs[c].0);
                                    assert(cs[c].0.len() == 0 && p.len() == 0);
                                    assert(n == 1 && c > 0);
                                    assert(false);
                                }
                            }
                        }
                        return Err(GaiaError::Decrypting);
                    }
                    proof {
                        assert(window@ =~= input@.skip(pos as int));
                        assert(window@ == spec_seal_chunk(key, base, counter, true, tail_pt@));
                        assert(window@.len() == tail_pt@.len() + TAG_SIZE);
                        assert(tail_pt@.len() <= BUF_SIZE);
                        lemma_stream_decompose(key, base, out@, tail_pt@, 0, c);
                        assert(input@ =~= input@.take(pos as int) + window@);
                        assert(input@ == spec_encrypt_stream(key, base, out@ + tail_pt@));
                        assert forall|p: Seq<u8>| input@ == spec_encrypt_stream(key, base, p)
                            implies (out@ + tail_pt@) == p by {
                            let cs = spec_chunks(p, w);
                            let n = cs.len() as int;
                            lemma_chunks_index(p, w);
                            lemma_suffix_window(key, base, input@, p, pos as int, c);
                            if c < n - 1 {
                                assert(input@.len() - pos > wct);
                                assert(false);
                            }
                            assert(window@ == spec_seal_chunk(key, base, counter, true, cs[c].0));
                            assert(tail_pt@ == cs[c].0);
                            assert(cs[c].0 == p.skip(c * BUF_SIZE));
                            assert(out@ + tail_pt@ =~= p.take(c * BUF_SIZE) + p.skip(
                                c * BUF_SIZE,
                            ));
                            assert(p.take(c * BUF_SIZE) + p.skip(c * BUF_SIZE) =~= p);
                        }
                    }
                    append_bytes(&mut out, &tail_pt);
                    return Ok(out);
                },
                Err(_) => {
                    proof {
                        assert forall|p: Seq<u8>|
                            input@ != spec_encrypt_stream(key, base, p) by {
                            if input@ == spec_encrypt_stream(key, base, p) {
                                let cs = spec_chunks(p, w);
                                let n = cs.len() as int;
                                lemma_suffix_window(key, base, input@, p, pos as int, c);
                                if c < n - 1 {
                                    assert(input@.len() - pos > wct);
                                    assert(false);
                                }
                                assert(window@ =~= input@.skip(pos as int));
                                assert(window@ == spec_seal_chunk(
                                    key,
                                    base,
                                    counter,
                                    true,
                                    cs[c].0,
                                ));
                                assert(false);
                            }
                        }
                    }
                    return Err(GaiaError::Decrypting);
                },
            }
        }
    }
}

/// Encrypts a whole in-memory stream under a freshly generated handle,
/// returning the ciphertext together with the handle that decrypts it.
/// Fails only if the system randomness source does.
pub fn encrypt(input: &Vec<u8>) -> (r: Result<(Vec<u8>, Handle), GaiaError>)
    requires
        input@.len() <= max_plaintext_len(),
    ensures
        r matches Ok((c, h)) ==> h.wf() && c@ == spec_encrypt_stream(h.key@, h.base_nonce@, input@)
            && c@.len() <= max_ciphertext_len(),
        r matches Err(e) ==> e == GaiaError::Encrypting,
{
    let handle = match generate_handle() {
        Some(h) => h,
        None => {
            return Err(GaiaError::Encrypting);
        },
    };
    let ciphertext = encrypt_with_handle(&handle, input);
    Ok((ciphertext, handle))
}

} // verus!
