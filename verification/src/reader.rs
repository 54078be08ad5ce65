//! The chunking reader and the two stream adapters, as event-driven
//! state machines.
//!
//! The surrounding program owns the actual byte source — blocking or
//! suspension-capable — and drives a machine by alternating two moves:
//! feed it the bytes the source produced (an empty feed reports
//! exhaustion, as a read of zero bytes does), and take whatever output is
//! ready. All decisions — where chunks end, which chunk is final, which
//! counter and flag seal each chunk — are made here, so they hold however
//! the source fragments its bytes, one byte per read or everything at
//! once.
//!
//! [`ChunkingReader`] accumulates source bytes into fixed windows. It
//! asks for one byte beyond the window: a window can only be emitted as
//! non-final once a byte beyond it has been seen, and that lookahead byte
//! stays buffered for the next window. Exhaustion before that point makes
//! the buffered bytes the final chunk — including a zero-length final
//! chunk for an empty source, which is framed, not dropped.

use vstd::prelude::*;

use crate::bytes::{append_bytes, copy_range, drop_prefix};
use crate::error::GaiaError;
use crate::handle::Handle;
use crate::stream::{
    decrypt_chunk, encrypt_chunk, lemma_seal_blocks_snoc, lemma_stream_decompose,
    spec_encrypt_stream, spec_seal_blocks, spec_seal_chunk,
};
use crate::{BUF_SIZE, COUNTER_MAX, TAG_SIZE};

verus! {

/// Accumulates bytes from a source into windows of a fixed size,
/// detecting exhaustion without ever asking the source for more than one
/// byte beyond the current window.
pub struct ChunkingReader {
    /// The window size: every chunk but the last has exactly this many
    /// bytes.
    pub window: usize,
    /// Bytes accumulated and not yet emitted; at most `window + 1`.
    pub buffer: Vec<u8>,
    /// The source has reported exhaustion.
    pub exhausted: bool,
    /// The final chunk has been emitted; nothing more will come.
    pub done: bool,
    /// Whether the most recently emitted chunk was the final one.
    /// Meaningful only immediately after [`ChunkingReader::take_chunk`].
    pub was_last: bool,
}

impl ChunkingReader {
    /// The machine's state invariant.
    pub open spec fn wf(&self) -> bool {
        &&& 1 <= self.window
        &&& self.window < usize::MAX
        &&& self.buffer@.len() <= self.window + 1
        &&& (self.exhausted ==> self.buffer@.len() <= self.window)
        &&& (self.done ==> self.exhausted && self.buffer@.len() == 0)
    }

    /// A chunk is ready: either a byte beyond a full window has been
    /// seen, or the source is exhausted and the remainder is final.
    pub open spec fn spec_ready(&self) -> bool {
        self.buffer@.len() > self.window || self.exhausted
    }

    /// A fresh reader for the given window size.
    pub fn new(window: usize) -> (r: ChunkingReader)
        requires
            1 <= window < usize::MAX,
        ensures
            r.wf(),
            r.window == window,
            r.buffer@ == Seq::<u8>::empty(),
            !r.exhausted,
            !r.done,
            !r.was_last,
    {
        ChunkingReader { window, buffer: Vec::new(), exhausted: false, done: false, was_last: false }
    }

    /// How many bytes to request from the source next: enough to fill
    /// the window plus the one lookahead byte.
    pub fn needed(&self) -> (r: usize)
        requires
            self.wf(),
        ensures
            r == self.window + 1 - self.buffer@.len(),
    {
        self.window + 1 - self.buffer.len()
    }

    /// Whether a chunk is ready to be taken.
    pub fn ready(&self) -> (r: bool)
        requires
            self.wf(),
        ensures
            r == self.spec_ready(),
    {
        self.buffer.len() > self.window || self.exhausted
    }

    /// Whether the most recently emitted chunk was the final one.
    pub fn was_last_chunk(&self) -> (r: bool)
        ensures
            r == self.was_last,
    {
        self.was_last
    }

    /// Accepts the bytes of one source read. An empty read reports that
    /// the source is exhausted.
    pub fn feed(&mut self, bytes: &Vec<u8>)
        requires
            old(self).wf(),
            !old(self).done,
            !old(self).exhausted,
            !old(self).spec_ready(),
            bytes@.len() + old(self).buffer@.len() <= old(self).window + 1,
        ensures
            final(self).wf(),
            final(self).window == old(self).window,
            final(self).buffer@ == old(self).buffer@ + bytes@,
            final(self).exhausted == (bytes@.len() == 0),
            !final(self).done,
            final(self).was_last == old(self).was_last,
    {
        if bytes.len() == 0 {
            self.exhausted = true;
            proof {
                assert(self.buffer@ =~= self.buffer@ + bytes@);
            }
        } else {
            append_bytes(&mut self.buffer, bytes);
        }
    }

    /// Emits the ready chunk. A full window with a byte beyond it is a
    /// non-final chunk, and the lookahead byte stays for the next window;
    /// otherwise the whole remainder is the final chunk and the reader is
    /// done.
    pub fn take_chunk(&mut self) -> (r: (Vec<u8>, bool))
        requires
            old(self).wf(),
            old(self).spec_ready(),
            !old(self).done,
        ensures
            final(self).wf(),
            final(self).window == old(self).window,
            final(self).was_last == r.1,
            final(self).exhausted == old(self).exhausted,
            old(self).buffer@.len() > old(self).window ==> {
                &&& r.0@ == old(self).buffer@.take(old(self).window as int)
                &&& !r.1
                &&& final(self).buffer@ == old(self).buffer@.skip(old(self).window as int)
                &&& !final(self).done
            },
            old(self).buffer@.len() <= old(self).window ==> {
                &&& r.0@ == old(self).buffer@
                &&& r.1
                &&& final(self).buffer@ == Seq::<u8>::empty()
                &&& final(self).done
            },
    {
        if self.buffer.len() > self.window {
            let chunk = copy_range(&self.buffer, 0, self.window);
            drop_prefix(&mut self.buffer, self.window);
            self.was_last = false;
            proof {
                assert(chunk@ =~= old(self).buffer@.take(old(self).window as int));
            }
            (chunk, false)
        } else {
            let chunk = copy_range(&self.buffer, 0, self.buffer.len());
            self.buffer.clear();
            self.done = true;
            self.was_last = true;
            proof {
                assert(chunk@ =~= old(self).buffer@);
            }
            (chunk, true)
        }
    }
}

/// Presents encryption as a readable stream of ciphertext: the driving
/// program feeds plaintext bytes as its source yields them and takes
/// sealed bytes out. The machine seals one chunk the moment its window
/// completes, counters rising from zero, and retires after sealing the
/// final chunk.
pub struct EncryptingReader {
    /// The session's key material.
    pub handle: Handle,
    /// The window accumulator, with a [`BUF_SIZE`]-byte window.
    pub chunker: ChunkingReader,
    /// The counter of the next chunk to seal; counts sealed chunks.
    pub counter: u32,
    /// Sealed bytes not yet taken by the driver.
    pub pending: Vec<u8>,
    /// The final chunk has been sealed; the transform is retired.
    pub done: bool,
    /// A failure was reported; the stream is dead.
    pub failed: bool,
    /// All plaintext bytes fed so far.
    pub fed: Ghost<Seq<u8>>,
    /// All ciphertext bytes taken so far.
    pub delivered: Ghost<Seq<u8>>,
}

impl EncryptingReader {
    /// The machine's state invariant. While it holds and the machine has
    /// not failed, the ciphertext taken and pending so far is exactly the
    /// sealed form of the plaintext consumed so far; once `done`, it is
    /// the whole encrypted stream of everything fed.
    pub open spec fn wf(&self) -> bool {
        &&& self.handle.wf()
        &&& self.chunker.wf()
        &&& self.chunker.window == BUF_SIZE
        &&& (!self.failed && !self.done ==> {
            &&& !self.chunker.done
            &&& !self.chunker.exhausted
            &&& self.chunker.buffer@.len() <= BUF_SIZE
            &&& self.counter as int <= COUNTER_MAX as int + 1
            &&& (self.counter >= 1 ==> self.chunker.buffer@.len() >= 1)
            &&& self.fed@.len() == self.counter as int * BUF_SIZE + self.chunker.buffer@.len()
            &&& self.chunker.buffer@ == self.fed@.skip(self.counter as int * BUF_SIZE)
            &&& self.delivered@ + self.pending@ == spec_seal_blocks(
                self.handle.key@,
                self.handle.base_nonce@,
                self.fed@.take(self.counter as int * BUF_SIZE),
                0,
            )
        })
        &&& (!self.failed && self.done ==> self.delivered@ + self.pending@ == spec_encrypt_stream(
            self.handle.key@,
            self.handle.base_nonce@,
            self.fed@,
        ))
    }

    /// A fresh encrypting machine for one session.
    pub fn new(handle: Handle) -> (r: EncryptingReader)
        requires
            handle.wf(),
        ensures
            r.wf(),
            r.handle == handle,
            !r.done,
            !r.failed,
            r.fed@ == Seq::<u8>::empty(),
            r.delivered@ == Seq::<u8>::empty(),
            r.pending@ == Seq::<u8>::empty(),
    {
        let r = EncryptingReader {
            handle,
            chunker: ChunkingReader::new(BUF_SIZE),
            counter: 0,
            pending: Vec::new(),
            done: false,
            failed: false,
            fed: Ghost(Seq::empty()),
            delivered: Ghost(Seq::empty()),
        };
        proof {
            assert(r.fed@.take(0) =~= Seq::<u8>::empty());
            assert(r.fed@.skip(0) =~= Seq::<u8>::empty());
            assert(r.delivered@ + r.pending@ =~= Seq::<u8>::empty());
        }
        r
    }

    /// How many plaintext bytes to request from the source next.
    pub fn needed_input(&self) -> (r: usize)
        requires
            self.wf(),
            !self.done,
            !self.failed,
        ensures
            r == BUF_SIZE + 1 - self.chunker.buffer@.len(),
            r >= 1,
    {
        self.chunker.needed()
    }

    /// Accepts the bytes of one source read; an empty read reports that
    /// the source is exhausted and seals the final chunk. Success is
    /// owed unless this read completes a chunk — fills the window and
    /// its lookahead byte, or ends the source — while the stream has
    /// already outgrown the 31-bit chunk counter; sealing itself cannot
    /// fail.
    pub fn feed_input(&mut self, bytes: &Vec<u8>) -> (r: Result<(), GaiaError>)
        requires
            old(self).wf(),
            !old(self).done,
            !old(self).failed,
            bytes@.len() + old(self).chunker.buffer@.len() <= BUF_SIZE + 1,
        ensures
            final(self).wf(),
            final(self).handle == old(self).handle,
            final(self).delivered@ == old(self).delivered@,
            r is Ok <==> !((bytes@.len() == 0 || bytes@.len() + old(self).chunker.buffer@.len()
                > BUF_SIZE) && old(self).counter > COUNTER_MAX),
            r is Ok ==> {
                &&& !final(self).failed
                &&& final(self).fed@ == old(self).fed@ + bytes@
                &&& (final(self).done <==> bytes@.len() == 0)
            },
            r matches Err(e) ==> e == GaiaError::Encrypting && final(self).failed,
    {
        let ghost prev = *self;
        self.chunker.feed(bytes);
        self.fed = Ghost(self.fed@ + bytes@);
        proof {
            assert(self.fed@.take(self.counter as int * BUF_SIZE) =~= prev.fed@.take(
                self.counter as int * BUF_SIZE,
            ));
            assert(self.fed@.skip(self.counter as int * BUF_SIZE) =~= prev.fed@.skip(
                self.counter as int * BUF_SIZE,
            ) + bytes@);
        }
        if self.chunker.ready() {
            if self.counter > COUNTER_MAX {
                self.failed = true;
                return Err(GaiaError::Encrypting);
            }
            let (chunk, last) = self.chunker.take_chunk();
            let sealed_chunk = encrypt_chunk(&self.handle, self.counter, last, &chunk);
            proof {
                let key = self.handle.key@;
                let base = self.handle.base_nonce@;
                let c = self.counter as int;
                let consumed = self.fed@.take(c * BUF_SIZE);
                if last {
                    assert(chunk@ == self.fed@.skip(c * BUF_SIZE));
                    assert(consumed.len() > 0 ==> chunk@.len() >= 1);
                    lemma_stream_decompose(key, base, consumed, chunk@, 0, c);
                    assert(consumed + chunk@ =~= self.fed@);
                    assert((self.delivered@ + self.pending@) + sealed_chunk@
                        == spec_encrypt_stream(key, base, self.fed@));
                    assert(self.delivered@ + (self.pending@ + sealed_chunk@) =~= (self.delivered@
                        + self.pending@) + sealed_chunk@);
                } else {
                    assert(chunk@ == self.fed@.skip(c * BUF_SIZE).take(BUF_SIZE as int));
                    assert((c + 1) * BUF_SIZE == c * BUF_SIZE + BUF_SIZE) by (nonlinear_arith);
                    assert(self.fed@.take((c + 1) * BUF_SIZE) =~= consumed + chunk@);
                    lemma_seal_blocks_snoc(key, base, consumed, chunk@, 0, c);
                    assert(self.delivered@ + (self.pending@ + sealed_chunk@) =~= (self.delivered@
                        + self.pending@) + sealed_chunk@);
                    assert(self.fed@.skip((c + 1) * BUF_SIZE) =~= self.fed@.skip(
                        c * BUF_SIZE,
                    ).skip(BUF_SIZE as int));
                }
            }
            append_bytes(&mut self.pending, &sealed_chunk);
            self.counter = self.counter + 1;
            if last {
                self.done = true;
            }
        }
        Ok(())
    }

    /// Hands out up to `max` bytes of sealed output, oldest first.
    pub fn take_output(&mut self, max: usize) -> (r: Vec<u8>)
        requires
            old(self).wf(),
        ensures
            final(self).wf(),
            final(self).handle == old(self).handle,
            final(self).fed@ == old(self).fed@,
            final(self).done == old(self).done,
            final(self).failed == old(self).failed,
            r@ == old(self).pending@.take(vstd::math::min(max as int, old(self).pending@.len() as int)),
            final(self).pending@ == old(self).pending@.skip(
                vstd::math::min(max as int, old(self).pending@.len() as int),
            ),
            final(self).delivered@ == old(self).delivered@ + r@,
    {
        let k = if max < self.pending.len() {
            max
        } else {
            self.pending.len()
        };
        let r = copy_range(&self.pending, 0, k);
        drop_prefix(&mut self.pending, k);
        self.delivered = Ghost(self.delivered@ + r@);
        proof {
            assert(old(self).pending@.take(k as int) + old(self).pending@.skip(k as int)
                =~= old(self).pending@);
            assert(r@ =~= old(self).pending@.take(k as int));
            assert((old(self).delivered@ + r@) + self.pending@ =~= old(self).delivered@ + (r@
                + self.pending@));
        }
        r
    }

    /// Whether the stream is finished: the final chunk is sealed and all
    /// output has been taken.
    pub fn finished(&self) -> (r: bool)
        ensures
            r == (self.done && self.pending@.len() == 0),
    {
        self.done && self.pending.len() == 0
    }
}

/// Presents decryption as a readable stream of plaintext: the driving
/// program feeds ciphertext bytes as its source yields them and takes
/// opened bytes out. Windows are one tag longer than on the encrypting
/// side, so each holds a sealed chunk whole. A chunk that fails to
/// authenticate kills the stream; none of its bytes are released.
pub struct DecryptingReader {
    /// The session's key material.
    pub handle: Handle,
    /// The window accumulator, with a `BUF_SIZE + TAG_SIZE`-byte window.
    pub chunker: ChunkingReader,
    /// The counter of the next chunk to open; counts opened chunks.
    pub counter: u32,
    /// Opened plaintext bytes not yet taken by the driver.
    pub pending: Vec<u8>,
    /// The final chunk has been opened; the transform is retired.
    pub done: bool,
    /// A failure was reported; the stream is dead.
    pub failed: bool,
    /// All ciphertext bytes fed so far.
    pub fed: Ghost<Seq<u8>>,
    /// All plaintext bytes taken so far.
    pub delivered: Ghost<Seq<u8>>,
}

impl DecryptingReader {
    /// The machine's state invariant. While it holds and the machine has
    /// not failed, the ciphertext consumed so far is exactly the sealed
    /// form of the plaintext taken and pending so far; once `done`, the
    /// whole input was the encrypted stream of exactly that plaintext.
    pub open spec fn wf(&self) -> bool {
        &&& self.handle.wf()
        &&& self.chunker.wf()
        &&& self.chunker.window == BUF_SIZE + TAG_SIZE
        &&& (!self.failed && !self.done ==> {
            &&& !self.chunker.done
            &&& !self.chunker.exhausted
            &&& self.chunker.buffer@.len() <= BUF_SIZE + TAG_SIZE
            &&& self.counter as int <= COUNTER_MAX as int + 1
            &&& (self.counter >= 1 ==> self.chunker.buffer@.len() >= 1)
            &&& (self.delivered@ + self.pending@).len() == self.counter as int * BUF_SIZE
            &&& self.fed@.len() == self.counter as int * (BUF_SIZE + TAG_SIZE)
                + self.chunker.buffer@.len()
            &&& self.chunker.buffer@ == self.fed@.skip(
                self.counter as int * (BUF_SIZE + TAG_SIZE),
            )
            &&& self.fed@.take(self.counter as int * (BUF_SIZE + TAG_SIZE)) == spec_seal_blocks(
                self.handle.key@,
                self.handle.base_nonce@,
                self.delivered@ + self.pending@,
                0,
            )
        })
        &&& (!self.failed && self.done ==> self.fed@ == spec_encrypt_stream(
            self.handle.key@,
            self.handle.base_nonce@,
            self.delivered@ + self.pending@,
        ))
    }

    /// A fresh decrypting machine for one session.
    pub fn new(handle: Handle) -> (r: DecryptingReader)
        requires
            handle.wf(),
        ensures
            r.wf(),
            r.handle == handle,
            !r.done,
            !r.failed,
            r.fed@ == Seq::<u8>::empty(),
            r.delivered@ == Seq::<u8>::empty(),
            r.pending@ == Seq::<u8>::empty(),
    {
        let r = DecryptingReader {
            handle,
            chunker: ChunkingReader::new(BUF_SIZE + TAG_SIZE),
            counter: 0,
            pending: Vec::new(),
            done: false,
            failed: false,
            fed: Ghost(Seq::empty()),
            delivered: Ghost(Seq::empty()),
        };
        proof {
            assert(r.fed@.take(0) =~= Seq::<u8>::empty());
            assert(r.fed@.skip(0) =~= Seq::<u8>::empty());
            assert(r.delivered@ + r.pending@ =~= Seq::<u8>::empty());
        }
        r
    }

    /// How many ciphertext bytes to request from the source next.
    pub fn needed_input(&self) -> (r: usize)
        requires
            self.wf(),
            !self.done,
            !self.failed,
        ensures
            r == BUF_SIZE + TAG_SIZE + 1 - self.chunker.buffer@.len(),
            r >= 1,
    {
        self.chunker.needed()
    }

    /// Accepts the bytes of one source read; an empty read reports that
    /// the source is exhausted and opens the final chunk. A read that
    /// completes no window always succeeds. One that does succeeds
    /// exactly when the counter still fits its 31-bit field and the
    /// completed window is the sealing of some plaintext under this
    /// handle at the current counter and flag — where a zero-length
    /// final chunk counts as authentic only at the very start of the
    /// stream, the one framing encryption produces for it.
    pub fn feed_input(&mut self, bytes: &Vec<u8>) -> (r: Result<(), GaiaError>)
        requires
            old(self).wf(),
            !old(self).done,
            !old(self).failed,
            bytes@.len() + old(self).chunker.buffer@.len() <= BUF_SIZE + TAG_SIZE + 1,
        ensures
            final(self).wf(),
            final(self).handle == old(self).handle,
            final(self).delivered@ == old(self).delivered@,
            ({
                let window_data = old(self).chunker.buffer@ + bytes@;
                let key = old(self).handle.key@;
                let base = old(self).handle.base_nonce@;
                let c = old(self).counter;
                &&& (bytes@.len() == 0 ==> (r is Ok <==> {
                    &&& c <= COUNTER_MAX
                    &&& (exists|q: Seq<u8>| window_data == spec_seal_chunk(key, base, c, true, q))
                    &&& (forall|q: Seq<u8>|
                        window_data == spec_seal_chunk(key, base, c, true, q) ==> q.len() >= 1
                            || c == 0)
                }))
                &&& (bytes@.len() != 0 && window_data.len() > BUF_SIZE + TAG_SIZE ==> (r is Ok
                    <==> {
                    &&& c <= COUNTER_MAX
                    &&& (exists|q: Seq<u8>|
                        window_data.take((BUF_SIZE + TAG_SIZE) as int) == spec_seal_chunk(
                            key,
                            base,
                            c,
                            false,
                            q,
                        ))
                }))
                &&& (bytes@.len() != 0 && window_data.len() <= BUF_SIZE + TAG_SIZE ==> r is Ok)
            }),
            r is Ok ==> {
                &&& !final(self).failed
                &&& final(self).fed@ == old(self).fed@ + bytes@
                &&& (final(self).done <==> bytes@.len() == 0)
            },
            r matches Err(e) ==> e == GaiaError::Decrypting && final(self).failed,
    {
        let ghost prev = *self;
        let ghost wct = (BUF_SIZE + TAG_SIZE) as int;
        self.chunker.feed(bytes);
        self.fed = Ghost(self.fed@ + bytes@);
        proof {
            assert(self.fed@.take(self.counter as int * wct) =~= prev.fed@.take(
                self.counter as int * wct,
            ));
            assert(self.fed@.skip(self.counter as int * wct) =~= prev.fed@.skip(
                self.counter as int * wct,
            ) + bytes@);
        }
        if self.chunker.ready() {
            if self.counter > COUNTER_MAX {
                self.failed = true;
                return Err(GaiaError::Decrypting);
            }
            let (chunk, last) = self.chunker.take_chunk();
            let opened = match decrypt_chunk(&self.handle, self.counter, last, &chunk) {
                Ok(p) => p,
                Err(_) => {
                    self.failed = true;
                    return Err(GaiaError::Decrypting);
                },
            };
            if last && opened.len() == 0 && self.counter > 0 {
                self.failed = true;
                return Err(GaiaError::Decrypting);
            }
            proof {
                let key = self.handle.key@;
                let base = self.handle.base_nonce@;
                let c = self.counter as int;
                let plain = self.delivered@ + self.pending@;
                assert(chunk@ == spec_seal_chunk(key, base, self.counter, last, opened@));
                assert(chunk@.len() == opened@.len() + TAG_SIZE);
                if last {
                    assert(chunk@ == self.fed@.skip(c * wct));
                    assert(opened@.len() <= BUF_SIZE);
                    assert(plain.len() > 0 ==> opened@.len() >= 1);
                    lemma_stream_decompose(key, base, plain, opened@, 0, c);
                    assert(self.fed@.take(c * wct) + chunk@ =~= self.fed@);
                    assert(self.delivered@ + (self.pending@ + opened@) =~= plain + opened@);
                } else {
                    assert(chunk@ == self.fed@.skip(c * wct).take(wct));
                    assert(chunk@.len() == BUF_SIZE + TAG_SIZE);
                    assert(opened@.len() == BUF_SIZE);
                    assert((c + 1) * wct == c * wct + wct) by (nonlinear_arith);
                    assert((c + 1) * BUF_SIZE == c * BUF_SIZE + BUF_SIZE) by (nonlinear_arith);
                    assert(self.fed@.take((c + 1) * wct) =~= self.fed@.take(c * wct) + chunk@);
                    lemma_seal_blocks_snoc(key, base, plain, opened@, 0, c);
                    assert(self.delivered@ + (self.pending@ + opened@) =~= plain + opened@);
                    assert(self.fed@.skip((c + 1) * wct) =~= self.fed@.skip(c * wct).skip(wct));
                }
            }
            append_bytes(&mut self.pending, &opened);
            self.counter = self.counter + 1;
            if last {
                self.done = true;
            }
        }
        Ok(())
    }

    /// Hands out up to `max` bytes of opened plaintext, oldest first.
    pub fn take_output(&mut self, max: usize) -> (r: Vec<u8>)
        requires
            old(self).wf(),
        ensures
            final(self).wf(),
            final(self).handle == old(self).handle,
            final(self).fed@ == old(self).fed@,
            final(self).done == old(self).done,
            final(self).failed == old(self).failed,
            r@ == old(self).pending@.take(vstd::math::min(max as int, old(self).pending@.len() as int)),
            final(self).pending@ == old(self).pending@.skip(
                vstd::math::min(max as int, old(self).pending@.len() as int),
            ),
            final(self).delivered@ == old(self).delivered@ + r@,
    {
        let k = if max < self.pending.len() {
            max
        } else {
            self.pending.len()
        };
        let r = copy_range(&self.pending, 0, k);
        drop_prefix(&mut self.pending, k);
        self.delivered = Ghost(self.delivered@ + r@);
        proof {
            assert(old(self).pending@.take(k as int) + old(self).pending@.skip(k as int)
                =~= old(self).pending@);
            assert(r@ =~= old(self).pending@.take(k as int));
            assert((old(self).delivered@ + r@) + self.pending@ =~= old(self).delivered@ + (r@
                + self.pending@));
        }
        r
    }

    /// Whether the stream is finished: the final chunk is opened and all
    /// output has been taken.
    pub fn finished(&self) -> (r: bool)
        ensures
            r == (self.done && self.pending@.len() == 0),
    {
        self.done && self.pending.len() == 0
    }
}

/// A finished decrypting machine was fed exactly the encrypted stream of
/// the plaintext it delivered: what came out is authentic, never
/// silently wrong.
pub proof fn lemma_decrypting_reader_complete(r: DecryptingReader)
    requires
        r.wf(),
        !r.failed,
        r.done,
        r.pending@.len() == 0,
    ensures
        r.fed@ == spec_encrypt_stream(r.handle.key@, r.handle.base_nonce@, r.delivered@),
{
    assert(r.delivered@ + r.pending@ =~= r.delivered@);
}

/// A finished encrypting machine has delivered exactly the encrypted
/// stream of everything it was fed.
pub proof fn lemma_encrypting_reader_complete(r: EncryptingReader)
    requires
        r.wf(),
        !r.failed,
        r.done,
        r.pending@.len() == 0,
    ensures
        r.delivered@ == spec_encrypt_stream(r.handle.key@, r.handle.base_nonce@, r.fed@),
{
    assert(r.delivered@ + r.pending@ =~= r.delivered@);
}

} // verus!
