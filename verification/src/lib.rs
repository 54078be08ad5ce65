//! Chunked streaming authenticated encryption.
//!
//! A byte stream is split into fixed-size chunks; each chunk is sealed with
//! AES-256-GCM-SIV under a nonce derived from a per-session base nonce, a
//! strictly increasing 31-bit chunk counter and a last-chunk flag (the
//! STREAM construction with a little-endian counter). Reordering,
//! truncation and splicing of chunks are therefore detected at decryption.
//!
//! A session is identified by a [`handle::Handle`]: the cipher key together
//! with the base nonce. A handle must never be reused for two different
//! plaintext streams; the nonce derivation guarantees uniqueness only
//! within one stream.

use vstd::prelude::*;

mod bytes;
pub mod chunks;
pub mod cipher;
pub mod error;
pub mod handle;
pub mod keystore;
pub mod nonce;
pub mod reader;
pub mod stream;

verus! {

/// Number of plaintext bytes in every chunk except possibly the last.
pub const BUF_SIZE: usize = 16384;

/// Length in bytes of the cipher key.
pub const KEY_SIZE: usize = 32;

/// Length in bytes of the full per-chunk nonce handed to the cipher.
pub const NONCE_SIZE: usize = 12;

/// Length in bytes of the per-session base nonce; the remaining four nonce
/// bytes carry the chunk counter and the last-chunk flag.
pub const BASE_NONCE_SIZE: usize = 8;

/// Length in bytes of the authentication tag appended to each chunk.
pub const TAG_SIZE: usize = 16;

/// Largest chunk counter the nonce layout can carry: the counter occupies
/// the low 31 bits of the trailing little-endian word, the last-chunk flag
/// the top bit.
pub const COUNTER_MAX: u32 = 0x7fff_ffff;

} // verus!
