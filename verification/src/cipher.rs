//! The single-chunk cipher and the system randomness source, behind
//! trusted contracts.
//!
//! The cipher is AES-256-GCM-SIV, used with empty associated data. It is
//! deterministic: what it produces is a function of the key, the nonce and
//! the plaintext alone, and is named here by [`sealed`]. Verified code
//! never looks inside a sealed chunk; it only tracks which key, nonce and
//! plaintext a chunk was sealed under.

use aead::rand_core::RngCore;
use aead::{Aead, KeyInit};
use vstd::prelude::*;

use crate::error::GaiaError;
use crate::{BUF_SIZE, KEY_SIZE, NONCE_SIZE, TAG_SIZE};

verus! {

/// Byte `i` of what the cipher produces for this key, nonce and
/// plaintext. Deterministic, so a pure function of its arguments; nothing
/// else is assumed about it.
pub uninterp spec fn sealed_byte(key: Seq<u8>, nonce: Seq<u8>, plaintext: Seq<u8>, i: int) -> u8;

/// The sealed form of one chunk: the ciphertext with its appended
/// authentication tag. Its length is the plaintext's plus [`TAG_SIZE`];
/// its contents are opaque.
pub open spec fn sealed(key: Seq<u8>, nonce: Seq<u8>, plaintext: Seq<u8>) -> Seq<u8> {
    Seq::new(plaintext.len() + TAG_SIZE as nat, |i: int| sealed_byte(key, nonce, plaintext, i))
}

/// Seals one chunk.
///
/// Relies on `aes_gcm_siv::Aes256GcmSiv` through `aead::KeyInit::new` and
/// `aead::Aead::encrypt`: encryption is deterministic in (key, nonce,
/// plaintext), appends a 16-byte tag, and cannot fail for plaintexts of
/// chunk size (its only failure case is a plaintext longer than 2^36
/// bytes, far above a chunk).
#[verifier::external_body]
pub(crate) fn seal(key: &Vec<u8>, nonce: &Vec<u8>, plaintext: &Vec<u8>) -> (r: Result<
    Vec<u8>,
    GaiaError,
>)
    requires
        key@.len() == KEY_SIZE,
        nonce@.len() == NONCE_SIZE,
        plaintext@.len() <= BUF_SIZE,
    ensures
        r is Ok,
        r matches Ok(c) ==> c@ == sealed(key@, nonce@, plaintext@),
        r matches Ok(c) ==> forall|i: int|
            0 <= i < c@.len() ==> c@[i] == sealed_byte(key@, nonce@, plaintext@, i),
{
    let cipher = aes_gcm_siv::Aes256GcmSiv::new(
        aes_gcm_siv::Key::<aes_gcm_siv::Aes256GcmSiv>::from_slice(key.as_slice()),
    );
    cipher
        .encrypt(aes_gcm_siv::Nonce::from_slice(nonce.as_slice()), plaintext.as_slice())
        .map_err(|_| GaiaError::Encrypting)
}

/// Opens one sealed chunk, verifying its tag.
///
/// Relies on `aes_gcm_siv::Aes256GcmSiv` through `aead::KeyInit::new` and
/// `aead::Aead::decrypt`: decryption returns the unique plaintext whose
/// sealing under this key and nonce is the given bytes, and fails
/// precisely when no such plaintext exists (a wrong key, a wrong nonce,
/// any altered byte, or a truncated chunk).
#[verifier::external_body]
pub(crate) fn open_sealed(key: &Vec<u8>, nonce: &Vec<u8>, ciphertext: &Vec<u8>) -> (r: Result<
    Vec<u8>,
    GaiaError,
>)
    requires
        key@.len() == KEY_SIZE,
        nonce@.len() == NONCE_SIZE,
        ciphertext@.len() <= BUF_SIZE + TAG_SIZE,
    ensures
        r matches Ok(p) ==> ciphertext@ == sealed(key@, nonce@, p@),
        r is Err ==> forall|q: Seq<u8>| ciphertext@ != sealed(key@, nonce@, q),
        r matches Ok(p) ==> forall|q: Seq<u8>| ciphertext@ == sealed(key@, nonce@, q) ==> p@ == q,
        r matches Err(e) ==> e == GaiaError::Decrypting,
{
    let cipher = aes_gcm_siv::Aes256GcmSiv::new(
        aes_gcm_siv::Key::<aes_gcm_siv::Aes256GcmSiv>::from_slice(key.as_slice()),
    );
    cipher
        .decrypt(aes_gcm_siv::Nonce::from_slice(nonce.as_slice()), ciphertext.as_slice())
        .map_err(|_| GaiaError::Decrypting)
}

/// Fills a buffer from the operating system's secure randomness source.
///
/// Relies on `rand_core::OsRng::try_fill_bytes` (backed by `getrandom`):
/// on success the buffer holds `n` bytes about which nothing can be
/// assumed; `None` reports that the system source failed.
#[verifier::external_body]
pub(crate) fn os_random_bytes(n: usize) -> (r: Option<Vec<u8>>)
    ensures
        r matches Some(v) ==> v@.len() == n,
{
    let mut buf: Vec<u8> = vec![0u8; n];
    match aead::OsRng.try_fill_bytes(buf.as_mut_slice()) {
        Ok(()) => Some(buf),
        Err(_) => None,
    }
}

} // verus!
