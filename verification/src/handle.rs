//! The per-session key material: a cipher key together with a base nonce.

use vstd::prelude::*;

use crate::cipher::os_random_bytes;
use crate::{BASE_NONCE_SIZE, KEY_SIZE};

verus! {

/// A pair of a key and a base nonce, required for encryption and
/// decryption.
///
/// A handle identifies one encryption session. Reusing a handle for two
/// different plaintext streams is a catastrophic security violation: the
/// per-chunk nonces are unique only within a single stream.
#[derive(Clone, Debug, PartialEq, Eq)]
pub struct Handle {
    /// The cipher key, [`KEY_SIZE`] bytes.
    pub key: Vec<u8>,
    /// The base nonce, [`BASE_NONCE_SIZE`] bytes; the per-chunk counter
    /// and last-chunk flag fill the nonce's remaining bytes.
    pub base_nonce: Vec<u8>,
}

impl Handle {
    /// A handle is well formed when its two fields have the cipher's key
    /// and base-nonce lengths.
    pub open spec fn wf(&self) -> bool {
        self.key@.len() == KEY_SIZE && self.base_nonce@.len() == BASE_NONCE_SIZE
    }

    /// Builds a handle from the given key and base nonce.
    pub fn new(key: Vec<u8>, base_nonce: Vec<u8>) -> (r: Handle)
        requires
            key@.len() == KEY_SIZE,
            base_nonce@.len() == BASE_NONCE_SIZE,
        ensures
            r.wf(),
            r.key == key,
            r.base_nonce == base_nonce,
    {
        Handle { key, base_nonce }
    }
}

/// Generates a fresh handle, filling both fields from the operating
/// system's secure randomness source; `None` reports that the source
/// failed.
pub fn generate_handle() -> (r: Option<Handle>)
    ensures
        r matches Some(h) ==> h.wf(),
{
    let key = match os_random_bytes(KEY_SIZE) {
        Some(k) => k,
        None => {
            return None;
        },
    };
    let base_nonce = match os_random_bytes(BASE_NONCE_SIZE) {
        Some(n) => n,
        None => {
            return None;
        },
    };
    Some(Handle { key, base_nonce })
}

} // verus!
