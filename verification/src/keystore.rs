//! The handle codec: a handle as one compact text secret.
//!
//! The text form is the URL-safe, padded base64 encoding of the key
//! followed by the base nonce. Decoding accepts exactly what encoding
//! produces: any other text, or a decoded length that is not a key plus
//! a base nonce, is a format error, raised before any stream processing
//! begins.

use base64::Engine;
use vstd::prelude::*;

use crate::bytes::{append_bytes, copy_range};
use crate::error::ConversionError;
use crate::handle::Handle;
use crate::{BASE_NONCE_SIZE, KEY_SIZE};

verus! {

/// The canonical padded URL-safe base64 text of `bytes`, named: verified
/// code tracks only which bytes a text encodes, never the digits
/// themselves.
pub uninterp spec fn b64_of(bytes: Seq<u8>) -> Seq<char>;

/// Encodes bytes as URL-safe base64 with padding.
///
/// Relies on base64's `Engine::encode` with the `BASE64_URL_SAFE`
/// engine: the output is the canonical padded encoding, a function of
/// the bytes alone, four digits for every three bytes with the last
/// group padded to four.
#[verifier::external_body]
fn b64_encode(bytes: &Vec<u8>) -> (r: String)
    ensures
        r@ == b64_of(bytes@),
        r@.len() == 4 * ((bytes@.len() + 2) / 3),
{
    base64::prelude::BASE64_URL_SAFE.encode(bytes.as_slice())
}

/// Decodes URL-safe base64 with padding.
///
/// Relies on base64's `Engine::decode` with the `BASE64_URL_SAFE`
/// engine: with canonical padding required and trailing bits rejected,
/// decoding succeeds on exactly the canonical encodings, returning the
/// encoded bytes.
#[verifier::external_body]
fn b64_decode(text: &str) -> (r: Result<Vec<u8>, ConversionError>)
    ensures
        r matches Ok(b) ==> text@ == b64_of(b@),
        r is Err ==> forall|b: Seq<u8>| text@ != b64_of(b),
        r matches Ok(v) ==> forall|b: Seq<u8>| text@ == b64_of(b) ==> v@ == b,
        r matches Err(e) ==> e == ConversionError::Base64EncodingError,
{
    base64::prelude::BASE64_URL_SAFE.decode(text).map_err(
        |_| ConversionError::Base64EncodingError,
    )
}

/// Encodes a handle as its text secret: the base64 of key then base
/// nonce, one fixed-length line of text. Never fails.
pub fn to_secret(kh: &Handle) -> (r: Result<String, ConversionError>)
    requires
        kh.wf(),
    ensures
        r is Ok,
        r matches Ok(s) ==> s@ == b64_of(kh.key@ + kh.base_nonce@),
        r matches Ok(s) ==> s@.len() == 4 * ((KEY_SIZE + BASE_NONCE_SIZE + 2) / 3),
{
    let mut data = copy_range(&kh.key, 0, kh.key.len());
    append_bytes(&mut data, &kh.base_nonce);
    proof {
        assert(kh.key@.subrange(0, kh.key@.len() as int) =~= kh.key@);
    }
    Ok(b64_encode(&data))
}

/// Decodes a text secret back into a handle. Success is owed exactly on
/// the texts [`to_secret`] produces; any other base64 text has the wrong
/// decoded length and is a key-encoding error, and text that is not
/// canonical base64 at all is a base64 error.
pub fn from_secret(secret: &str) -> (r: Result<Handle, ConversionError>)
    ensures
        r matches Ok(h) ==> h.wf() && secret@ == b64_of(h.key@ + h.base_nonce@),
        forall|k: Seq<u8>, n: Seq<u8>|
            (k.len() == KEY_SIZE && n.len() == BASE_NONCE_SIZE && secret@ == b64_of(k + n)) ==> r
                is Ok && r->Ok_0.key@ == k && r->Ok_0.base_nonce@ == n,
        r == Err::<Handle, ConversionError>(ConversionError::Base64EncodingError) ==> forall|
            b: Seq<u8>,
        | secret@ != b64_of(b),
        r == Err::<Handle, ConversionError>(ConversionError::KeyEncodingError) ==> exists|
            b: Seq<u8>,
        | secret@ == b64_of(b) && b.len() != KEY_SIZE + BASE_NONCE_SIZE,
{
    let data = match b64_decode(secret) {
        Ok(d) => d,
        Err(e) => {
            return Err(e);
        },
    };
    if data.len() != KEY_SIZE + BASE_NONCE_SIZE {
        proof {
            assert(secret@ == b64_of(data@) && data@.len() != KEY_SIZE + BASE_NONCE_SIZE);
        }
        return Err(ConversionError::KeyEncodingError);
    }
    let key = copy_range(&data, 0, KEY_SIZE);
    let base_nonce = copy_range(&data, KEY_SIZE, data.len());
    proof {
        assert(data@ =~= key@ + base_nonce@);
        assert forall|k: Seq<u8>, n: Seq<u8>|
            (k.len() == KEY_SIZE && n.len() == BASE_NONCE_SIZE && secret@ == b64_of(
                k + n,
            )) implies key@ == k && base_nonce@ == n by {
            assert(data@ == k + n);
            assert(key@ =~= (k + n).subrange(0, KEY_SIZE as int));
            assert((k + n).subrange(0, KEY_SIZE as int) =~= k);
            assert(base_nonce@ =~= (k + n).subrange(
                KEY_SIZE as int,
                (KEY_SIZE + BASE_NONCE_SIZE) as int,
            ));
            assert((k + n).subrange(KEY_SIZE as int, (KEY_SIZE + BASE_NONCE_SIZE) as int) =~= n);
        }
    }
    Ok(Handle { key, base_nonce })
}

} // verus!
