//! Byte-compatibility with the reference STREAM implementation: what
//! this library seals, `aead`'s little-endian STREAM decryptor opens,
//! and the other way round, chunk for chunk.

use aead::generic_array::GenericArray;
use aead::stream::{DecryptorLE31, EncryptorLE31};
use aes_gcm_siv::Aes256GcmSiv;
use gaia::handle::Handle;
use gaia::nonce::derive_nonce;
use gaia::stream::{decrypt, encrypt_with_handle};
use gaia::{BUF_SIZE, TAG_SIZE};

fn test_handle() -> Handle {
    let key: Vec<u8> = (0u8..32).map(|i| i.wrapping_mul(7)).collect();
    let base_nonce: Vec<u8> = (0u8..8).map(|i| i.wrapping_mul(13).wrapping_add(1)).collect();
    Handle::new(key, base_nonce)
}

fn reference_decryptor(handle: &Handle) -> DecryptorLE31<Aes256GcmSiv> {
    DecryptorLE31::new(
        GenericArray::from_slice(&handle.key),
        GenericArray::from_slice(&handle.base_nonce),
    )
}

fn reference_encryptor(handle: &Handle) -> EncryptorLE31<Aes256GcmSiv> {
    EncryptorLE31::new(
        GenericArray::from_slice(&handle.key),
        GenericArray::from_slice(&handle.base_nonce),
    )
}

#[test]
fn reference_decryptor_opens_our_stream() {
    let handle = test_handle();
    let input: Vec<u8> = (0..(2 * BUF_SIZE + 123)).map(|i| (i % 241) as u8).collect();
    let ciphertext = encrypt_with_handle(&handle, &input);

    let mut reference = reference_decryptor(&handle);
    let mut recovered = Vec::new();
    let window = BUF_SIZE + TAG_SIZE;
    let mut pos = 0;
    while ciphertext.len() - pos > window {
        let part = reference
            .decrypt_next(&ciphertext[pos..pos + window])
            .expect("reference decryptor accepts a non-final chunk");
        recovered.extend_from_slice(&part);
        pos += window;
    }
    let last = reference
        .decrypt_last(&ciphertext[pos..])
        .expect("reference decryptor accepts the final chunk");
    recovered.extend_from_slice(&last);
    assert_eq!(recovered, input);
}

#[test]
fn we_open_the_reference_encryptors_stream() {
    let handle = test_handle();
    let input: Vec<u8> = (0..(BUF_SIZE + 77)).map(|i| (i % 199) as u8).collect();

    let mut reference = reference_encryptor(&handle);
    let mut ciphertext = Vec::new();
    let mut pos = 0;
    while input.len() - pos > BUF_SIZE {
        let part = reference
            .encrypt_next(&input[pos..pos + BUF_SIZE])
            .expect("reference encryptor seals a non-final chunk");
        ciphertext.extend_from_slice(&part);
        pos += BUF_SIZE;
    }
    let last = reference
        .encrypt_last(&input[pos..])
        .expect("reference encryptor seals the final chunk");
    ciphertext.extend_from_slice(&last);

    let recovered = decrypt(&ciphertext, &handle).expect("reference stream must decrypt");
    assert_eq!(recovered, input);
}

#[test]
fn nonce_layout_is_base_then_le_counter_with_flag() {
    let base: Vec<u8> = vec![9, 8, 7, 6, 5, 4, 3, 2];
    let n = derive_nonce(&base, 1, false);
    assert_eq!(n, vec![9, 8, 7, 6, 5, 4, 3, 2, 1, 0, 0, 0]);
    let n = derive_nonce(&base, 0x0102_0304, false);
    assert_eq!(n, vec![9, 8, 7, 6, 5, 4, 3, 2, 0x04, 0x03, 0x02, 0x01]);
    let n = derive_nonce(&base, 0, true);
    assert_eq!(n, vec![9, 8, 7, 6, 5, 4, 3, 2, 0, 0, 0, 0x80]);
    let n = derive_nonce(&base, 5, true);
    assert_eq!(n, vec![9, 8, 7, 6, 5, 4, 3, 2, 5, 0, 0, 0x80]);
}

#[test]
fn stream_nonces_are_pairwise_distinct() {
    // the nonces of a four-chunk stream: counters 0..3, flag on the last
    let base: Vec<u8> = vec![1, 1, 2, 3, 5, 8, 13, 21];
    let nonces: Vec<Vec<u8>> = (0u32..4)
        .map(|i| derive_nonce(&base, i, i == 3))
        .collect();
    for i in 0..nonces.len() {
        for j in 0..nonces.len() {
            if i != j {
                assert_ne!(nonces[i], nonces[j]);
            }
        }
    }
    // a final chunk never shares a nonce with a non-final one at the
    // same counter value
    assert_ne!(derive_nonce(&base, 2, true), derive_nonce(&base, 2, false));
}
