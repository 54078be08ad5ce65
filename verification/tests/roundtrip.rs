//! Whole-stream round trips, chunk framing and tamper detection.

use gaia::error::GaiaError;
use gaia::handle::Handle;
use gaia::stream::{decrypt, encrypt, encrypt_chunk, encrypt_with_handle};
use gaia::{BUF_SIZE, TAG_SIZE};

fn test_handle(tag: u8) -> Handle {
    let mut key = vec![tag; 32];
    key[0] = 1;
    let base_nonce = vec![tag ^ 0x5a; 8];
    Handle::new(key, base_nonce)
}

fn pattern(len: usize) -> Vec<u8> {
    (0..len).map(|i| (i % 251) as u8).collect()
}

fn expected_chunks(len: usize) -> usize {
    if len <= BUF_SIZE {
        1
    } else {
        1 + expected_chunks(len - BUF_SIZE)
    }
}

fn round_trip_len(len: usize) {
    let handle = test_handle(7);
    let input = pattern(len);
    let ciphertext = encrypt_with_handle(&handle, &input);
    assert_eq!(ciphertext.len(), len + TAG_SIZE * expected_chunks(len));
    let output = decrypt(&ciphertext, &handle).expect("authentic stream must decrypt");
    assert_eq!(output, input);
}

#[test]
fn round_trip_empty() {
    round_trip_len(0);
}

#[test]
fn round_trip_one_byte() {
    round_trip_len(1);
}

#[test]
fn round_trip_one_under_chunk() {
    round_trip_len(BUF_SIZE - 1);
}

#[test]
fn round_trip_exact_chunk() {
    round_trip_len(BUF_SIZE);
}

#[test]
fn round_trip_one_over_chunk() {
    round_trip_len(BUF_SIZE + 1);
}

#[test]
fn round_trip_three_chunks() {
    round_trip_len(3 * BUF_SIZE);
}

#[test]
fn round_trip_fresh_handle() {
    let input = pattern(100);
    let (ciphertext, handle) = encrypt(&input).expect("encryption with a fresh handle");
    let output = decrypt(&ciphertext, &handle).expect("authentic stream must decrypt");
    assert_eq!(output, input);
}

#[test]
fn empty_stream_is_one_tagged_chunk() {
    let handle = test_handle(3);
    let ciphertext = encrypt_with_handle(&handle, &Vec::new());
    assert_eq!(ciphertext.len(), TAG_SIZE);
    let output = decrypt(&ciphertext, &handle).expect("empty framing must decrypt");
    assert_eq!(output, Vec::<u8>::new());
}

#[test]
fn chunk_lengths_on_the_wire() {
    let handle = test_handle(9);
    let input = pattern(BUF_SIZE + 5);
    let ciphertext = encrypt_with_handle(&handle, &input);
    // one full window and a short final chunk
    assert_eq!(ciphertext.len(), (BUF_SIZE + TAG_SIZE) + (5 + TAG_SIZE));
}

#[test]
fn ciphertext_differs_from_plaintext() {
    let handle = test_handle(11);
    let input = pattern(64);
    let ciphertext = encrypt_with_handle(&handle, &input);
    assert_eq!(ciphertext.len(), 64 + TAG_SIZE);
    assert_ne!(&ciphertext[..64], &input[..]);
}

#[test]
fn hello_world_scenario() {
    let input = b"Hello, world!".to_vec();
    assert_eq!(input.len(), 13);
    let (ciphertext, handle) = encrypt(&input).expect("encryption with a fresh handle");
    assert_eq!(ciphertext.len(), 13 + TAG_SIZE);
    let output = decrypt(&ciphertext, &handle).expect("same handle must decrypt");
    assert_eq!(output, input);
    let (_, other) = encrypt(&input).expect("second fresh handle");
    assert!(matches!(decrypt(&ciphertext, &other), Err(GaiaError::Decrypting)));
}

#[test]
fn every_bit_flip_is_detected_short() {
    let handle = test_handle(5);
    let input = b"Hello, world!".to_vec();
    let ciphertext = encrypt_with_handle(&handle, &input);
    for byte in 0..ciphertext.len() {
        for bit in 0..8 {
            let mut tampered = ciphertext.clone();
            tampered[byte] ^= 1u8 << bit;
            match decrypt(&tampered, &handle) {
                Err(GaiaError::Decrypting) => {},
                other => panic!(
                    "flipping bit {bit} of byte {byte} was not detected: {:?}",
                    other.map(|v| v.len())
                ),
            }
        }
    }
}

#[test]
fn bit_flips_in_every_region_are_detected() {
    let handle = test_handle(6);
    let input = pattern(BUF_SIZE + 7);
    let ciphertext = encrypt_with_handle(&handle, &input);
    let positions = [
        0,                                // first chunk body
        BUF_SIZE / 2,                     // middle of first chunk
        BUF_SIZE,                         // first chunk's tag
        BUF_SIZE + TAG_SIZE - 1,          // last byte of first tag
        BUF_SIZE + TAG_SIZE,              // final chunk body
        BUF_SIZE + TAG_SIZE + 7,          // final chunk's tag
        ciphertext.len() - 1,             // last tag byte
    ];
    for &byte in positions.iter() {
        for bit in 0..8 {
            let mut tampered = ciphertext.clone();
            tampered[byte] ^= 1u8 << bit;
            assert!(
                matches!(decrypt(&tampered, &handle), Err(GaiaError::Decrypting)),
                "flipping bit {bit} of byte {byte} was not detected"
            );
        }
    }
}

#[test]
fn swapped_chunks_are_detected() {
    let handle = test_handle(8);
    let input = pattern(3 * BUF_SIZE);
    let ciphertext = encrypt_with_handle(&handle, &input);
    let w = BUF_SIZE + TAG_SIZE;
    let mut swapped = Vec::new();
    swapped.extend_from_slice(&ciphertext[w..2 * w]);
    swapped.extend_from_slice(&ciphertext[0..w]);
    swapped.extend_from_slice(&ciphertext[2 * w..]);
    assert!(matches!(decrypt(&swapped, &handle), Err(GaiaError::Decrypting)));
}

#[test]
fn truncated_stream_is_detected() {
    let handle = test_handle(10);
    let input = pattern(2 * BUF_SIZE + 9);
    let ciphertext = encrypt_with_handle(&handle, &input);
    let w = BUF_SIZE + TAG_SIZE;
    // drop the final chunk: the stream now ends on a non-final chunk
    let truncated = ciphertext[..2 * w].to_vec();
    assert!(matches!(decrypt(&truncated, &handle), Err(GaiaError::Decrypting)));
    // cut inside a chunk
    let cut = ciphertext[..w + 3].to_vec();
    assert!(matches!(decrypt(&cut, &handle), Err(GaiaError::Decrypting)));
}

#[test]
fn duplicated_chunk_is_detected() {
    let handle = test_handle(12);
    let input = pattern(BUF_SIZE + 40);
    let ciphertext = encrypt_with_handle(&handle, &input);
    let w = BUF_SIZE + TAG_SIZE;
    let mut doubled = Vec::new();
    doubled.extend_from_slice(&ciphertext[0..w]);
    doubled.extend_from_slice(&ciphertext);
    assert!(matches!(decrypt(&doubled, &handle), Err(GaiaError::Decrypting)));
}

#[test]
fn empty_input_is_not_a_stream() {
    let handle = test_handle(13);
    // no bytes at all: not even the empty stream's framing
    assert!(matches!(decrypt(&Vec::new(), &handle), Err(GaiaError::Decrypting)));
}

#[test]
fn trailing_empty_final_chunk_is_rejected() {
    let handle = test_handle(14);
    let input = pattern(BUF_SIZE);
    let honest = encrypt_with_handle(&handle, &input);
    // a full final chunk is the only framing encryption produces for a
    // one-window stream; adding any bytes after it must fail
    let mut padded = honest.clone();
    padded.extend_from_slice(&[0u8; TAG_SIZE]);
    assert!(matches!(decrypt(&padded, &handle), Err(GaiaError::Decrypting)));
}

#[test]
fn empty_final_chunk_after_full_chunk_is_rejected() {
    // a correctly sealed stream of one full non-final chunk followed by
    // an empty final chunk: encryption never produces this framing for
    // any plaintext, so decryption refuses it
    let handle = test_handle(16);
    let block = pattern(BUF_SIZE);
    let mut ciphertext = encrypt_chunk(&handle, 0, false, &block);
    ciphertext.extend_from_slice(&encrypt_chunk(&handle, 1, true, &Vec::new()));
    assert!(matches!(decrypt(&ciphertext, &handle), Err(GaiaError::Decrypting)));
}

#[test]
fn deterministic_under_fixed_handle() {
    let handle = test_handle(15);
    let input = pattern(1000);
    let a = encrypt_with_handle(&handle, &input);
    let b = encrypt_with_handle(&handle, &input);
    assert_eq!(a, b);
}

#[test]
fn different_handles_give_different_ciphertexts() {
    let input = pattern(1000);
    let a = encrypt_with_handle(&test_handle(1), &input);
    let b = encrypt_with_handle(&test_handle(2), &input);
    assert_ne!(a, b);
}
