//! The event-driven adapter machines, driven with sources that fragment
//! their bytes in different ways.

use gaia::error::GaiaError;
use gaia::handle::Handle;
use gaia::reader::{ChunkingReader, DecryptingReader, EncryptingReader};
use gaia::stream::{decrypt, encrypt_with_handle};
use gaia::{BUF_SIZE, TAG_SIZE};

fn test_handle(tag: u8) -> Handle {
    let mut key = vec![tag; 32];
    key[31] = 2;
    let base_nonce = vec![tag.wrapping_add(100); 8];
    Handle::new(key, base_nonce)
}

fn pattern(len: usize) -> Vec<u8> {
    (0..len).map(|i| (i % 239) as u8).collect()
}

/// Drives an encrypting machine over `input`, letting the source yield
/// at most `step` bytes per read.
fn machine_encrypt(handle: Handle, input: &[u8], step: usize) -> Result<Vec<u8>, GaiaError> {
    let mut machine = EncryptingReader::new(handle);
    let mut out = Vec::new();
    let mut pos = 0;
    loop {
        let served = machine.take_output(usize::MAX);
        if !served.is_empty() {
            out.extend_from_slice(&served);
            continue;
        }
        if machine.finished() {
            return Ok(out);
        }
        let want = machine.needed_input().min(step).min(input.len() - pos);
        let bytes = input[pos..pos + want].to_vec();
        pos += want;
        machine.feed_input(&bytes)?;
    }
}

/// Drives a decrypting machine over `input`, letting the source yield
/// at most `step` bytes per read.
fn machine_decrypt(handle: Handle, input: &[u8], step: usize) -> Result<Vec<u8>, GaiaError> {
    let mut machine = DecryptingReader::new(handle);
    let mut out = Vec::new();
    let mut pos = 0;
    loop {
        let served = machine.take_output(usize::MAX);
        if !served.is_empty() {
            out.extend_from_slice(&served);
            continue;
        }
        if machine.finished() {
            return Ok(out);
        }
        let want = machine.needed_input().min(step).min(input.len() - pos);
        let bytes = input[pos..pos + want].to_vec();
        pos += want;
        machine.feed_input(&bytes)?;
    }
}

#[test]
fn machine_round_trip_battery() {
    for len in [0usize, 1, BUF_SIZE - 1, BUF_SIZE, BUF_SIZE + 1, 3 * BUF_SIZE] {
        let handle = test_handle(21);
        let input = pattern(len);
        let ciphertext =
            machine_encrypt(handle.clone(), &input, usize::MAX).expect("machine encryption");
        let output =
            machine_decrypt(handle, &ciphertext, usize::MAX).expect("machine decryption");
        assert_eq!(output, input, "machine round trip at length {len}");
    }
}

#[test]
fn machine_encrypt_matches_whole_stream_encrypt() {
    let handle = test_handle(22);
    let input = pattern(2 * BUF_SIZE + 17);
    let from_machine = machine_encrypt(handle.clone(), &input, usize::MAX).expect("machine");
    let whole = encrypt_with_handle(&handle, &input.to_vec());
    assert_eq!(from_machine, whole);
}

#[test]
fn one_byte_reads_give_identical_output() {
    let handle = test_handle(23);
    let input = pattern(2 * BUF_SIZE + 300);
    let bytewise = machine_encrypt(handle.clone(), &input, 1).expect("byte-by-byte");
    let at_once = machine_encrypt(handle, &input, usize::MAX).expect("all at once");
    assert_eq!(bytewise, at_once);
}

#[test]
fn one_byte_reads_give_identical_output_on_decrypt() {
    let handle = test_handle(24);
    let input = pattern(BUF_SIZE + 100);
    let ciphertext = encrypt_with_handle(&handle, &input.clone());
    let bytewise = machine_decrypt(handle.clone(), &ciphertext, 1).expect("byte-by-byte");
    let at_once = machine_decrypt(handle, &ciphertext, usize::MAX).expect("all at once");
    assert_eq!(bytewise, at_once);
    assert_eq!(bytewise, input);
}

#[test]
fn ragged_reads_give_identical_output() {
    let handle = test_handle(25);
    let input = pattern(BUF_SIZE + 2000);
    let ragged = machine_encrypt(handle.clone(), &input, 977).expect("ragged reads");
    let at_once = machine_encrypt(handle, &input, usize::MAX).expect("all at once");
    assert_eq!(ragged, at_once);
}

#[test]
fn machines_interoperate_with_whole_stream_functions() {
    let handle = test_handle(26);
    let input = pattern(BUF_SIZE + 33);
    // machine encrypts, whole-stream decrypts
    let ciphertext = machine_encrypt(handle.clone(), &input, 1000).expect("machine encryption");
    let output = decrypt(&ciphertext, &handle).expect("whole-stream decryption");
    assert_eq!(output, input);
    // whole-stream encrypts, machine decrypts
    let ciphertext2 = encrypt_with_handle(&handle, &input.clone());
    let output2 = machine_decrypt(handle, &ciphertext2, 1000).expect("machine decryption");
    assert_eq!(output2, input);
}

#[test]
fn machine_detects_tampering() {
    let handle = test_handle(27);
    let input = pattern(BUF_SIZE + 50);
    let mut ciphertext = encrypt_with_handle(&handle, &input);
    ciphertext[10] ^= 0x40;
    assert!(matches!(
        machine_decrypt(handle.clone(), &ciphertext, usize::MAX),
        Err(GaiaError::Decrypting)
    ));
    // the suspension-capable path and the whole-stream path agree on
    // the failure too
    assert!(matches!(decrypt(&ciphertext, &handle), Err(GaiaError::Decrypting)));
    let mut truncated = encrypt_with_handle(&handle, &input);
    truncated.truncate(BUF_SIZE);
    assert!(matches!(
        machine_decrypt(handle.clone(), &truncated, 1000),
        Err(GaiaError::Decrypting)
    ));
    assert!(matches!(decrypt(&truncated, &handle), Err(GaiaError::Decrypting)));
}

#[test]
fn machine_empty_stream() {
    let handle = test_handle(28);
    let ciphertext = machine_encrypt(handle.clone(), &[], usize::MAX).expect("empty encryption");
    assert_eq!(ciphertext.len(), TAG_SIZE);
    let output = machine_decrypt(handle, &ciphertext, usize::MAX).expect("empty decryption");
    assert!(output.is_empty());
}

#[test]
fn chunking_reader_emits_full_then_final() {
    let mut reader = ChunkingReader::new(4);
    assert_eq!(reader.needed(), 5);
    assert!(!reader.ready());
    reader.feed(&vec![1, 2, 3]);
    assert!(!reader.ready());
    assert_eq!(reader.needed(), 2);
    reader.feed(&vec![4, 5]);
    assert!(reader.ready());
    let (chunk, last) = reader.take_chunk();
    assert_eq!(chunk, vec![1, 2, 3, 4]);
    assert!(!last);
    assert!(!reader.was_last_chunk());
    // the lookahead byte stays buffered
    assert_eq!(reader.needed(), 4);
    reader.feed(&vec![6, 7]);
    assert!(!reader.ready());
    reader.feed(&Vec::new());
    assert!(reader.ready());
    let (tail, last) = reader.take_chunk();
    assert_eq!(tail, vec![5, 6, 7]);
    assert!(last);
    assert!(reader.was_last_chunk());
}

#[test]
fn chunking_reader_empty_source_yields_one_final_chunk() {
    let mut reader = ChunkingReader::new(4);
    reader.feed(&Vec::new());
    assert!(reader.ready());
    let (chunk, last) = reader.take_chunk();
    assert!(chunk.is_empty());
    assert!(last);
}

#[test]
fn chunking_reader_exact_window_is_final() {
    let mut reader = ChunkingReader::new(4);
    reader.feed(&vec![1, 2, 3, 4]);
    assert!(!reader.ready());
    reader.feed(&Vec::new());
    assert!(reader.ready());
    let (chunk, last) = reader.take_chunk();
    assert_eq!(chunk, vec![1, 2, 3, 4]);
    assert!(last);
}
