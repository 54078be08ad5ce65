//! The handle codec and the error kinds.

use base64::Engine;
use gaia::error::{CliError, ConversionError, GaiaError};
use gaia::handle::{generate_handle, Handle};
use gaia::keystore::{from_secret, to_secret};
use gaia::stream::{decrypt, encrypt_with_handle};

fn test_handle() -> Handle {
    let key: Vec<u8> = (0u8..32).collect();
    let base_nonce: Vec<u8> = (100u8..108).collect();
    Handle::new(key, base_nonce)
}

#[test]
fn secret_round_trip() {
    let handle = test_handle();
    let secret = to_secret(&handle).expect("encoding never fails");
    let back = from_secret(&secret).expect("own secret must decode");
    assert_eq!(back, handle);
}

#[test]
fn secret_is_urlsafe_base64_of_key_then_nonce() {
    let handle = test_handle();
    let secret = to_secret(&handle).expect("encoding never fails");
    let mut data = handle.key.clone();
    data.extend_from_slice(&handle.base_nonce);
    let expected = base64::prelude::BASE64_URL_SAFE.encode(&data);
    assert_eq!(secret, expected);
    // 40 bytes encode to 54 digits and 2 padding characters
    assert_eq!(secret.len(), 56);
}

#[test]
fn invalid_base64_is_rejected() {
    assert!(matches!(
        from_secret("this is not base64!"),
        Err(ConversionError::Base64EncodingError)
    ));
    // valid digits but non-canonical padding
    assert!(matches!(
        from_secret("AAAA="),
        Err(ConversionError::Base64EncodingError)
    ));
}

#[test]
fn wrong_decoded_length_is_rejected() {
    // ten bytes decode fine but are no key-and-nonce pair
    let short = base64::prelude::BASE64_URL_SAFE.encode([7u8; 10]);
    assert!(matches!(from_secret(&short), Err(ConversionError::KeyEncodingError)));
    let long = base64::prelude::BASE64_URL_SAFE.encode([7u8; 41]);
    assert!(matches!(from_secret(&long), Err(ConversionError::KeyEncodingError)));
}

#[test]
fn decoded_secret_decrypts_what_the_original_encrypted() {
    let handle = test_handle();
    let input = b"the letter".to_vec();
    let ciphertext = encrypt_with_handle(&handle, &input);
    let secret = to_secret(&handle).expect("encoding never fails");
    let restored = from_secret(&secret).expect("own secret must decode");
    let output = decrypt(&ciphertext, &restored).expect("restored handle must decrypt");
    assert_eq!(output, input);
}

#[test]
fn generated_handles_are_well_formed_and_fresh() {
    let a = generate_handle().expect("system randomness");
    let b = generate_handle().expect("system randomness");
    assert_eq!(a.key.len(), 32);
    assert_eq!(a.base_nonce.len(), 8);
    assert_eq!(b.key.len(), 32);
    assert_eq!(b.base_nonce.len(), 8);
    assert_ne!(a, b);
}

#[test]
fn error_messages() {
    assert_eq!(GaiaError::ReadingInput.message(), "could not read the input file");
    assert_eq!(GaiaError::WritingOutput.message(), "could not make the output file");
    assert_eq!(GaiaError::Encrypting.message(), "could not encrypt the file");
    assert_eq!(GaiaError::Decrypting.message(), "could not decrypt the file");
    assert_eq!(
        ConversionError::Base64EncodingError.message(),
        "the key is in an invalid format"
    );
    assert_eq!(ConversionError::KeyEncodingError.message(), "the key itself is invalid");
}

#[test]
fn cli_error_accessors() {
    let e = CliError::OpeningInput("standard input".to_string());
    assert_eq!(e.message(), "could not read from the input");
    assert_eq!(e.stream_name().map(|s| s.as_str()), Some("standard input"));
    assert!(e.secret_cause().is_none());

    let e = CliError::OpeningOutput("output file 'x'".to_string());
    assert_eq!(e.message(), "could not write to the output");

    let e = CliError::WritingSecret("standard error".to_string());
    assert_eq!(e.message(), "could not write the secret out");
    assert_eq!(e.stream_name().map(|s| s.as_str()), Some("standard error"));

    let e = CliError::InvalidSecret(ConversionError::KeyEncodingError);
    assert_eq!(e.message(), "the provided secret is invalid");
    assert!(e.stream_name().is_none());
    assert!(matches!(e.secret_cause(), Some(ConversionError::KeyEncodingError)));
}
