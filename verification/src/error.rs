//! Error kinds for streaming encryption, key-handle decoding and the
//! command-line layer.
//!
//! Every failure is terminal for the operation that raised it: nothing is
//! retried and no partial result is released. Rendering a failure for a
//! human (with the underlying I/O cause) is left to the caller; each kind
//! here carries a fixed description.

use vstd::prelude::*;

verus! {

/// A failure while encrypting or decrypting a stream.
#[derive(Clone, Copy, Debug, PartialEq, Eq, Structural)]
pub enum GaiaError {
    /// The underlying input could not be read.
    ReadingInput,
    /// The underlying output could not be written.
    WritingOutput,
    /// The cipher failed to seal a chunk, or the stream outgrew the
    /// 31-bit chunk counter.
    Encrypting,
    /// Authentication failed for a chunk: the data was tampered with,
    /// truncated, reordered, or sealed under a different key or nonce.
    Decrypting,
}

impl GaiaError {
    /// Fixed description of this failure.
    pub fn message(&self) -> (r: &'static str)
        ensures
            *self is ReadingInput ==> r@ == "could not read the input file"@,
            *self is WritingOutput ==> r@ == "could not make the output file"@,
            *self is Encrypting ==> r@ == "could not encrypt the file"@,
            *self is Decrypting ==> r@ == "could not decrypt the file"@,
    {
        match self {
            GaiaError::ReadingInput => "could not read the input file",
            GaiaError::WritingOutput => "could not make the output file",
            GaiaError::Encrypting => "could not encrypt the file",
            GaiaError::Decrypting => "could not decrypt the file",
        }
    }
}

/// A failure while decoding the text form of a key handle.
#[derive(Clone, Copy, Debug, PartialEq, Eq, Structural)]
pub enum ConversionError {
    /// The text is not canonical URL-safe base64.
    Base64EncodingError,
    /// The decoded bytes do not have the length of a key plus a base nonce.
    KeyEncodingError,
}

impl ConversionError {
    /// Fixed description of this failure.
    pub fn message(&self) -> (r: &'static str)
        ensures
            *self is Base64EncodingError ==> r@ == "the key is in an invalid format"@,
            *self is KeyEncodingError ==> r@ == "the key itself is invalid"@,
    {
        match self {
            ConversionError::Base64EncodingError => "the key is in an invalid format",
            ConversionError::KeyEncodingError => "the key itself is invalid",
        }
    }
}

/// A failure at the command-line boundary. The `String` names the stream
/// (an input file, an output file, or a standard stream) that failed.
#[derive(Clone, Debug)]
pub enum CliError {
    /// The input could not be opened.
    OpeningInput(String),
    /// The output could not be opened.
    OpeningOutput(String),
    /// The secret key could not be written out.
    WritingSecret(String),
    /// The provided secret key could not be decoded.
    InvalidSecret(ConversionError),
}

impl CliError {
    /// Fixed description of this failure; the name of the stream concerned
    /// is available through [`CliError::stream_name`].
    pub fn message(&self) -> (r: &'static str)
        ensures
            *self is OpeningInput ==> r@ == "could not read from the input"@,
            *self is OpeningOutput ==> r@ == "could not write to the output"@,
            *self is WritingSecret ==> r@ == "could not write the secret out"@,
            *self is InvalidSecret ==> r@ == "the provided secret is invalid"@,
    {
        match self {
            CliError::OpeningInput(_) => "could not read from the input",
            CliError::OpeningOutput(_) => "could not write to the output",
            CliError::WritingSecret(_) => "could not write the secret out",
            CliError::InvalidSecret(_) => "the provided secret is invalid",
        }
    }

    /// The name of the stream that failed, where one is recorded.
    pub fn stream_name(&self) -> (r: Option<&String>)
        ensures
            match *self {
                CliError::OpeningInput(ref s) => r matches Some(n) && n@ == s@,
                CliError::OpeningOutput(ref s) => r matches Some(n) && n@ == s@,
                CliError::WritingSecret(ref s) => r matches Some(n) && n@ == s@,
                CliError::InvalidSecret(_) => r is None,
            },
    {
        match self {
            CliError::OpeningInput(s) => Some(s),
            CliError::OpeningOutput(s) => Some(s),
            CliError::WritingSecret(s) => Some(s),
            CliError::InvalidSecret(_) => None,
        }
    }

    /// The decoding failure behind an invalid secret, where that is the
    /// cause.
    pub fn secret_cause(&self) -> (r: Option<ConversionError>)
        ensures
            match *self {
                CliError::InvalidSecret(c) => r == Some(c),
                _ => r is None,
            },
    {
        match self {
            CliError::InvalidSecret(c) => Some(*c),
            _ => None,
        }
    }
}

} // verus!
