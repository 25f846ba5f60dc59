//! Base64 encoding and decoding over the standard 64-character alphabet
//! with `=` padding.
//!
//! The encoder turns an arbitrary byte sequence into Base64 text; the
//! decoder turns Base64 text back into the original bytes, and optionally
//! interprets those bytes as UTF-8 text. Both are specified against a
//! mathematical model of the encoding, and the decoder is proved to be the
//! encoder's inverse.

pub mod alphabet;
pub mod base64_decoder;
pub mod base64_encoder;
