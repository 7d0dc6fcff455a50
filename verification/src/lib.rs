//! A reversible codec between binary data and a human-readable phrase of
//! dictionary words with numeric suffixes. Each pair of bytes becomes one
//! word of the 1024-word dictionary (10 bits) plus a decimal suffix in
//! `[0, 63]` (6 bits); a trailing odd byte becomes a word in the first 256
//! dictionary entries with the literal suffix `64`, which may only appear
//! on the final word of a phrase.

pub mod codec;
pub mod dict;
pub mod laws;
pub mod model;

pub use codec::{binary_to_phrase, phrase_to_binary, DecodeError};
pub use model::DecodeErrorKind;
