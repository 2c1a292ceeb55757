//! The library's error type.
use tiktoken_rs::EncodeError;
use vstd::prelude::*;

verus! {

/// A failure surfaced to the caller of a split.
#[derive(Debug)]
pub enum AppError {
    /// The tokenizer could not encode the text.
    Encode(EncodeError),
    /// A fault that the library does not recover from, with its message.
    Unhandled(String),
}

} // verus!
