//! The tokenizer: `tiktoken_rs::CoreBPE`, reached through trusted items.
use std::collections::HashSet;
use tiktoken_rs::{CoreBPE, EncodeError};
use vstd::prelude::*;

verus! {

/// A byte-pair-encoding tokenizer; opaque here.
#[verifier::external_type_specification]
#[verifier::external_body]
pub struct ExCoreBPE(CoreBPE);

/// The failure of an encoding, with its message; opaque here.
#[verifier::external_type_specification]
#[verifier::external_body]
pub struct ExEncodeError(EncodeError);

/// The token ids that `tokenizer` gives a text, or `None` where its pattern
/// cannot be matched on the text.
pub uninterp spec fn encoding_of(tokenizer: CoreBPE, text: Seq<char>) -> Option<Seq<u32>>;

/// The text that `tokenizer` gives a run of tokens, or `None` where it cannot.
pub uninterp spec fn decoding_of(tokenizer: CoreBPE, tokens: Seq<u32>) -> Option<Seq<char>>;

/// `tokenizer` was built from the bundled cl100k tables.
pub uninterp spec fn is_cl100k(tokenizer: CoreBPE) -> bool;

/// Relies on `tiktoken_rs::cl100k_base`: builds the tokenizer from the
/// tables and pattern bundled in the crate. Its inputs are fixed, so it either
/// always succeeds or always fails; it succeeds.
#[verifier::external_body]
pub(crate) fn load_cl100k() -> (r: Option<CoreBPE>)
    ensures
        r is Some,
        r matches Some(t) ==> is_cl100k(t),
{
    tiktoken_rs::cl100k_base().ok()
}

/// Relies on `tiktoken_rs::CoreBPE::encode` with no special token allowed:
/// the token ids of a text, special tokens read as ordinary text, or an error
/// where the pattern's matcher fails (its backtracking limit). Pieces missing
/// from the table are looked up byte by byte, and the bundled cl100k table
/// holds every single byte, so only that tokenizer is admitted.
#[verifier::external_body]
pub(crate) fn encode_text(tokenizer: &CoreBPE, text: &str) -> (r: Result<Vec<u32>, EncodeError>)
    requires
        is_cl100k(*tokenizer),
    ensures
        r matches Ok(v) ==> encoding_of(*tokenizer, text@) == Some(v@),
        r is Err ==> encoding_of(*tokenizer, text@) is None,
{
    tokenizer.encode(text, &HashSet::new()).map(|(tokens, _)| tokens)
}

/// Relies on `tiktoken_rs::CoreBPE::decode`: the text of `tokens`, or `None`
/// where a token is unknown or their bytes are not valid UTF-8; a function of
/// the tokenizer and the tokens.
#[verifier::external_body]
pub(crate) fn decode_tokens(tokenizer: &CoreBPE, tokens: Vec<u32>) -> (r: Option<String>)
    ensures
        r matches Some(s) ==> decoding_of(*tokenizer, tokens@) == Some(s@),
        r is None ==> decoding_of(*tokenizer, tokens@) is None,
{
    tokenizer.decode(tokens.as_slice()).ok()
}

} // verus!
