//! Token-bounded text segmentation: splitting a text into chunks whose token
//! count stays within a limit, and packing text fragments into chunks bounded
//! by a character count.
pub mod chunker;
pub mod error;
pub mod grouper;
pub mod tokenizer;

pub use chunker::{
    on_decode_failure, split_encoded, split_text_by_cl100k, split_text_by_max_tokens, split_token_ids,
    Retry,
};
pub use error::AppError;
pub use grouper::group_paragraphs_by_max_content_len;
