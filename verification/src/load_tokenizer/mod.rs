//! Tokenizer model loaders.

pub mod protobuf;
pub mod sentencepiece;
pub mod vocab_index;
