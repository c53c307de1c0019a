//! `rs_gigatoken`: verified assembly helpers and model loading for a
//! high-throughput BPE tokenizer.
//!
//! * [`api`]: fixed-width padding/truncation of ragged token batches and
//!   prefix/suffix wrapping of single rows.
//! * [`matcher`]: a compiled leftmost-longest multi-pattern matcher.
//! * [`load_tokenizer::sentencepiece`]: conversion of raw SentencePiece BPE
//!   `.model` protobufs into the equivalent `tokenizer.json` document.

pub mod api;

pub use crate::api::{EncodeOptions, PadTruncate, PadTruncateError, pad_truncate_ragged, wrap_truncate};
pub mod load_tokenizer;
pub mod matcher;
pub mod sort;
pub mod text;

pub use crate::matcher::{MatcherError, SubstringMatcher};
pub use crate::load_tokenizer::sentencepiece::{
    SentencePieceError, TokenizerJson, load_sentencepiece_slice, sentencepiece_to_tokenizer_json,
};
