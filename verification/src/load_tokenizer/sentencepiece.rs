//! Conversion of raw SentencePiece `.model` protobuf files.
//!
//! The tokenizer engine supports SentencePiece **BPE** models with byte
//! fallback. This module reads only the protobuf fields needed to build the
//! equivalent `tokenizer.json` document: the pieces (vocabulary, scores and
//! piece types), the trainer spec (model type, byte fallback, whitespace and
//! unknown-piece options) and the normalizer spec.

use crate::load_tokenizer::protobuf::{
    bytes, bytes_or_empty, copy_range, bytes_within, fields, fixed32_bits, fixed32_bits_or_zero,
    lemma_fields_bytes_within, lemma_last_value_bytes_within, last_value, map_entry, scalar_map,
    spec_fields, varint, varint_or, fields_view, ProtoError, ProtoValue,
    ProtoValueModel,
};
use base64::Engine;
use std::collections::HashMap;
use crate::load_tokenizer::vocab_index::{
    build_vocab_index, index_contains, is_vocab_index, last_occurrence_flags,
};
use crate::sort::{IndexOrder, all_in_domain, indices, lemma_map_preserves_multiset, merge_sort};
use crate::text::{append_decimal, decimal};
use vstd::prelude::*;
use vstd::utf8::{decode_utf8, encode_utf8, is_char_boundary, valid_utf8};

verus! {

broadcast use {
    vstd::std_specs::hash::group_hash_axioms,
    vstd::utf8::group_utf8_lib,
    vstd::seq_lib::group_to_multiset_ensures,
};

pub const MODEL_PIECES: u64 = 1;
pub const MODEL_TRAINER_SPEC: u64 = 2;
pub const MODEL_NORMALIZER_SPEC: u64 = 3;

pub const PIECE_PIECE: u64 = 1;
pub const PIECE_SCORE: u64 = 2;
pub const PIECE_TYPE: u64 = 3;

pub const TRAINER_MODEL_TYPE: u64 = 3;
pub const TRAINER_TREAT_WHITESPACE_AS_SUFFIX: u64 = 24;
pub const TRAINER_BYTE_FALLBACK: u64 = 35;
pub const TRAINER_UNK_PIECE: u64 = 45;

pub const NORM_PRECOMPILED_CHARSMAP: u64 = 2;
pub const NORM_ADD_DUMMY_PREFIX: u64 = 3;
pub const NORM_REMOVE_EXTRA_WHITESPACES: u64 = 4;
pub const NORM_ESCAPE_WHITESPACES: u64 = 5;

pub const TYPE_NORMAL: u64 = 1;
pub const TYPE_CONTROL: u64 = 3;
pub const TYPE_USER_DEFINED: u64 = 4;

/// The SentencePiece model type of BPE models.
pub const MODEL_TYPE_BPE: u64 = 2;

/// Why a SentencePiece model could not be converted.
#[derive(Debug, PartialEq, Eq)]
pub enum SentencePieceError {
    /// The model, a piece, or a spec message is not valid protobuf.
    Protobuf(ProtoError),
    /// A piece field is not length-delimited.
    PieceWireType,
    /// A piece's text is not UTF-8.
    NonUtf8Piece,
    /// The trainer spec field is not length-delimited.
    TrainerSpecWireType,
    /// The normalizer spec field is not length-delimited.
    NormalizerSpecWireType,
    /// The model has no pieces.
    NoPieces,
    /// The model type is not BPE (2); it holds the type found.
    UnsupportedModelType(u64),
    /// The model was not trained with byte fallback.
    ByteFallbackRequired,
    /// The normalizer does not escape whitespace.
    EscapeWhitespacesRequired,
    /// The model treats whitespace as a suffix.
    WhitespaceAsSuffixUnsupported,
    /// The unknown piece's text is not UTF-8.
    NonUtf8UnkPiece,
}

/// A piece of the vocabulary: its text, the bit pattern of its `f32` score,
/// and its type (normal, control, user-defined, ...).
#[derive(Debug)]
pub struct Piece {
    pub content: String,
    pub score_bits: u32,
    pub kind: u64,
}

/// A piece with its text taken as UTF-8 bytes.
pub struct PieceModel {
    pub content: Seq<u8>,
    pub score_bits: u32,
    pub kind: u64,
}

impl View for Piece {
    type V = PieceModel;

    open spec fn view(&self) -> PieceModel {
        PieceModel { content: encode_utf8(self.content@), score_bits: self.score_bits, kind: self.kind }
    }
}

/// The UTF-8 bytes of a string.
pub open spec fn utf8_bytes(s: String) -> Seq<u8> {
    encode_utf8(s@)
}

/// A token that the tokenizer matches before running the model.
#[derive(Debug)]
pub struct AddedToken {
    pub id: usize,
    pub content: String,
    pub single_word: bool,
    pub lstrip: bool,
    pub rstrip: bool,
    pub normalized: bool,
    pub special: bool,
}

/// An added token with its text as UTF-8 bytes.
pub struct AddedTokenModel {
    pub id: usize,
    pub content: Seq<u8>,
    pub single_word: bool,
    pub lstrip: bool,
    pub rstrip: bool,
    pub normalized: bool,
    pub special: bool,
}

impl View for AddedToken {
    type V = AddedTokenModel;

    open spec fn view(&self) -> AddedTokenModel {
        AddedTokenModel {
            id: self.id,
            content: utf8_bytes(self.content),
            single_word: self.single_word,
            lstrip: self.lstrip,
            rstrip: self.rstrip,
            normalized: self.normalized,
            special: self.special,
        }
    }
}

/// The pattern of a replacement step.
#[derive(Debug)]
pub enum ReplacePattern {
    /// A regular expression.
    Regex(String),
    /// A literal string.
    Literal(String),
}

/// A replacement pattern with its text as characters.
pub enum ReplacePatternModel {
    Regex(Seq<char>),
    Literal(Seq<char>),
}

impl View for ReplacePattern {
    type V = ReplacePatternModel;

    open spec fn view(&self) -> ReplacePatternModel {
        match self {
            ReplacePattern::Regex(s) => ReplacePatternModel::Regex(s@),
            ReplacePattern::Literal(s) => ReplacePatternModel::Literal(s@),
        }
    }
}

/// One step of the normalizer sequence.
#[derive(Debug)]
pub enum NormalizerStep {
    /// SentencePiece's precompiled character map, base64-encoded.
    Precompiled { precompiled_charsmap: String },
    /// Strip whitespace on either side.
    Strip { strip_left: bool, strip_right: bool },
    /// Replace each match of `pattern` with `content`.
    Replace { pattern: ReplacePattern, content: String },
    /// Prepend `prepend`.
    Prepend { prepend: String },
}

/// A normalizer step with its texts as characters.
pub enum NormalizerStepModel {
    Precompiled { precompiled_charsmap: Seq<char> },
    Strip { strip_left: bool, strip_right: bool },
    Replace { pattern: ReplacePatternModel, content: Seq<char> },
    Prepend { prepend: Seq<char> },
}

impl View for NormalizerStep {
    type V = NormalizerStepModel;

    open spec fn view(&self) -> NormalizerStepModel {
        match self {
            NormalizerStep::Precompiled { precompiled_charsmap } => NormalizerStepModel::Precompiled {
                precompiled_charsmap: precompiled_charsmap@,
            },
            NormalizerStep::Strip { strip_left, strip_right } => NormalizerStepModel::Strip {
                strip_left: *strip_left,
                strip_right: *strip_right,
            },
            NormalizerStep::Replace { pattern, content } => NormalizerStepModel::Replace {
                pattern: pattern@,
                content: content@,
            },
            NormalizerStep::Prepend { prepend } => NormalizerStepModel::Prepend { prepend: prepend@ },
        }
    }
}

/// The `tokenizer.json` document of a SentencePiece BPE model: what the
/// tokenizer's loader reads. The document's fixed parts (its version, the
/// `Sequence` normalizer and `BPE` model types, and the absent truncation,
/// padding, pre-tokenizer, post-processor, decoder, dropout and subword
/// affixes) are not held here.
#[derive(Debug)]
pub struct TokenizerJson {
    pub added_tokens: Vec<AddedToken>,
    pub normalizers: Vec<NormalizerStep>,
    pub unk_token: String,
    pub fuse_unk: bool,
    pub byte_fallback: bool,
    pub ignore_merges: bool,
    /// Each distinct piece text with its id.
    pub vocab: Vec<(String, usize)>,
    /// The merges in priority order.
    pub merges: Vec<(String, String)>,
}

// ----- The model read from the protobuf -----

/// What the fields of a model message contribute: the pieces in order, and
/// the fields of the last trainer spec and the last normalizer spec.
pub struct ModelParts {
    pub pieces: Seq<PieceModel>,
    pub trainer: Seq<(u64, ProtoValueModel)>,
    pub normalizer: Seq<(u64, ProtoValueModel)>,
}

/// Reading the piece message `b`.
pub open spec fn spec_piece(b: Seq<u8>) -> Result<PieceModel, SentencePieceError> {
    match spec_fields(b) {
        Err(e) => Err(SentencePieceError::Protobuf(e)),
        Ok(pfs) => {
            let content = bytes_or_empty(last_value(pfs, PIECE_PIECE));
            if !valid_utf8(content) {
                Err(SentencePieceError::NonUtf8Piece)
            } else {
                Ok(
                    PieceModel {
                        content,
                        score_bits: fixed32_bits_or_zero(last_value(pfs, PIECE_SCORE)),
                        kind: varint_or(last_value(pfs, PIECE_TYPE), TYPE_NORMAL),
                    },
                )
            }
        },
    }
}

/// What one field of the model message adds to `parts`.
pub open spec fn spec_model_step(parts: ModelParts, entry: (u64, ProtoValueModel)) -> Result<
    ModelParts,
    SentencePieceError,
> {
    let (field, value) = entry;
    if field == MODEL_PIECES {
        match value {
            ProtoValueModel::Bytes(b) => match spec_piece(b) {
                Err(e) => Err(e),
                Ok(piece) => Ok(
                    ModelParts {
                        pieces: parts.pieces.push(piece),
                        trainer: parts.trainer,
                        normalizer: parts.normalizer,
                    },
                ),
            },
            _ => Err(SentencePieceError::PieceWireType),
        }
    } else if field == MODEL_TRAINER_SPEC {
        match value {
            ProtoValueModel::Bytes(b) => match spec_fields(b) {
                Err(e) => Err(SentencePieceError::Protobuf(e)),
                Ok(fs) => Ok(
                    ModelParts { pieces: parts.pieces, trainer: fs, normalizer: parts.normalizer },
                ),
            },
            _ => Err(SentencePieceError::TrainerSpecWireType),
        }
    } else if field == MODEL_NORMALIZER_SPEC {
        match value {
            ProtoValueModel::Bytes(b) => match spec_fields(b) {
                Err(e) => Err(SentencePieceError::Protobuf(e)),
                Ok(fs) => Ok(
                    ModelParts { pieces: parts.pieces, trainer: parts.trainer, normalizer: fs },
                ),
            },
            _ => Err(SentencePieceError::NormalizerSpecWireType),
        }
    } else {
        Ok(parts)
    }
}

/// The parts contributed by the first `k` fields; the first field that
/// cannot be read gives the error.
pub open spec fn spec_model_parts_upto(fs: Seq<(u64, ProtoValueModel)>, k: int) -> Result<
    ModelParts,
    SentencePieceError,
>
    decreases k,
{
    if k <= 0 {
        Ok(ModelParts { pieces: seq![], trainer: seq![], normalizer: seq![] })
    } else {
        match spec_model_parts_upto(fs, k - 1) {
            Err(e) => Err(e),
            Ok(parts) => spec_model_step(parts, fs[k - 1]),
        }
    }
}

/// Reading the model message `data`.
pub open spec fn spec_model_parts(data: Seq<u8>) -> Result<ModelParts, SentencePieceError> {
    match spec_fields(data) {
        Err(e) => Err(SentencePieceError::Protobuf(e)),
        Ok(fs) => spec_model_parts_upto(fs, fs.len() as int),
    }
}

/// The model type named by the trainer spec (unigram, 1, by default).
pub open spec fn model_type(parts: ModelParts) -> u64 {
    varint_or(last_value(parts.trainer, TRAINER_MODEL_TYPE), 1)
}

/// The first unsupported property of a read model, or `None` where the model
/// is a supported SentencePiece BPE model.
pub open spec fn spec_check_error(parts: ModelParts) -> Option<SentencePieceError> {
    if parts.pieces.len() == 0 {
        Some(SentencePieceError::NoPieces)
    } else if model_type(parts) != MODEL_TYPE_BPE {
        Some(SentencePieceError::UnsupportedModelType(model_type(parts)))
    } else if varint_or(last_value(parts.trainer, TRAINER_BYTE_FALLBACK), 0) == 0 {
        Some(SentencePieceError::ByteFallbackRequired)
    } else if varint_or(last_value(parts.normalizer, NORM_ESCAPE_WHITESPACES), 1) == 0 {
        Some(SentencePieceError::EscapeWhitespacesRequired)
    } else if varint_or(last_value(parts.trainer, TRAINER_TREAT_WHITESPACE_AS_SUFFIX), 0) != 0 {
        Some(SentencePieceError::WhitespaceAsSuffixUnsupported)
    } else if last_value(parts.trainer, TRAINER_UNK_PIECE) matches Some(
        ProtoValueModel::Bytes(b),
    ) && !valid_utf8(b) {
        Some(SentencePieceError::NonUtf8UnkPiece)
    } else {
        None
    }
}

/// The error of converting `data`, or `None` where it converts.
pub open spec fn spec_conversion_error(data: Seq<u8>) -> Option<SentencePieceError> {
    match spec_model_parts(data) {
        Err(e) => Some(e),
        Ok(parts) => spec_check_error(parts),
    }
}

// ----- The document built from a model -----

/// Some piece has the text `s`.
pub open spec fn in_vocab(pieces: Seq<PieceModel>, s: Seq<u8>) -> bool {
    exists|i: int| 0 <= i < pieces.len() && #[trigger] pieces[i].content == s
}

/// No later piece has the same text as piece `i`: its id is the one the
/// vocabulary keeps for that text.
pub open spec fn is_last_occurrence(pieces: Seq<PieceModel>, i: int) -> bool {
    forall|j: int| i < j < pieces.len() ==> #[trigger] pieces[j].content != pieces[i].content
}

/// The vocabulary entries of the first `k` pieces: each text whose last
/// occurrence is among them, with the id of that occurrence, by id.
pub open spec fn vocab_entries(pieces: Seq<PieceModel>, k: int) -> Seq<(Seq<u8>, usize)>
    decreases k,
{
    if k <= 0 {
        seq![]
    } else {
        vocab_entries(pieces, k - 1) + if is_last_occurrence(pieces, k - 1) {
            seq![(pieces[k - 1].content, (k - 1) as usize)]
        } else {
            seq![]
        }
    }
}

/// The score bits of the last piece with text `s`, or 0.
pub open spec fn score_of(pieces: Seq<PieceModel>, s: Seq<u8>) -> u32
    decreases pieces.len(),
{
    if pieces.len() == 0 {
        0
    } else if pieces.last().content == s {
        pieces.last().score_bits
    } else {
        score_of(pieces.drop_last(), s)
    }
}

/// The position of `f32` bit pattern `bits` in the order of `f32::total_cmp`:
/// negative values (sign bit set) below positive ones, each ordered by
/// magnitude.
pub open spec fn total_order_key(bits: u32) -> u32 {
    if bits >= 0x8000_0000 {
        (0xffff_ffffu32 - bits) as u32
    } else {
        (bits + 0x8000_0000u32) as u32
    }
}

/// Piece `i`'s text splits at byte `k` into two non-empty vocabulary texts,
/// on a character boundary.
pub open spec fn is_merge_split(pieces: Seq<PieceModel>, i: int, k: int) -> bool {
    let c = pieces[i].content;
    &&& 0 < k < c.len()
    &&& is_char_boundary(c, k)
    &&& in_vocab(pieces, c.subrange(0, k))
    &&& in_vocab(pieces, c.subrange(k, c.len() as int))
}

/// The merges that piece `i` yields at split points below `k`, by split
/// point.
pub open spec fn piece_merges(pieces: Seq<PieceModel>, i: int, k: int) -> Seq<(Seq<u8>, Seq<u8>)>
    decreases k,
{
    if k <= 1 {
        seq![]
    } else {
        let c = pieces[i].content;
        piece_merges(pieces, i, k - 1) + if is_merge_split(pieces, i, k - 1) {
            seq![(c.subrange(0, k - 1), c.subrange(k - 1, c.len() as int))]
        } else {
            seq![]
        }
    }
}

/// The merge candidates of the first `n` pieces: for each distinct text (at
/// its last occurrence), every split into two vocabulary texts.
pub open spec fn merge_candidates(pieces: Seq<PieceModel>, n: int) -> Seq<(Seq<u8>, Seq<u8>)>
    decreases n,
{
    if n <= 0 {
        seq![]
    } else {
        merge_candidates(pieces, n - 1) + if is_last_occurrence(pieces, n - 1) {
            piece_merges(pieces, n - 1, pieces[n - 1].content.len() as int)
        } else {
            seq![]
        }
    }
}

/// Merge `a` comes no later than merge `b`: a higher score of the merged text
/// (by `f32::total_cmp`) first, then the longer left part, then the longer
/// right part.
pub open spec fn merge_precedes(
    pieces: Seq<PieceModel>,
    a: (Seq<u8>, Seq<u8>),
    b: (Seq<u8>, Seq<u8>),
) -> bool {
    let ka = total_order_key(score_of(pieces, a.0 + a.1));
    let kb = total_order_key(score_of(pieces, b.0 + b.1));
    ||| ka > kb
    ||| ka == kb && a.0.len() > b.0.len()
    ||| ka == kb && a.0.len() == b.0.len() && a.1.len() >= b.1.len()
}

/// `ms` is in merge priority order.
pub open spec fn merges_sorted(pieces: Seq<PieceModel>, ms: Seq<(Seq<u8>, Seq<u8>)>) -> bool {
    forall|i: int, j: int| 0 <= i < j < ms.len() ==> merge_precedes(pieces, #[trigger] ms[i], #[trigger] ms[j])
}

/// The added tokens of the first `k` pieces: control and user-defined pieces,
/// with their ids; control pieces are special.
pub open spec fn added_tokens_of(pieces: Seq<PieceModel>, k: int) -> Seq<AddedTokenModel>
    decreases k,
{
    if k <= 0 {
        seq![]
    } else {
        let p = pieces[k - 1];
        added_tokens_of(pieces, k - 1) + if p.kind == TYPE_CONTROL || p.kind == TYPE_USER_DEFINED {
            seq![
                AddedTokenModel {
                    id: (k - 1) as usize,
                    content: p.content,
                    single_word: false,
                    lstrip: false,
                    rstrip: false,
                    normalized: false,
                    special: p.kind == TYPE_CONTROL,
                },
            ]
        } else {
            seq![]
        }
    }
}

/// The character of the standard base64 alphabet (`A`-`Z`, `a`-`z`, `0`-`9`,
/// `+`, `/`) for the six-bit value `v`.
pub open spec fn base64_char(v: int) -> char {
    if v < 26 {
        (65 + v) as char
    } else if v < 52 {
        (97 + v - 26) as char
    } else if v < 62 {
        (48 + v - 52) as char
    } else if v == 62 {
        '+'
    } else {
        '/'
    }
}

/// The standard (RFC 4648 alphabet, padded) base64 text of `bytes`: every
/// three bytes, read as 24 bits, become four characters of six bits each,
/// most significant first; a final group of one or two bytes is filled with
/// zero bits and padded with `=` to four characters.
pub open spec fn base64_standard(bytes: Seq<u8>) -> Seq<char>
    decreases bytes.len(),
{
    if bytes.len() == 0 {
        seq![]
    } else if bytes.len() == 1 {
        let b0 = bytes[0] as int;
        seq![base64_char(b0 / 4), base64_char((b0 % 4) * 16), '=', '=']
    } else if bytes.len() == 2 {
        let (b0, b1) = (bytes[0] as int, bytes[1] as int);
        seq![
            base64_char(b0 / 4),
            base64_char((b0 % 4) * 16 + b1 / 16),
            base64_char((b1 % 16) * 4),
            '=',
        ]
    } else {
        let (b0, b1, b2) = (bytes[0] as int, bytes[1] as int, bytes[2] as int);
        seq![
            base64_char(b0 / 4),
            base64_char((b0 % 4) * 16 + b1 / 16),
            base64_char((b1 % 16) * 4 + b2 / 64),
            base64_char(b2 % 64),
        ] + base64_standard(bytes.skip(3))
    }
}

/// The normalizer sequence of a model: the precompiled character map where
/// there is one; stripping and collapsing of repeated spaces unless extra
/// whitespace is kept; a dummy `▁` prefix unless disabled; and spaces turned
/// into `▁`.
pub open spec fn spec_normalizers(parts: ModelParts) -> Seq<NormalizerStepModel> {
    let charsmap = bytes_or_empty(last_value(parts.normalizer, NORM_PRECOMPILED_CHARSMAP));
    let precompiled = if charsmap.len() > 0 {
        seq![NormalizerStepModel::Precompiled { precompiled_charsmap: base64_standard(charsmap) }]
    } else {
        seq![]
    };
    let whitespace = if varint_or(last_value(parts.normalizer, NORM_REMOVE_EXTRA_WHITESPACES), 1)
        != 0 {
        seq![
            NormalizerStepModel::Strip { strip_left: true, strip_right: true },
            NormalizerStepModel::Replace {
                pattern: ReplacePatternModel::Regex(" {2,}"@),
                content: " "@,
            },
        ]
    } else {
        seq![]
    };
    let prefix = if varint_or(last_value(parts.normalizer, NORM_ADD_DUMMY_PREFIX), 1) != 0 {
        seq![NormalizerStepModel::Prepend { prepend: "\u{2581}"@ }]
    } else {
        seq![]
    };
    precompiled + whitespace + prefix + seq![
        NormalizerStepModel::Replace {
            pattern: ReplacePatternModel::Literal(" "@),
            content: "\u{2581}"@,
        },
    ]
}

/// The unknown-piece text of a model: the trainer spec's, or `<unk>`.
pub open spec fn spec_unk_token(parts: ModelParts) -> Seq<u8> {
    match last_value(parts.trainer, TRAINER_UNK_PIECE) {
        Some(ProtoValueModel::Bytes(b)) => b,
        _ => encode_utf8("<unk>"@),
    }
}

/// `doc` is the `tokenizer.json` document of the model `parts`.
pub open spec fn is_tokenizer_json_of(doc: TokenizerJson, parts: ModelParts) -> bool {
    let pieces = parts.pieces;
    let merges = doc.merges@.map_values(|m: (String, String)| (utf8_bytes(m.0), utf8_bytes(m.1)));
    &&& doc.vocab@.map_values(|e: (String, usize)| (utf8_bytes(e.0), e.1)) == vocab_entries(
        pieces,
        pieces.len() as int,
    )
    &&& merges.to_multiset() == merge_candidates(pieces, pieces.len() as int).to_multiset()
    &&& merges_sorted(pieces, merges)
    &&& doc.added_tokens@.map_values(|t: AddedToken| t@) == added_tokens_of(
        pieces,
        pieces.len() as int,
    )
    &&& doc.normalizers@.map_values(|s: NormalizerStep| s@) == spec_normalizers(parts)
    &&& utf8_bytes(doc.unk_token) == spec_unk_token(parts)
    &&& doc.fuse_unk
    &&& doc.byte_fallback
    &&& !doc.ignore_merges
}

// ----- Trusted calls -----

/// `String::from_utf8`: it succeeds exactly on valid UTF-8 (vstd's
/// `valid_utf8`), and then the string's UTF-8 encoding is the input.
#[verifier::external_body]
fn string_from_utf8(bytes: Vec<u8>) -> (res: Option<String>)
    ensures
        res is Some <==> valid_utf8(bytes@),
        res matches Some(s) ==> encode_utf8(s@) == bytes@,
{
    String::from_utf8(bytes).ok()
}

/// `base64::engine::general_purpose::STANDARD.encode`: the standard padded
/// base64 text of `bytes`. The crate panics only when the encoded length
/// overflows a `usize`, which the `requires` rules out.
#[verifier::external_body]
fn base64_encode(bytes: &[u8]) -> (res: String)
    requires
        bytes@.len() <= usize::MAX / 2,
    ensures
        res@ == base64_standard(bytes@),
{
    base64::engine::general_purpose::STANDARD.encode(bytes)
}

// ----- Reading the model -----

/// The pieces of a vector, by view.
pub open spec fn pieces_view(pieces: Seq<Piece>) -> Seq<PieceModel> {
    pieces.map_values(|p: Piece| p@)
}

/// Read the piece message `data`.
fn read_piece(data: &[u8]) -> (res: Result<Piece, SentencePieceError>)
    ensures
        match spec_piece(data@) {
            Ok(p) => res matches Ok(r) && r@ == p,
            Err(e) => res matches Err(r) && r == e,
        },
{
    let piece = match scalar_map(data) {
        Ok(m) => m,
        Err(e) => {
            return Err(SentencePieceError::Protobuf(e));
        },
    };
    let content = bytes(&piece, PIECE_PIECE);
    let content = match string_from_utf8(content) {
        Some(s) => s,
        None => {
            return Err(SentencePieceError::NonUtf8Piece);
        },
    };
    Ok(
        Piece {
            content,
            score_bits: fixed32_bits(&piece, PIECE_SCORE),
            kind: varint(&piece, PIECE_TYPE, TYPE_NORMAL),
        },
    )
}

/// The maps agree with the fields of the last trainer and normalizer specs.
pub open spec fn maps_hold(
    trainer: Map<u64, ProtoValue>,
    normalizer: Map<u64, ProtoValue>,
    parts: ModelParts,
) -> bool {
    &&& forall|f: u64| #[trigger] map_entry(trainer, f) == last_value(parts.trainer, f)
    &&& forall|f: u64| #[trigger] map_entry(normalizer, f) == last_value(parts.normalizer, f)
}

/// Once a field of the model message fails, reading the message fails with
/// the same error.
proof fn lemma_model_error_persists(fs: Seq<(u64, ProtoValueModel)>, k: int, m: int)
    requires
        0 <= k <= m,
        spec_model_parts_upto(fs, k) is Err,
    ensures
        spec_model_parts_upto(fs, m) == spec_model_parts_upto(fs, k),
    decreases m - k,
{
    if m > k {
        lemma_model_error_persists(fs, k, m - 1);
    }
}

/// Read the model message `data` into its pieces and its trainer and
/// normalizer spec maps.
#[verifier::rlimit(40)]
fn read_model(data: &[u8]) -> (res: Result<
    (Vec<Piece>, HashMap<u64, ProtoValue>, HashMap<u64, ProtoValue>),
    SentencePieceError,
>)
    ensures
        match spec_model_parts(data@) {
            Ok(parts) => res matches Ok((pieces, trainer, normalizer)) && {
                &&& pieces_view(pieces@) == parts.pieces
                &&& maps_hold(trainer@, normalizer@, parts)
                &&& bytes_within(parts.normalizer, data@.len())
            },
            Err(e) => res matches Err(r) && r == e,
        },
{
    let fs = match fields(data) {
        Ok(fs) => fs,
        Err(e) => {
            return Err(SentencePieceError::Protobuf(e));
        },
    };
    let ghost all = fields_view(fs@);
    proof {
        lemma_fields_bytes_within(data@, 0);
    }
    let mut pieces: Vec<Piece> = Vec::new();
    let mut trainer: HashMap<u64, ProtoValue> = HashMap::new();
    let mut normalizer: HashMap<u64, ProtoValue> = HashMap::new();
    let ghost mut trainer_fs: Seq<(u64, ProtoValueModel)> = seq![];
    let ghost mut normalizer_fs: Seq<(u64, ProtoValueModel)> = seq![];
    proof {
        assert(pieces_view(pieces@) =~= seq![]);
    }
    for entry in it: fs.into_iter()
        invariant
            fields_view(it.seq()) == all,
            spec_fields(data@) == Ok::<Seq<(u64, ProtoValueModel)>, ProtoError>(all),
            bytes_within(all, data@.len()),
            spec_model_parts_upto(all, it.index() as int) == Ok::<ModelParts, SentencePieceError>(
                ModelParts {
                    pieces: pieces_view(pieces@),
                    trainer: trainer_fs,
                    normalizer: normalizer_fs,
                },
            ),
            forall|f: u64| #[trigger] map_entry(trainer@, f) == last_value(trainer_fs, f),
            forall|f: u64| #[trigger] map_entry(normalizer@, f) == last_value(normalizer_fs, f),
            bytes_within(normalizer_fs, data@.len()),
    {
        let ghost k = it.index() as int;
        let ghost e = (entry.0, entry.1@);
        proof {
            assert(e == all[k]);
        }
        let (field, value) = entry;
        if field == MODEL_PIECES {
            match value {
                ProtoValue::Bytes(piece_data) => {
                    let piece = match read_piece(piece_data.as_slice()) {
                        Ok(p) => p,
                        Err(err) => {
                            proof {
                                lemma_model_error_persists(all, k + 1, all.len() as int);
                            }
                            return Err(err);
                        },
                    };
                    proof {
                        assert(pieces_view(pieces@.push(piece)) =~= pieces_view(pieces@).push(
                            piece@,
                        ));
                    }
                    pieces.push(piece);
                },
                _ => {
                    proof {
                        lemma_model_error_persists(all, k + 1, all.len() as int);
                    }
                    return Err(SentencePieceError::PieceWireType);
                },
            }
        } else if field == MODEL_TRAINER_SPEC {
            match value {
                ProtoValue::Bytes(spec) => {
                    trainer = match scalar_map(spec.as_slice()) {
                        Ok(m) => m,
                        Err(e) => {
                            proof {
                                lemma_model_error_persists(all, k + 1, all.len() as int);
                            }
                            return Err(SentencePieceError::Protobuf(e));
                        },
                    };
                    proof {
                        trainer_fs = spec_fields(spec@).unwrap();
                    }
                },
                _ => {
                    proof {
                        lemma_model_error_persists(all, k + 1, all.len() as int);
                    }
                    return Err(SentencePieceError::TrainerSpecWireType);
                },
            }
        } else if field == MODEL_NORMALIZER_SPEC {
            match value {
                ProtoValue::Bytes(spec) => {
                    normalizer = match scalar_map(spec.as_slice()) {
                        Ok(m) => m,
                        Err(e) => {
                            proof {
                                lemma_model_error_persists(all, k + 1, all.len() as int);
                            }
                            return Err(SentencePieceError::Protobuf(e));
                        },
                    };
                    proof {
                        normalizer_fs = spec_fields(spec@).unwrap();
                        lemma_fields_bytes_within(spec@, 0);
                        assert(spec@.len() <= data@.len());
                    }
                },
                _ => {
                    proof {
                        lemma_model_error_persists(all, k + 1, all.len() as int);
                    }
                    return Err(SentencePieceError::NormalizerSpecWireType);
                },
            }
        }
    }
    proof {
        assert(all.len() == fs@.len());
    }
    Ok((pieces, trainer, normalizer))
}

// ----- Building the document -----

/// The UTF-8 bytes of piece `i`'s text.
pub fn piece_bytes(pieces: &Vec<Piece>, i: usize) -> (res: &[u8])
    requires
        i < pieces@.len(),
    ensures
        res@ == pieces_view(pieces@)[i as int].content,
{
    pieces[i].content.as_str().as_bytes()
}

/// The vocabulary: each distinct piece text with the id of its last
/// occurrence, by id.
#[verifier::rlimit(40)]
fn vocab_of(pieces: &Vec<Piece>, last: &Vec<bool>) -> (res: Vec<(String, usize)>)
    requires
        last@.len() == pieces@.len(),
        forall|i: int|
            0 <= i < pieces@.len() ==> #[trigger] last@[i] == is_last_occurrence(
                pieces_view(pieces@),
                i,
            ),
    ensures
        res@.map_values(|e: (String, usize)| (utf8_bytes(e.0), e.1)) == vocab_entries(
            pieces_view(pieces@),
            pieces@.len() as int,
        ),
{
    let ghost pv = pieces_view(pieces@);
    let mut vocab: Vec<(String, usize)> = Vec::new();
    let mut i: usize = 0;
    while i < pieces.len()
        invariant
            i <= pieces@.len() == last@.len(),
            pv == pieces_view(pieces@),
            forall|t: int| 0 <= t < pieces@.len() ==> #[trigger] last@[t] == is_last_occurrence(pv, t),
            vocab@.map_values(|e: (String, usize)| (utf8_bytes(e.0), e.1)) == vocab_entries(
                pv,
                i as int,
            ),
        decreases pieces@.len() - i,
    {
        let ghost before = vocab@;
        if last[i] {
            vocab.push((pieces[i].content.clone(), i));
            proof {
                assert(vocab@.map_values(|e: (String, usize)| (utf8_bytes(e.0), e.1)) =~= before.map_values(
                    |e: (String, usize)| (utf8_bytes(e.0), e.1),
                ).push((pv[i as int].content, i)));
            }
        } else {
            proof {
                assert(vocab_entries(pv, i + 1) =~= vocab_entries(pv, i as int));
            }
        }
        i += 1;
    }
    vocab
}

/// A merge being collected: its two parts, and the sort key of its score and
/// the byte lengths of its parts.
struct MergeCandidate {
    left: String,
    right: String,
    key: u32,
    left_len: usize,
    right_len: usize,
}

/// The two parts of a candidate, as UTF-8 bytes.
spec fn candidate_view(c: MergeCandidate) -> (Seq<u8>, Seq<u8>) {
    (utf8_bytes(c.left), utf8_bytes(c.right))
}

/// The candidates of a vector, by view.
spec fn candidates_view(cs: Seq<MergeCandidate>) -> Seq<(Seq<u8>, Seq<u8>)> {
    cs.map_values(|c: MergeCandidate| candidate_view(c))
}

/// The candidate's sort fields agree with its parts.
spec fn candidate_wf(pieces: Seq<PieceModel>, c: MergeCandidate) -> bool {
    let (l, r) = candidate_view(c);
    &&& c.key == total_order_key(score_of(pieces, l + r))
    &&& c.left_len == l.len()
    &&& c.right_len == r.len()
}

/// The `f32::total_cmp` sort key of a score's bit pattern.
fn score_key(bits: u32) -> (res: u32)
    ensures
        res == total_order_key(bits),
{
    if bits >= 0x8000_0000 {
        0xffff_ffff - bits
    } else {
        bits + 0x8000_0000
    }
}

/// The score of a text is that of its last occurrence.
proof fn lemma_score_of_last(pieces: Seq<PieceModel>, i: int)
    requires
        0 <= i < pieces.len(),
        is_last_occurrence(pieces, i),
    ensures
        score_of(pieces, pieces[i].content) == pieces[i].score_bits,
    decreases pieces.len(),
{
    if i < pieces.len() - 1 {
        let rest = pieces.drop_last();
        assert(pieces.last().content != pieces[i].content);
        assert(rest[i] == pieces[i]);
        assert forall|j: int| i < j < rest.len() implies #[trigger] rest[j].content
            != rest[i].content by {
            assert(rest[j] == pieces[j]);
        }
        lemma_score_of_last(rest, i);
    }
}

/// Append to `out` the merges of piece `i`, a last occurrence.
#[verifier::rlimit(40)]
fn collect_piece_merges(
    pieces: &Vec<Piece>,
    index: &Vec<usize>,
    i: usize,
    out: &mut Vec<MergeCandidate>,
)
    requires
        is_vocab_index(pieces_view(pieces@), index@),
        i < pieces@.len(),
        is_last_occurrence(pieces_view(pieces@), i as int),
        forall|t: int|
            0 <= t < old(out)@.len() ==> candidate_wf(
                pieces_view(pieces@),
                #[trigger] old(out)@[t],
            ),
    ensures
        candidates_view(final(out)@) == candidates_view(old(out)@) + piece_merges(
            pieces_view(pieces@),
            i as int,
            pieces_view(pieces@)[i as int].content.len() as int,
        ),
        forall|t: int|
            0 <= t < final(out)@.len() ==> candidate_wf(
                pieces_view(pieces@),
                #[trigger] final(out)@[t],
            ),
{
    let ghost pv = pieces_view(pieces@);
    let ghost c = pv[i as int].content;
    let text = pieces[i].content.as_str();
    let len = text.as_bytes().len();
    let key = score_key(pieces[i].score_bits);
    proof {
        lemma_score_of_last(pv, i as int);
        assert(valid_utf8(c));
    }
    let mut k: usize = 1;
    while k < len
        invariant
            1 <= k,
            k <= len || k == 1,
            len == c.len(),
            i < pv.len(),
            pv == pieces_view(pieces@),
            is_vocab_index(pv, index@),
            c == pv[i as int].content,
            encode_utf8(text@) == c,
            valid_utf8(c),
            key == total_order_key(score_of(pv, c)),
            candidates_view(out@) == candidates_view(old(out)@) + piece_merges(pv, i as int, k as int),
            forall|t: int| 0 <= t < out@.len() ==> candidate_wf(pv, #[trigger] out@[t]),
        decreases len - k,
    {
        let ghost before = out@;
        if text.is_char_boundary(k) {
            let (left, right) = text.split_at(k);
            if index_contains(pieces, index, left.as_bytes()) && index_contains(
                pieces,
                index,
                right.as_bytes(),
            ) {
                let cand = MergeCandidate {
                    left: left.to_owned(),
                    right: right.to_owned(),
                    key,
                    left_len: k,
                    right_len: len - k,
                };
                proof {
                    assert(c.subrange(0, k as int) + c.subrange(k as int, len as int) =~= c);
                }
                out.push(cand);
                proof {
                    assert(candidates_view(out@) =~= candidates_view(before).push(
                        (c.subrange(0, k as int), c.subrange(k as int, len as int)),
                    ));
                }
            } else {
                proof {
                    assert(piece_merges(pv, i as int, k + 1) =~= piece_merges(pv, i as int, k as int));
                }
            }
        } else {
            proof {
                assert(piece_merges(pv, i as int, k + 1) =~= piece_merges(pv, i as int, k as int));
            }
        }
        k += 1;
    }
    proof {
        if len == 0 {
            assert(piece_merges(pv, i as int, len as int) =~= piece_merges(pv, i as int, k as int));
        }
    }
}

/// The merge candidates of all pieces, in the order of `merge_candidates`.
#[verifier::rlimit(40)]
fn collect_merges(pieces: &Vec<Piece>, index: &Vec<usize>, last: &Vec<bool>) -> (res: Vec<
    MergeCandidate,
>)
    requires
        is_vocab_index(pieces_view(pieces@), index@),
        last@.len() == pieces@.len(),
        forall|i: int|
            0 <= i < pieces@.len() ==> #[trigger] last@[i] == is_last_occurrence(
                pieces_view(pieces@),
                i,
            ),
    ensures
        candidates_view(res@) == merge_candidates(pieces_view(pieces@), pieces@.len() as int),
        forall|t: int| 0 <= t < res@.len() ==> candidate_wf(pieces_view(pieces@), #[trigger] res@[t]),
{
    let ghost pv = pieces_view(pieces@);
    let mut out: Vec<MergeCandidate> = Vec::new();
    let mut i: usize = 0;
    proof {
        assert(candidates_view(out@) =~= seq![]);
    }
    while i < pieces.len()
        invariant
            i <= pieces@.len() == last@.len(),
            pv == pieces_view(pieces@),
            is_vocab_index(pv, index@),
            forall|t: int| 0 <= t < pieces@.len() ==> #[trigger] last@[t] == is_last_occurrence(pv, t),
            candidates_view(out@) == merge_candidates(pv, i as int),
            forall|t: int| 0 <= t < out@.len() ==> candidate_wf(pv, #[trigger] out@[t]),
        decreases pieces@.len() - i,
    {
        if last[i] {
            collect_piece_merges(pieces, index, i, &mut out);
        } else {
            proof {
                assert(merge_candidates(pv, i + 1) =~= merge_candidates(pv, i as int));
            }
        }
        i += 1;
    }
    out
}

/// Merge priority is total.
proof fn lemma_precedes_total(
    pieces: Seq<PieceModel>,
    a: (Seq<u8>, Seq<u8>),
    b: (Seq<u8>, Seq<u8>),
)
    ensures
        merge_precedes(pieces, a, b) || merge_precedes(pieces, b, a),
{
}

/// Merge priority is transitive.
proof fn lemma_precedes_transitive(
    pieces: Seq<PieceModel>,
    a: (Seq<u8>, Seq<u8>),
    b: (Seq<u8>, Seq<u8>),
    c: (Seq<u8>, Seq<u8>),
)
    requires
        merge_precedes(pieces, a, b),
        merge_precedes(pieces, b, c),
    ensures
        merge_precedes(pieces, a, c),
{
}

/// Candidate `a` goes strictly before candidate `b`.
fn candidate_before(a: &MergeCandidate, b: &MergeCandidate) -> (res: bool)
    ensures
        res == (a.key > b.key || (a.key == b.key && a.left_len > b.left_len) || (a.key == b.key
            && a.left_len == b.left_len && a.right_len > b.right_len)),
{
    a.key > b.key || (a.key == b.key && a.left_len > b.left_len) || (a.key == b.key && a.left_len
        == b.left_len && a.right_len > b.right_len)
}

/// The merge priority order on candidate indices.
struct MergeOrder<'a> {
    cands: &'a Vec<MergeCandidate>,
    pieces: Ghost<Seq<PieceModel>>,
}

impl<'a> IndexOrder for MergeOrder<'a> {
    closed spec fn in_domain(&self, i: usize) -> bool {
        i < self.cands@.len() && candidate_wf(self.pieces@, self.cands@[i as int])
    }

    closed spec fn before_eq(&self, i: usize, j: usize) -> bool {
        merge_precedes(
            self.pieces@,
            candidate_view(self.cands@[i as int]),
            candidate_view(self.cands@[j as int]),
        )
    }

    proof fn lemma_total(&self, i: usize, j: usize) {
        lemma_precedes_total(
            self.pieces@,
            candidate_view(self.cands@[i as int]),
            candidate_view(self.cands@[j as int]),
        );
    }

    proof fn lemma_transitive(&self, i: usize, j: usize, k: usize) {
        lemma_precedes_transitive(
            self.pieces@,
            candidate_view(self.cands@[i as int]),
            candidate_view(self.cands@[j as int]),
            candidate_view(self.cands@[k as int]),
        );
    }

    fn goes_before_eq(&self, i: usize, j: usize) -> (res: bool) {
        !candidate_before(&self.cands[j], &self.cands[i])
    }
}

/// The merges of the pieces in priority order, as pairs of texts.
#[verifier::rlimit(40)]
fn merges_of(pieces: &Vec<Piece>, index: &Vec<usize>, last: &Vec<bool>) -> (res: Vec<
    (String, String),
>)
    requires
        is_vocab_index(pieces_view(pieces@), index@),
        last@.len() == pieces@.len(),
        forall|i: int|
            0 <= i < pieces@.len() ==> #[trigger] last@[i] == is_last_occurrence(
                pieces_view(pieces@),
                i,
            ),
    ensures
        ({
            let pv = pieces_view(pieces@);
            let merges = res@.map_values(|m: (String, String)| (utf8_bytes(m.0), utf8_bytes(m.1)));
            &&& merges.to_multiset() == merge_candidates(pv, pv.len() as int).to_multiset()
            &&& merges_sorted(pv, merges)
        }),
{
    let ghost pv = pieces_view(pieces@);
    let candidates = collect_merges(pieces, index, last);
    let m = candidates.len();
    let ids = indices(m);
    let order_by = MergeOrder { cands: &candidates, pieces: Ghost(pv) };
    proof {
        assert(all_in_domain(&order_by, ids@));
        assert(ids@.subrange(0, m as int) =~= ids@);
    }
    let sorted = merge_sort(&order_by, &ids, 0, m);
    let ghost view_of = |k: usize| candidate_view(candidates@[k as int]);
    let mut merges: Vec<(String, String)> = Vec::new();
    let mut p: usize = 0;
    proof {
        assert(sorted@.to_multiset().len() == sorted@.len());
        assert(ids@.to_multiset().len() == ids@.len());
    }
    while p < sorted.len()
        invariant
            p <= sorted@.len() == m == candidates@.len(),
            order_by.cands@ == candidates@,
            order_by.pieces@ == pv,
            forall|k: usize| #[trigger] view_of(k) == candidate_view(candidates@[k as int]),
            all_in_domain(&order_by, sorted@),
            merges@.map_values(|m: (String, String)| (utf8_bytes(m.0), utf8_bytes(m.1)))
                == sorted@.take(p as int).map_values(view_of),
        decreases sorted@.len() - p,
    {
        let k = sorted[p];
        let ghost before = merges@;
        proof {
            assert(order_by.in_domain(k));
        }
        let pair = (candidates[k].left.clone(), candidates[k].right.clone());
        proof {
            assert(pair.0 == candidates@[k as int].left && pair.1 == candidates@[k as int].right);
            assert(view_of(k) == candidate_view(candidates@[k as int]));
            assert((utf8_bytes(pair.0), utf8_bytes(pair.1)) == candidate_view(candidates@[k as int]));
        }
        merges.push(pair);
        proof {
            assert(merges@ == before.push(pair));
            assert(sorted@.take(p + 1) =~= sorted@.take(p as int).push(k));
            assert(sorted@.take(p + 1).map_values(view_of) =~= sorted@.take(p as int).map_values(
                view_of,
            ).push(view_of(k)));
            assert(merges@.map_values(|m: (String, String)| (utf8_bytes(m.0), utf8_bytes(m.1)))
                =~= before.map_values(|m: (String, String)| (utf8_bytes(m.0), utf8_bytes(m.1))).push(
                view_of(k),
            ));
        }
        p += 1;
    }
    proof {
        let mv = merges@.map_values(|m: (String, String)| (utf8_bytes(m.0), utf8_bytes(m.1)));
        assert(sorted@.take(sorted@.len() as int) =~= sorted@);
        assert(mv == sorted@.map_values(view_of));
        lemma_map_preserves_multiset(sorted@, ids@, view_of);
        assert(ids@.map_values(view_of) =~= candidates_view(candidates@));
        assert forall|i: int, j: int| 0 <= i < j < mv.len() implies merge_precedes(
            pv,
            #[trigger] mv[i],
            #[trigger] mv[j],
        ) by {
            assert(order_by.before_eq(sorted@[i], sorted@[j]));
        }
    }
    merges
}

/// The added tokens: control and user-defined pieces, by id.
fn added_tokens_from(pieces: &Vec<Piece>) -> (res: Vec<AddedToken>)
    ensures
        res@.map_values(|t: AddedToken| t@) == added_tokens_of(
            pieces_view(pieces@),
            pieces@.len() as int,
        ),
{
    let ghost pv = pieces_view(pieces@);
    let mut added: Vec<AddedToken> = Vec::new();
    let mut i: usize = 0;
    proof {
        assert(added@.map_values(|t: AddedToken| t@) =~= seq![]);
    }
    while i < pieces.len()
        invariant
            i <= pieces@.len(),
            pv == pieces_view(pieces@),
            added@.map_values(|t: AddedToken| t@) == added_tokens_of(pv, i as int),
        decreases pieces@.len() - i,
    {
        let kind = pieces[i].kind;
        let ghost before = added@;
        if kind == TYPE_CONTROL || kind == TYPE_USER_DEFINED {
            added.push(
                AddedToken {
                    id: i,
                    content: pieces[i].content.clone(),
                    single_word: false,
                    lstrip: false,
                    rstrip: false,
                    normalized: false,
                    special: kind == TYPE_CONTROL,
                },
            );
            proof {
                assert(added@.map_values(|t: AddedToken| t@) =~= before.map_values(
                    |t: AddedToken| t@,
                ).push(added@.last()@));
            }
        } else {
            proof {
                assert(added_tokens_of(pv, i + 1) =~= added_tokens_of(pv, i as int));
            }
        }
        i += 1;
    }
    added
}

/// The normalizer sequence of the model whose normalizer spec `normalizer`
/// holds.
#[verifier::rlimit(40)]
fn normalizers_of(normalizer: &HashMap<u64, ProtoValue>, Ghost(parts): Ghost<ModelParts>) -> (res:
    Vec<NormalizerStep>)
    requires
        forall|f: u64| #[trigger] map_entry(normalizer@, f) == last_value(parts.normalizer, f),
        bytes_within(parts.normalizer, usize::MAX as nat / 2),
    ensures
        res@.map_values(|s: NormalizerStep| s@) == spec_normalizers(parts),
{
    let mut steps: Vec<NormalizerStep> = Vec::new();
    let charsmap = bytes(normalizer, NORM_PRECOMPILED_CHARSMAP);
    proof {
        assert(map_entry(normalizer@, NORM_PRECOMPILED_CHARSMAP) == last_value(
            parts.normalizer,
            NORM_PRECOMPILED_CHARSMAP,
        ));
        lemma_last_value_bytes_within(
            parts.normalizer,
            NORM_PRECOMPILED_CHARSMAP,
            usize::MAX as nat / 2,
        );
    }
    if charsmap.len() > 0 {
        steps.push(
            NormalizerStep::Precompiled { precompiled_charsmap: base64_encode(charsmap.as_slice()) },
        );
    }
    let ghost first = steps@.map_values(|s: NormalizerStep| s@);
    proof {
        assert(map_entry(normalizer@, NORM_REMOVE_EXTRA_WHITESPACES) == last_value(
            parts.normalizer,
            NORM_REMOVE_EXTRA_WHITESPACES,
        ));
        assert(map_entry(normalizer@, NORM_ADD_DUMMY_PREFIX) == last_value(
            parts.normalizer,
            NORM_ADD_DUMMY_PREFIX,
        ));
    }
    if varint(normalizer, NORM_REMOVE_EXTRA_WHITESPACES, 1) != 0 {
        steps.push(NormalizerStep::Strip { strip_left: true, strip_right: true });
        steps.push(
            NormalizerStep::Replace {
                pattern: ReplacePattern::Regex(String::from_str(" {2,}")),
                content: String::from_str(" "),
            },
        );
    }
    let ghost second = steps@.map_values(|s: NormalizerStep| s@);
    if varint(normalizer, NORM_ADD_DUMMY_PREFIX, 1) != 0 {
        steps.push(NormalizerStep::Prepend { prepend: String::from_str("\u{2581}") });
    }
    let ghost third = steps@.map_values(|s: NormalizerStep| s@);
    steps.push(
        NormalizerStep::Replace {
            pattern: ReplacePattern::Literal(String::from_str(" ")),
            content: String::from_str("\u{2581}"),
        },
    );
    proof {
        let spec = spec_normalizers(parts);
        assert(steps@.map_values(|s: NormalizerStep| s@) =~= third.push(steps@.last()@));
        assert(spec =~= steps@.map_values(|s: NormalizerStep| s@));
    }
    steps
}

/// Convert a raw SentencePiece BPE model to its `tokenizer.json` document.
///
/// This is a load-time operation: the document is what the tokenizer's
/// loader consumes, and it is never used during encoding.
#[verifier::rlimit(40)]
pub fn sentencepiece_to_tokenizer_json(data: &[u8]) -> (res: Result<
    TokenizerJson,
    SentencePieceError,
>)
    requires
        data@.len() <= usize::MAX / 2,
    ensures
        match spec_conversion_error(data@) {
            Some(e) => res matches Err(r) && r == e,
            None => res matches Ok(doc) && spec_model_parts(data@) matches Ok(parts)
                && is_tokenizer_json_of(doc, parts) && parts.pieces.len() <= usize::MAX,
        },
{
    let (pieces, trainer, normalizer) = read_model(data)?;
    let ghost parts = spec_model_parts(data@).unwrap();
    if pieces.len() == 0 {
        return Err(SentencePieceError::NoPieces);
    }
    let model_type = varint(&trainer, TRAINER_MODEL_TYPE, 1);
    proof {
        assert(map_entry(trainer@, TRAINER_MODEL_TYPE) == last_value(parts.trainer, TRAINER_MODEL_TYPE));
        assert(map_entry(trainer@, TRAINER_BYTE_FALLBACK) == last_value(
            parts.trainer,
            TRAINER_BYTE_FALLBACK,
        ));
        assert(map_entry(normalizer@, NORM_ESCAPE_WHITESPACES) == last_value(
            parts.normalizer,
            NORM_ESCAPE_WHITESPACES,
        ));
        assert(map_entry(trainer@, TRAINER_TREAT_WHITESPACE_AS_SUFFIX) == last_value(
            parts.trainer,
            TRAINER_TREAT_WHITESPACE_AS_SUFFIX,
        ));
        assert(map_entry(trainer@, TRAINER_UNK_PIECE) == last_value(parts.trainer, TRAINER_UNK_PIECE));
    }
    if model_type != MODEL_TYPE_BPE {
        return Err(SentencePieceError::UnsupportedModelType(model_type));
    }
    if varint(&trainer, TRAINER_BYTE_FALLBACK, 0) == 0 {
        return Err(SentencePieceError::ByteFallbackRequired);
    }
    if varint(&normalizer, NORM_ESCAPE_WHITESPACES, 1) == 0 {
        return Err(SentencePieceError::EscapeWhitespacesRequired);
    }
    if varint(&trainer, TRAINER_TREAT_WHITESPACE_AS_SUFFIX, 0) != 0 {
        return Err(SentencePieceError::WhitespaceAsSuffixUnsupported);
    }
    let unk_token = match trainer.get(&TRAINER_UNK_PIECE) {
        Some(ProtoValue::Bytes(b)) => {
            let copy = copy_range(b.as_slice(), 0, b.len());
            proof {
                assert(copy@ =~= b@);
                assert(last_value(parts.trainer, TRAINER_UNK_PIECE) == Some(
                    ProtoValueModel::Bytes(b@),
                ));
            }
            match string_from_utf8(copy) {
                Some(s) => s,
                None => {
                    return Err(SentencePieceError::NonUtf8UnkPiece);
                },
            }
        },
        _ => String::from_str("<unk>"),
    };
    assert(utf8_bytes(unk_token) == spec_unk_token(parts));
    let index = build_vocab_index(&pieces);
    let last = last_occurrence_flags(&pieces, &index);
    let vocab = vocab_of(&pieces, &last);
    let merges = merges_of(&pieces, &index, &last);
    let added_tokens = added_tokens_from(&pieces);
    proof {
        assert(bytes_within(parts.normalizer, usize::MAX as nat / 2));
    }
    let normalizers = normalizers_of(&normalizer, Ghost(parts));
    assert(spec_check_error(parts) is None);
    Ok(
        TokenizerJson {
            added_tokens,
            normalizers,
            unk_token,
            fuse_unk: true,
            byte_fallback: true,
            ignore_merges: false,
            vocab,
            merges,
        },
    )
}

/// Load a SentencePiece BPE `.model` from bytes: the model's tokenizer
/// document, ready for the tokenizer's loader.
pub fn load_sentencepiece_slice(data: &[u8]) -> (res: Result<TokenizerJson, SentencePieceError>)
    requires
        data@.len() <= usize::MAX / 2,
    ensures
        match spec_conversion_error(data@) {
            Some(e) => res matches Err(r) && r == e,
            None => res matches Ok(doc) && spec_model_parts(data@) matches Ok(parts)
                && is_tokenizer_json_of(doc, parts) && parts.pieces.len() <= usize::MAX,
        },
{
    sentencepiece_to_tokenizer_json(data)
}

/// The text that describes an error, up to any number it reports.
pub open spec fn message_head(e: SentencePieceError) -> Seq<char> {
    match e {
        SentencePieceError::Protobuf(p) => match p {
            ProtoError::TruncatedVarint => "truncated SentencePiece protobuf varint"@,
            ProtoError::InvalidVarint => "invalid SentencePiece protobuf varint"@,
            ProtoError::FieldZero => "invalid SentencePiece protobuf field 0"@,
            ProtoError::TruncatedFixed64 => "truncated SentencePiece fixed64 field"@,
            ProtoError::FieldTooLarge => "SentencePiece protobuf field is too large"@,
            ProtoError::TruncatedBytes => "truncated SentencePiece bytes field"@,
            ProtoError::TruncatedFixed32 => "truncated SentencePiece fixed32 field"@,
            ProtoError::UnsupportedWireType(_) => "unsupported SentencePiece protobuf wire type "@,
        },
        SentencePieceError::PieceWireType => "SentencePiece piece field has invalid wire type"@,
        SentencePieceError::NonUtf8Piece => "SentencePiece model contains a non-UTF-8 piece"@,
        SentencePieceError::TrainerSpecWireType => "SentencePiece trainer_spec has invalid wire type"@,
        SentencePieceError::NormalizerSpecWireType => "SentencePiece normalizer_spec has invalid wire type"@,
        SentencePieceError::NoPieces => "not a SentencePiece model: no pieces found"@,
        SentencePieceError::UnsupportedModelType(_) => "only BPE SentencePiece models are supported, got model_type "@,
        SentencePieceError::ByteFallbackRequired => "only byte_fallback SentencePiece models are supported"@,
        SentencePieceError::EscapeWhitespacesRequired => "SentencePiece models with escape_whitespaces=false are not supported"@,
        SentencePieceError::WhitespaceAsSuffixUnsupported => "SentencePiece models with treat_whitespace_as_suffix are not supported"@,
        SentencePieceError::NonUtf8UnkPiece => "SentencePiece unk_piece is not valid UTF-8"@,
    }
}

/// The full text of an error: its head, followed, for an unsupported wire
/// type or model type, by that number in decimal.
pub open spec fn message_text(e: SentencePieceError) -> Seq<char> {
    match e {
        SentencePieceError::Protobuf(ProtoError::UnsupportedWireType(w)) => message_head(e) + decimal(w),
        SentencePieceError::UnsupportedModelType(t) => message_head(e) + decimal(t),
        _ => message_head(e),
    }
}

impl SentencePieceError {
    /// A description of the error. Errors that report a wire type or a model
    /// type end with that number in decimal.
    pub fn message(&self) -> (res: String)
        ensures
            res@ == message_text(*self),
    {
        match self {
            SentencePieceError::Protobuf(p) => match p {
                ProtoError::TruncatedVarint => String::from_str(
                    "truncated SentencePiece protobuf varint",
                ),
                ProtoError::InvalidVarint => String::from_str("invalid SentencePiece protobuf varint"),
                ProtoError::FieldZero => String::from_str("invalid SentencePiece protobuf field 0"),
                ProtoError::TruncatedFixed64 => String::from_str(
                    "truncated SentencePiece fixed64 field",
                ),
                ProtoError::FieldTooLarge => String::from_str(
                    "SentencePiece protobuf field is too large",
                ),
                ProtoError::TruncatedBytes => String::from_str("truncated SentencePiece bytes field"),
                ProtoError::TruncatedFixed32 => String::from_str(
                    "truncated SentencePiece fixed32 field",
                ),
                ProtoError::UnsupportedWireType(wire) => {
                    let mut text = String::from_str("unsupported SentencePiece protobuf wire type ");
                    append_decimal(&mut text, *wire);
                    text
                },
            },
            SentencePieceError::PieceWireType => String::from_str(
                "SentencePiece piece field has invalid wire type",
            ),
            SentencePieceError::NonUtf8Piece => String::from_str(
                "SentencePiece model contains a non-UTF-8 piece",
            ),
            SentencePieceError::TrainerSpecWireType => String::from_str(
                "SentencePiece trainer_spec has invalid wire type",
            ),
            SentencePieceError::NormalizerSpecWireType => String::from_str(
                "SentencePiece normalizer_spec has invalid wire type",
            ),
            SentencePieceError::NoPieces => String::from_str(
                "not a SentencePiece model: no pieces found",
            ),
            SentencePieceError::UnsupportedModelType(model_type) => {
                let mut text = String::from_str(
                    "only BPE SentencePiece models are supported, got model_type ",
                );
                append_decimal(&mut text, *model_type);
                text
            },
            SentencePieceError::ByteFallbackRequired => String::from_str(
                "only byte_fallback SentencePiece models are supported",
            ),
            SentencePieceError::EscapeWhitespacesRequired => String::from_str(
                "SentencePiece models with escape_whitespaces=false are not supported",
            ),
            SentencePieceError::WhitespaceAsSuffixUnsupported => String::from_str(
                "SentencePiece models with treat_whitespace_as_suffix are not supported",
            ),
            SentencePieceError::NonUtf8UnkPiece => String::from_str(
                "SentencePiece unk_piece is not valid UTF-8",
            ),
        }
    }
}

// ----- Laws -----

/// Only SentencePiece BPE models with byte fallback, and with at least one
/// piece, convert.
pub proof fn lemma_converted_models_are_bpe_with_byte_fallback(data: Seq<u8>)
    requires
        spec_conversion_error(data) is None,
    ensures
        spec_model_parts(data) matches Ok(parts) && {
            &&& parts.pieces.len() > 0
            &&& model_type(parts) == MODEL_TYPE_BPE
            &&& varint_or(last_value(parts.trainer, TRAINER_BYTE_FALLBACK), 0) != 0
        },
{
}

/// A readable model with pieces whose type is not BPE (unigram, word, char,
/// ...) is rejected with its model type rather than read as BPE.
pub proof fn lemma_other_model_types_rejected(data: Seq<u8>)
    requires
        spec_model_parts(data) matches Ok(parts) && parts.pieces.len() > 0 && model_type(parts)
            != MODEL_TYPE_BPE,
    ensures
        spec_conversion_error(data) == Some(
            SentencePieceError::UnsupportedModelType(model_type(spec_model_parts(data).unwrap())),
        ),
{
}

/// The order of `f32::total_cmp` on bit patterns: `x` comes strictly before
/// `y`. A pattern with the sign bit set (a negative value, -0.0 or a negative
/// NaN) comes before one without; among patterns without the sign bit a
/// larger pattern is a larger value; among patterns with it a larger
/// pattern is a larger magnitude and so a smaller value.
pub open spec fn f32_total_lt(x: u32, y: u32) -> bool {
    let x_neg = x >= 0x8000_0000;
    let y_neg = y >= 0x8000_0000;
    if x_neg != y_neg {
        x_neg
    } else if x_neg {
        x > y
    } else {
        x < y
    }
}

/// The merge key follows `f32::total_cmp` exactly: a score that comes
/// strictly before another in that order has a strictly smaller key, so
/// merges with higher scores sort first; for instance -1.0 (0xbf80_0000)
/// comes after -2.0 (0xc000_0000).
pub proof fn lemma_total_order_key_monotone(x: u32, y: u32)
    ensures
        f32_total_lt(x, y) <==> total_order_key(x) < total_order_key(y),
        total_order_key(x) == total_order_key(y) <==> x == y,
        f32_total_lt(0xc000_0000u32, 0xbf80_0000u32),
{
}

/// The merges of a converted model come by score, highest first in the
/// order of `f32::total_cmp`: no merge's merged text scores strictly below
/// that of a later merge.
pub proof fn lemma_merges_by_descending_score(doc: TokenizerJson, parts: ModelParts, i: int, j: int)
    requires
        is_tokenizer_json_of(doc, parts),
        0 <= i < j < doc.merges@.len(),
    ensures
        !f32_total_lt(
            score_of(parts.pieces, utf8_bytes(doc.merges@[i].0) + utf8_bytes(doc.merges@[i].1)),
            score_of(parts.pieces, utf8_bytes(doc.merges@[j].0) + utf8_bytes(doc.merges@[j].1)),
        ),
{
    let merges = doc.merges@.map_values(|m: (String, String)| (utf8_bytes(m.0), utf8_bytes(m.1)));
    assert(merge_precedes(parts.pieces, merges[i], merges[j]));
    let si = score_of(parts.pieces, utf8_bytes(doc.merges@[i].0) + utf8_bytes(doc.merges@[i].1));
    let sj = score_of(parts.pieces, utf8_bytes(doc.merges@[j].0) + utf8_bytes(doc.merges@[j].1));
    lemma_total_order_key_monotone(si, sj);
}

/// A piece message without a type field (field 3) is a normal piece (type
/// 1): SentencePiece leaves the type out for normal pieces.
pub proof fn lemma_untyped_piece_is_normal(b: Seq<u8>)
    requires
        spec_fields(b) matches Ok(fs) && forall|i: int| 0 <= i < fs.len() ==> #[trigger] fs[i].0 != 3,
    ensures
        spec_piece(b) matches Ok(p) ==> p.kind == 1,
{
    let fs = spec_fields(b).unwrap();
    lemma_last_value_absent(fs, 3);
}

/// A piece message without a score field (field 2) scores 0.0 (bit pattern
/// 0).
pub proof fn lemma_unscored_piece_scores_zero(b: Seq<u8>)
    requires
        spec_fields(b) matches Ok(fs) && forall|i: int| 0 <= i < fs.len() ==> #[trigger] fs[i].0 != 2,
    ensures
        spec_piece(b) matches Ok(p) ==> p.score_bits == 0,
{
    let fs = spec_fields(b).unwrap();
    lemma_last_value_absent(fs, 2);
}

proof fn lemma_last_value_absent(fs: Seq<(u64, ProtoValueModel)>, field: u64)
    requires
        forall|i: int| 0 <= i < fs.len() ==> #[trigger] fs[i].0 != field,
    ensures
        last_value(fs, field) is None,
    decreases fs.len(),
{
    if fs.len() > 0 {
        assert(fs.last().0 != field);
        let rest = fs.drop_last();
        assert forall|i: int| 0 <= i < rest.len() implies #[trigger] rest[i].0 != field by {
            assert(rest[i] == fs[i]);
        }
        lemma_last_value_absent(rest, field);
    }
}

/// The added tokens of a converted model are exactly its control (type 3)
/// and user-defined (type 4) pieces, by id in order: each added token names
/// such a piece, with its text, and is special exactly for a control piece;
/// every such piece has an added token.
pub proof fn lemma_added_tokens_are_control_or_user_defined(doc: TokenizerJson, parts: ModelParts)
    requires
        is_tokenizer_json_of(doc, parts),
        parts.pieces.len() <= usize::MAX,
    ensures
        forall|t: int|
            0 <= t < doc.added_tokens@.len() ==> {
                let a = #[trigger] doc.added_tokens@[t]@;
                &&& a.id < parts.pieces.len()
                &&& parts.pieces[a.id as int].kind == 3 || parts.pieces[a.id as int].kind == 4
                &&& a.content == parts.pieces[a.id as int].content
                &&& a.special == (parts.pieces[a.id as int].kind == 3)
            },
        forall|i: int|
            0 <= i < parts.pieces.len() && (#[trigger] parts.pieces[i].kind == 3
                || parts.pieces[i].kind == 4) ==> exists|t: int|
                0 <= t < doc.added_tokens@.len() && doc.added_tokens@[t]@.id == i,
{
    let pieces = parts.pieces;
    let n = pieces.len() as int;
    let toks = doc.added_tokens@.map_values(|t: AddedToken| t@);
    assert(toks == added_tokens_of(pieces, n));
    lemma_added_tokens_shape(pieces, n);
    assert forall|t: int| 0 <= t < doc.added_tokens@.len() implies {
        let a = #[trigger] doc.added_tokens@[t]@;
        &&& a.id < parts.pieces.len()
        &&& parts.pieces[a.id as int].kind == 3 || parts.pieces[a.id as int].kind == 4
        &&& a.content == parts.pieces[a.id as int].content
        &&& a.special == (parts.pieces[a.id as int].kind == 3)
    } by {
        assert(toks[t] == doc.added_tokens@[t]@);
    }
    assert forall|i: int|
        0 <= i < parts.pieces.len() && (#[trigger] parts.pieces[i].kind == 3
            || parts.pieces[i].kind == 4) implies exists|t: int|
        0 <= t < doc.added_tokens@.len() && doc.added_tokens@[t]@.id == i by {
        let t = lemma_added_token_of_piece(pieces, n, i);
        assert(toks[t] == doc.added_tokens@[t]@);
    }
}

proof fn lemma_added_tokens_shape(pieces: Seq<PieceModel>, k: int)
    requires
        0 <= k <= pieces.len() <= usize::MAX,
    ensures
        forall|t: int|
            0 <= t < added_tokens_of(pieces, k).len() ==> {
                let a = #[trigger] added_tokens_of(pieces, k)[t];
                &&& a.id < k
                &&& pieces[a.id as int].kind == 3 || pieces[a.id as int].kind == 4
                &&& a.content == pieces[a.id as int].content
                &&& a.special == (pieces[a.id as int].kind == 3)
            },
    decreases k,
{
    if k > 0 {
        lemma_added_tokens_shape(pieces, k - 1);
        let prev = added_tokens_of(pieces, k - 1);
        let cur = added_tokens_of(pieces, k);
        assert forall|t: int| 0 <= t < cur.len() implies {
            let a = #[trigger] cur[t];
            &&& a.id < k
            &&& pieces[a.id as int].kind == 3 || pieces[a.id as int].kind == 4
            &&& a.content == pieces[a.id as int].content
            &&& a.special == (pieces[a.id as int].kind == 3)
        } by {
            if t < prev.len() {
                assert(cur[t] == prev[t]);
            } else {
                assert(cur[t].id == k - 1);
            }
        }
    }
}

proof fn lemma_added_token_of_piece(pieces: Seq<PieceModel>, k: int, i: int) -> (t: int)
    requires
        0 <= i < k <= pieces.len() <= usize::MAX,
        pieces[i].kind == 3 || pieces[i].kind == 4,
    ensures
        0 <= t < added_tokens_of(pieces, k).len(),
        added_tokens_of(pieces, k)[t].id == i,
    decreases k,
{
    let prev = added_tokens_of(pieces, k - 1);
    let cur = added_tokens_of(pieces, k);
    if i < k - 1 {
        let t = lemma_added_token_of_piece(pieces, k - 1, i);
        assert(cur[t] == prev[t]);
        t
    } else {
        assert(cur[prev.len() as int].id == i);
        prev.len() as int
    }
}

/// The normalizer spec's flags act independently: the dummy-prefix step
/// (prepend `▁`) is present exactly when field 3 (add_dummy_prefix, default
/// 1) is nonzero, and the whitespace steps (strip both ends, collapse runs
/// of two or more spaces into one) are present exactly when field 4
/// (remove_extra_whitespaces, default 1) is nonzero. The last step always
/// turns spaces into `▁`.
pub proof fn lemma_normalizer_flags(doc: TokenizerJson, parts: ModelParts)
    requires
        is_tokenizer_json_of(doc, parts),
    ensures
        ({
            let steps = doc.normalizers@.map_values(|s: NormalizerStep| s@);
            let dummy_prefix = varint_or(last_value(parts.normalizer, 3u64), 1) != 0;
            let remove_extra = varint_or(last_value(parts.normalizer, 4u64), 1) != 0;
            &&& steps.contains(NormalizerStepModel::Prepend { prepend: "\u{2581}"@ })
                <==> dummy_prefix
            &&& (exists|i: int| 0 <= i < steps.len() && #[trigger] steps[i] is Prepend)
                <==> dummy_prefix
            &&& steps.contains(NormalizerStepModel::Strip { strip_left: true, strip_right: true })
                <==> remove_extra
            &&& (exists|i: int| 0 <= i < steps.len() && #[trigger] steps[i] is Strip)
                <==> remove_extra
            &&& steps.contains(
                NormalizerStepModel::Replace {
                    pattern: ReplacePatternModel::Regex(" {2,}"@),
                    content: " "@,
                },
            ) <==> remove_extra
            &&& forall|i: int, j: int|
                0 <= i < steps.len() && 0 <= j < steps.len() && #[trigger] steps[i] is Strip
                    && #[trigger] steps[j] is Prepend ==> i < j
            &&& (exists|i: int| 0 <= i < steps.len() && #[trigger] steps[i] is Precompiled)
                <==> bytes_or_empty(last_value(parts.normalizer, 2u64)).len() > 0
            &&& bytes_or_empty(last_value(parts.normalizer, 2u64)).len() > 0 ==> steps[0]
                == NormalizerStepModel::Precompiled {
                precompiled_charsmap: base64_standard(
                    bytes_or_empty(last_value(parts.normalizer, 2u64)),
                ),
            }
            &&& steps.len() > 0
            &&& steps.last() == NormalizerStepModel::Replace {
                pattern: ReplacePatternModel::Literal(" "@),
                content: "\u{2581}"@,
            }
        }),
{
    let steps = doc.normalizers@.map_values(|s: NormalizerStep| s@);
    let charsmap = bytes_or_empty(last_value(parts.normalizer, NORM_PRECOMPILED_CHARSMAP));
    let dummy_prefix = varint_or(last_value(parts.normalizer, 3u64), 1) != 0;
    let remove_extra = varint_or(last_value(parts.normalizer, 4u64), 1) != 0;
    let pre = if charsmap.len() > 0 {
        seq![NormalizerStepModel::Precompiled { precompiled_charsmap: base64_standard(charsmap) }]
    } else {
        seq![]
    };
    let strip = NormalizerStepModel::Strip { strip_left: true, strip_right: true };
    let collapse = NormalizerStepModel::Replace {
        pattern: ReplacePatternModel::Regex(" {2,}"@),
        content: " "@,
    };
    let prepend = NormalizerStepModel::Prepend { prepend: "\u{2581}"@ };
    let last = NormalizerStepModel::Replace {
        pattern: ReplacePatternModel::Literal(" "@),
        content: "\u{2581}"@,
    };
    let ws = if remove_extra { seq![strip, collapse] } else { seq![] };
    let px = if dummy_prefix { seq![prepend] } else { seq![] };
    assert(steps == pre + ws + px + seq![last]);
    assert(steps =~= pre + ws + px + seq![last]);
    assert(!(last is Prepend) && !(last is Strip));
    assert(last != collapse) by {
        reveal_strlit(" {2,}");
        reveal_strlit(" ");
        assert(last->pattern != collapse->pattern);
    }
    assert(pre.len() <= 1 && (pre.len() == 1 ==> pre[0] is Precompiled));
    if dummy_prefix {
        assert(steps[(pre.len() + ws.len()) as int] == prepend);
    }
    if remove_extra {
        assert(steps[pre.len() as int] == strip);
        assert(steps[(pre.len() + 1) as int] == collapse);
    }
    assert forall|i: int| 0 <= i < steps.len() && #[trigger] steps[i] is Prepend implies dummy_prefix by {
        if !dummy_prefix {
            if i < pre.len() {
            } else if i < pre.len() + ws.len() {
                assert(steps[i] == ws[i - pre.len()]);
            } else {
                assert(steps[i] == last);
            }
        }
    }
    assert forall|i: int| 0 <= i < steps.len() && #[trigger] steps[i] is Strip implies remove_extra by {
        if !remove_extra {
            if i < pre.len() {
            } else if i < pre.len() + px.len() {
                assert(steps[i] == px[i - pre.len()]);
            } else {
                assert(steps[i] == last);
            }
        }
    }
    assert forall|i: int, j: int|
        0 <= i < steps.len() && 0 <= j < steps.len() && #[trigger] steps[i] is Strip
            && #[trigger] steps[j] is Prepend implies i < j by {
        if i >= pre.len() + ws.len() {
            if i < pre.len() + ws.len() + px.len() {
                assert(steps[i] == px[i - pre.len() - ws.len()]);
            } else {
                assert(steps[i] == last);
            }
        }
        if j < pre.len() + ws.len() {
            if j < pre.len() {
            } else {
                assert(steps[j] == ws[j - pre.len()]);
            }
        }
        if j >= pre.len() + ws.len() + px.len() {
            assert(steps[j] == last);
        }
    }
    assert forall|i: int| 0 <= i < steps.len() && #[trigger] steps[i] is Precompiled implies charsmap.len() > 0 by {
        if charsmap.len() == 0 {
            if i < pre.len() + ws.len() {
                assert(steps[i] == ws[i - pre.len()]);
            } else if i < pre.len() + ws.len() + px.len() {
                assert(steps[i] == px[i - pre.len() - ws.len()]);
            } else {
                assert(steps[i] == last);
            }
        }
    }
    if charsmap.len() > 0 {
        assert(steps[0] == pre[0]);
    }
    assert(steps.contains(collapse) ==> remove_extra) by {
        if steps.contains(collapse) && !remove_extra {
            let i = choose|i: int| 0 <= i < steps.len() && steps[i] == collapse;
            if i < pre.len() {
                assert(steps[i] == pre[i]);
            } else if i < pre.len() + px.len() {
                assert(steps[i] == px[i - pre.len()]);
            } else {
                assert(steps[i] == last);
            }
        }
    }
}

/// Every merge candidate of piece `i` joins two non-empty vocabulary texts
/// into the text of piece `i`.
proof fn lemma_piece_merges_in_vocab(pieces: Seq<PieceModel>, i: int, k: int, t: int)
    requires
        0 <= i < pieces.len(),
        k <= pieces[i].content.len(),
        0 <= t < piece_merges(pieces, i, k).len(),
    ensures
        ({
            let m = piece_merges(pieces, i, k)[t];
            &&& m.0.len() > 0 && m.1.len() > 0
            &&& in_vocab(pieces, m.0)
            &&& in_vocab(pieces, m.1)
            &&& m.0 + m.1 == pieces[i].content
        }),
    decreases k,
{
    let prev = piece_merges(pieces, i, k - 1);
    if t < prev.len() {
        lemma_piece_merges_in_vocab(pieces, i, k - 1, t);
    } else {
        let c = pieces[i].content;
        assert(c.subrange(0, k - 1) + c.subrange(k - 1, c.len() as int) =~= c);
    }
}

/// Every merge candidate joins two non-empty vocabulary texts into a
/// vocabulary text.
proof fn lemma_merge_candidates_in_vocab(pieces: Seq<PieceModel>, n: int, t: int)
    requires
        0 <= n <= pieces.len(),
        0 <= t < merge_candidates(pieces, n).len(),
    ensures
        ({
            let m = merge_candidates(pieces, n)[t];
            &&& m.0.len() > 0 && m.1.len() > 0
            &&& in_vocab(pieces, m.0)
            &&& in_vocab(pieces, m.1)
            &&& in_vocab(pieces, m.0 + m.1)
        }),
    decreases n,
{
    let prev = merge_candidates(pieces, n - 1);
    if t < prev.len() {
        lemma_merge_candidates_in_vocab(pieces, n - 1, t);
    } else {
        let i = n - 1;
        lemma_piece_merges_in_vocab(pieces, i, pieces[i].content.len() as int, t - prev.len());
    }
}

/// Every merge of a converted model joins two non-empty vocabulary texts
/// into a vocabulary text.
pub proof fn lemma_merges_join_vocabulary_texts(doc: TokenizerJson, parts: ModelParts, j: int)
    requires
        is_tokenizer_json_of(doc, parts),
        0 <= j < doc.merges@.len(),
    ensures
        ({
            let l = utf8_bytes(doc.merges@[j].0);
            let r = utf8_bytes(doc.merges@[j].1);
            &&& l.len() > 0 && r.len() > 0
            &&& in_vocab(parts.pieces, l)
            &&& in_vocab(parts.pieces, r)
            &&& in_vocab(parts.pieces, l + r)
        }),
{
    broadcast use vstd::seq_lib::group_to_multiset_ensures;

    let pieces = parts.pieces;
    let merges = doc.merges@.map_values(|m: (String, String)| (utf8_bytes(m.0), utf8_bytes(m.1)));
    let cands = merge_candidates(pieces, pieces.len() as int);
    let m = merges[j];
    assert(merges.contains(m));
    assert(merges.to_multiset().count(m) > 0);
    assert(cands.to_multiset().count(m) > 0);
    assert(cands.contains(m));
    let t = choose|t: int| 0 <= t < cands.len() && cands[t] == m;
    lemma_merge_candidates_in_vocab(pieces, pieces.len() as int, t);
}

/// Every vocabulary entry names a piece with that text, and that piece is
/// the last one with the text.
proof fn lemma_vocab_entries_point_to_pieces(pieces: Seq<PieceModel>, n: int, t: int)
    requires
        0 <= n <= pieces.len() <= usize::MAX,
        0 <= t < vocab_entries(pieces, n).len(),
    ensures
        ({
            let e = vocab_entries(pieces, n)[t];
            &&& 0 <= e.1 < n
            &&& pieces[e.1 as int].content == e.0
            &&& is_last_occurrence(pieces, e.1 as int)
        }),
    decreases n,
{
    let prev = vocab_entries(pieces, n - 1);
    if t < prev.len() {
        assert(vocab_entries(pieces, n)[t] == prev[t]);
        lemma_vocab_entries_point_to_pieces(pieces, n - 1, t);
    } else {
        assert(vocab_entries(pieces, n)[t] == (pieces[n - 1].content, (n - 1) as usize));
    }
}

/// The vocabulary entries of the first `n` pieces cover the texts whose last
/// occurrence is among them.
proof fn lemma_vocab_entries_cover(pieces: Seq<PieceModel>, n: int, i: int)
    requires
        0 <= i < n <= pieces.len() <= usize::MAX,
        is_last_occurrence(pieces, i),
    ensures
        exists|t: int|
            0 <= t < vocab_entries(pieces, n).len() && #[trigger] vocab_entries(pieces, n)[t] == (
                pieces[i].content,
                i as usize,
            ),
    decreases n,
{
    let prev = vocab_entries(pieces, n - 1);
    if i < n - 1 {
        lemma_vocab_entries_cover(pieces, n - 1, i);
        let t = choose|t: int| 0 <= t < prev.len() && #[trigger] prev[t] == (pieces[i].content, i as usize);
        assert(vocab_entries(pieces, n)[t] == prev[t]);
    } else {
        assert(vocab_entries(pieces, n)[prev.len() as int] == (pieces[i].content, i as usize));
    }
}

/// The vocabulary of a converted model maps every piece text, and only piece
/// texts, to the id of the last piece with that text; no text appears twice.
pub proof fn lemma_vocabulary_is_last_id_map(doc: TokenizerJson, parts: ModelParts)
    requires
        is_tokenizer_json_of(doc, parts),
        parts.pieces.len() <= usize::MAX,
    ensures
        ({
            let pieces = parts.pieces;
            let vocab = doc.vocab@.map_values(|e: (String, usize)| (utf8_bytes(e.0), e.1));
            &&& forall|t: int|
                0 <= t < vocab.len() ==> {
                    let e = #[trigger] vocab[t];
                    &&& 0 <= e.1 < pieces.len()
                    &&& pieces[e.1 as int].content == e.0
                    &&& is_last_occurrence(pieces, e.1 as int)
                }
            &&& forall|i: int|
                #![trigger pieces[i]]
                0 <= i < pieces.len() ==> exists|t: int|
                    0 <= t < vocab.len() && #[trigger] vocab[t].0 == pieces[i].content
            &&& forall|t: int, u: int|
                0 <= t < u < vocab.len() ==> #[trigger] vocab[t].0 != #[trigger] vocab[u].0
        }),
{
    let pieces = parts.pieces;
    let n = pieces.len() as int;
    let vocab = doc.vocab@.map_values(|e: (String, usize)| (utf8_bytes(e.0), e.1));
    assert(vocab == vocab_entries(pieces, n));
    assert forall|t: int| 0 <= t < vocab.len() implies {
        let e = #[trigger] vocab[t];
        &&& 0 <= e.1 < pieces.len()
        &&& pieces[e.1 as int].content == e.0
        &&& is_last_occurrence(pieces, e.1 as int)
    } by {
        lemma_vocab_entries_point_to_pieces(pieces, n, t);
    }
    assert forall|i: int| #![trigger pieces[i]] 0 <= i < pieces.len() implies exists|t: int|
        0 <= t < vocab.len() && #[trigger] vocab[t].0 == pieces[i].content by {
        let last = choose|l: int| i <= l < n && pieces[l].content == pieces[i].content
            && is_last_occurrence(pieces, l);
        assert(exists|l: int| i <= l < n && pieces[l].content == pieces[i].content
            && is_last_occurrence(pieces, l)) by {
            lemma_last_occurrence_exists(pieces, i, i);
        }
        lemma_vocab_entries_cover(pieces, n, last);
        let t = choose|t: int| 0 <= t < vocab.len() && vocab[t] == (pieces[last].content, last as usize);
        assert(vocab[t].0 == pieces[i].content);
    }
    assert forall|t: int, u: int| 0 <= t < u < vocab.len() implies #[trigger] vocab[t].0
        != #[trigger] vocab[u].0 by {
        lemma_vocab_entries_point_to_pieces(pieces, n, t);
        lemma_vocab_entries_point_to_pieces(pieces, n, u);
        lemma_vocab_ids_increase(pieces, n, t, u);
        let a = vocab[t].1 as int;
        let b = vocab[u].1 as int;
        assert(a < b);
        assert(pieces[b].content != pieces[a].content);
    }
}

/// Some piece at or after `from` is the last one with the text of piece `i`.
proof fn lemma_last_occurrence_exists(pieces: Seq<PieceModel>, i: int, from: int)
    requires
        0 <= i <= from < pieces.len(),
        pieces[from].content == pieces[i].content,
    ensures
        exists|l: int| i <= l < pieces.len() && pieces[l].content == pieces[i].content
            && is_last_occurrence(pieces, l),
    decreases pieces.len() - from,
{
    if !is_last_occurrence(pieces, from) {
        let j = choose|j: int| from < j < pieces.len() && #[trigger] pieces[j].content
            != pieces[from].content == false;
        assert(from < j < pieces.len() && pieces[j].content == pieces[from].content);
        lemma_last_occurrence_exists(pieces, i, j);
    } else {
        assert(i <= from < pieces.len() && pieces[from].content == pieces[i].content
            && is_last_occurrence(pieces, from));
    }
}

/// Vocabulary entries come in increasing id order.
proof fn lemma_vocab_ids_increase(pieces: Seq<PieceModel>, n: int, t: int, u: int)
    requires
        0 <= n <= pieces.len() <= usize::MAX,
        0 <= t < u < vocab_entries(pieces, n).len(),
    ensures
        vocab_entries(pieces, n)[t].1 < vocab_entries(pieces, n)[u].1,
    decreases n,
{
    let prev = vocab_entries(pieces, n - 1);
    assert(vocab_entries(pieces, n)[t] == prev[t]);
    if u < prev.len() {
        assert(vocab_entries(pieces, n)[u] == prev[u]);
        lemma_vocab_ids_increase(pieces, n - 1, t, u);
    } else {
        assert(vocab_entries(pieces, n)[u] == (pieces[n - 1].content, (n - 1) as usize));
        lemma_vocab_entries_point_to_pieces(pieces, n - 1, t);
    }
}

/// The merges of piece `i` below split point `k` have left parts of
/// strictly increasing length, each shorter than `k`.
#[verifier::spinoff_prover]
proof fn lemma_piece_merges_increasing(pieces: Seq<PieceModel>, i: int, k: int)
    requires
        0 <= i < pieces.len(),
        k <= pieces[i].content.len(),
    ensures
        forall|t: int|
            0 <= t < piece_merges(pieces, i, k).len() ==> #[trigger] piece_merges(
                pieces,
                i,
                k,
            )[t].0.len() < k,
        forall|t: int, u: int|
            0 <= t < u < piece_merges(pieces, i, k).len() ==> #[trigger] piece_merges(
                pieces,
                i,
                k,
            )[t].0.len() < #[trigger] piece_merges(pieces, i, k)[u].0.len(),
    decreases k,
{
    if k > 1 {
        lemma_piece_merges_increasing(pieces, i, k - 1);
        let prev = piece_merges(pieces, i, k - 1);
        let cur = piece_merges(pieces, i, k);
        let c = pieces[i].content;
        assert(forall|u: int| prev.len() <= u < cur.len() ==> #[trigger] cur[u] == (c.subrange(0, k - 1), c.subrange(k - 1, c.len() as int)));
        assert forall|t: int| 0 <= t < cur.len() implies #[trigger] cur[t].0.len() < k by {
            if t < prev.len() {
                assert(cur[t] == prev[t]);
            }
        }
        assert forall|t: int, u: int| 0 <= t < u < cur.len() implies #[trigger] cur[t].0.len()
            < #[trigger] cur[u].0.len() by {
            assert(cur[t] == prev[t]);
            if u < prev.len() {
                assert(cur[u] == prev[u]);
                assert(prev[t].0.len() < prev[u].0.len());
            } else {
                assert(prev[t].0.len() < k - 1);
                assert(cur[u].0.len() == k - 1);
            }
        }
    }
}

/// The parts of merge `m` join into the text of a last occurrence among the
/// first `n` pieces.
spec fn joins_last_occurrence(pieces: Seq<PieceModel>, n: int, m: (Seq<u8>, Seq<u8>)) -> bool {
    exists|j: int|
        0 <= j < n && is_last_occurrence(pieces, j) && #[trigger] pieces[j].content == m.0 + m.1
}

/// The merge candidates of the first `n` pieces are distinct, and each joins
/// into the text of a last occurrence among them.
proof fn lemma_merge_candidates_distinct(pieces: Seq<PieceModel>, n: int)
    requires
        0 <= n <= pieces.len(),
    ensures
        merge_candidates(pieces, n).no_duplicates(),
        forall|t: int|
            0 <= t < merge_candidates(pieces, n).len() ==> joins_last_occurrence(
                pieces,
                n,
                #[trigger] merge_candidates(pieces, n)[t],
            ),
    decreases n,
{
    if n > 0 {
        lemma_merge_candidates_distinct(pieces, n - 1);
        let prev = merge_candidates(pieces, n - 1);
        let cur = merge_candidates(pieces, n);
        let i = n - 1;
        if is_last_occurrence(pieces, i) {
            let len = pieces[i].content.len() as int;
            let extra = piece_merges(pieces, i, len);
            lemma_piece_merges_increasing(pieces, i, len);
            assert(cur == prev + extra);
            assert forall|t: int| 0 <= t < cur.len() implies joins_last_occurrence(
                pieces,
                n,
                #[trigger] cur[t],
            ) by {
                if t < prev.len() {
                    assert(cur[t] == prev[t]);
                    assert(joins_last_occurrence(pieces, n - 1, prev[t]));
                    let j = choose|j: int|
                        0 <= j < n - 1 && is_last_occurrence(pieces, j) && #[trigger] pieces[j].content
                            == prev[t].0 + prev[t].1;
                    assert(pieces[j].content == cur[t].0 + cur[t].1);
                } else {
                    lemma_piece_merges_in_vocab(pieces, i, len, t - prev.len());
                    assert(cur[t] == extra[t - prev.len()]);
                    assert(pieces[i].content == cur[t].0 + cur[t].1);
                }
            }
            assert forall|t: int, u: int| 0 <= t < u < cur.len() implies cur[t] != cur[u] by {
                if u < prev.len() {
                    assert(cur[t] == prev[t] && cur[u] == prev[u]);
                } else if t >= prev.len() {
                    assert(cur[t] == extra[t - prev.len()] && cur[u] == extra[u - prev.len()]);
                    assert(extra[t - prev.len()].0.len() < extra[u - prev.len()].0.len());
                } else {
                    assert(cur[t] == prev[t]);
                    assert(cur[u] == extra[u - prev.len()]);
                    assert(joins_last_occurrence(pieces, n - 1, prev[t]));
                    let j = choose|j: int|
                        0 <= j < n - 1 && is_last_occurrence(pieces, j) && #[trigger] pieces[j].content
                            == prev[t].0 + prev[t].1;
                    lemma_piece_merges_in_vocab(pieces, i, len, u - prev.len());
                    if cur[t] == cur[u] {
                        assert(pieces[j].content == pieces[i].content);
                        assert(pieces[i].content != pieces[j].content);
                    }
                }
            }
        } else {
            assert(cur =~= prev);
            assert forall|t: int| 0 <= t < cur.len() implies joins_last_occurrence(
                pieces,
                n,
                #[trigger] cur[t],
            ) by {
                assert(joins_last_occurrence(pieces, n - 1, prev[t]));
                let j = choose|j: int|
                    0 <= j < n - 1 && is_last_occurrence(pieces, j) && #[trigger] pieces[j].content
                        == prev[t].0 + prev[t].1;
                assert(pieces[j].content == cur[t].0 + cur[t].1);
            }
        }
    }
}

/// No merge of a converted model appears twice.
pub proof fn lemma_merges_distinct(doc: TokenizerJson, parts: ModelParts)
    requires
        is_tokenizer_json_of(doc, parts),
    ensures
        doc.merges@.map_values(|m: (String, String)| (utf8_bytes(m.0), utf8_bytes(m.1))).no_duplicates(),
{
    let pieces = parts.pieces;
    let merges = doc.merges@.map_values(|m: (String, String)| (utf8_bytes(m.0), utf8_bytes(m.1)));
    let cands = merge_candidates(pieces, pieces.len() as int);
    lemma_merge_candidates_distinct(pieces, pieces.len() as int);
    cands.lemma_multiset_has_no_duplicates();
    assert forall|x: (Seq<u8>, Seq<u8>)| merges.to_multiset().contains(x) implies merges.to_multiset().count(x) == 1 by {
        assert(cands.to_multiset().contains(x));
    }
    merges.lemma_multiset_has_no_duplicates_conv();
}

} // verus!
