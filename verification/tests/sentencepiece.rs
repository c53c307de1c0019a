use rs_gigatoken::load_tokenizer::protobuf::{ProtoError, ProtoValue, fields, read_varint};
use rs_gigatoken::load_tokenizer::sentencepiece::{
    NormalizerStep, ReplacePattern, SentencePieceError, sentencepiece_to_tokenizer_json,
};

const MODEL_PIECES: u64 = 1;
const MODEL_TRAINER_SPEC: u64 = 2;
const MODEL_NORMALIZER_SPEC: u64 = 3;
const PIECE_PIECE: u64 = 1;
const PIECE_SCORE: u64 = 2;
const PIECE_TYPE: u64 = 3;
const TRAINER_MODEL_TYPE: u64 = 3;
const TRAINER_TREAT_WHITESPACE_AS_SUFFIX: u64 = 24;
const TRAINER_BYTE_FALLBACK: u64 = 35;
const TRAINER_UNK_PIECE: u64 = 45;
const NORM_PRECOMPILED_CHARSMAP: u64 = 2;
const NORM_ADD_DUMMY_PREFIX: u64 = 3;
const NORM_REMOVE_EXTRA_WHITESPACES: u64 = 4;
const NORM_ESCAPE_WHITESPACES: u64 = 5;
const TYPE_NORMAL: u64 = 1;
const TYPE_CONTROL: u64 = 3;
const TYPE_USER_DEFINED: u64 = 4;

fn varint(mut value: u64, out: &mut Vec<u8>) {
    while value >= 0x80 {
        out.push((value as u8) | 0x80);
        value >>= 7;
    }
    out.push(value as u8);
}

fn field_bytes(field: u64, bytes: &[u8], out: &mut Vec<u8>) {
    varint((field << 3) | 2, out);
    varint(bytes.len() as u64, out);
    out.extend_from_slice(bytes);
}

fn field_varint(field: u64, value: u64, out: &mut Vec<u8>) {
    varint(field << 3, out);
    varint(value, out);
}

fn piece_of_kind(text: &str, score: f32, kind: u64) -> Vec<u8> {
    let mut out = Vec::new();
    field_bytes(PIECE_PIECE, text.as_bytes(), &mut out);
    varint((PIECE_SCORE << 3) | 5, &mut out);
    out.extend_from_slice(&score.to_le_bytes());
    field_varint(PIECE_TYPE, kind, &mut out);
    out
}

fn piece(text: &str, score: f32) -> Vec<u8> {
    piece_of_kind(text, score, TYPE_NORMAL)
}

fn bpe_trainer() -> Vec<u8> {
    let mut trainer = Vec::new();
    field_varint(TRAINER_MODEL_TYPE, 2, &mut trainer);
    field_varint(TRAINER_BYTE_FALLBACK, 1, &mut trainer);
    trainer
}

fn model_of(pieces: &[Vec<u8>], trainer: &[u8], normalizer: Option<&[u8]>) -> Vec<u8> {
    let mut model = Vec::new();
    for p in pieces {
        field_bytes(MODEL_PIECES, p, &mut model);
    }
    field_bytes(MODEL_TRAINER_SPEC, trainer, &mut model);
    if let Some(n) = normalizer {
        field_bytes(MODEL_NORMALIZER_SPEC, n, &mut model);
    }
    model
}

fn s(text: &str) -> String {
    text.to_string()
}

#[test]
fn parses_minimal_bpe_model() {
    let mut trainer = Vec::new();
    field_varint(TRAINER_MODEL_TYPE, 2, &mut trainer);
    field_varint(TRAINER_BYTE_FALLBACK, 1, &mut trainer);

    let mut normalizer = Vec::new();
    field_varint(NORM_ADD_DUMMY_PREFIX, 1, &mut normalizer);
    field_varint(NORM_REMOVE_EXTRA_WHITESPACES, 1, &mut normalizer);
    field_varint(NORM_ESCAPE_WHITESPACES, 1, &mut normalizer);

    let mut model = Vec::new();
    for (text, score) in [("<unk>", 0.0), ("a", 1.0), ("b", 1.0), ("ab", 2.0)] {
        field_bytes(MODEL_PIECES, &piece(text, score), &mut model);
    }
    field_bytes(MODEL_TRAINER_SPEC, &trainer, &mut model);
    field_bytes(MODEL_NORMALIZER_SPEC, &normalizer, &mut model);

    let doc = sentencepiece_to_tokenizer_json(&model).unwrap();
    assert!(doc.byte_fallback);
    assert!(doc.vocab.iter().any(|(text, _)| text == "ab"));
    assert_eq!(doc.merges, vec![(s("a"), s("b"))]);
}

#[test]
fn rejects_unigram_model() {
    let mut trainer = Vec::new();
    field_varint(TRAINER_MODEL_TYPE, 1, &mut trainer);
    field_varint(TRAINER_BYTE_FALLBACK, 1, &mut trainer);
    let mut model = Vec::new();
    field_bytes(MODEL_TRAINER_SPEC, &trainer, &mut model);
    field_bytes(MODEL_PIECES, &piece("<unk>", 0.0), &mut model);

    let error = sentencepiece_to_tokenizer_json(&model).unwrap_err().message();
    assert!(error.contains("only BPE SentencePiece models are supported"));
}

#[test]
fn unigram_model_reports_its_type() {
    let mut trainer = Vec::new();
    field_varint(TRAINER_MODEL_TYPE, 1, &mut trainer);
    let model = model_of(&[piece("a", 0.0)], &trainer, None);
    let error = sentencepiece_to_tokenizer_json(&model).unwrap_err();
    assert_eq!(error, SentencePieceError::UnsupportedModelType(1));
    assert_eq!(
        error.message(),
        "only BPE SentencePiece models are supported, got model_type 1"
    );
}

#[test]
fn default_model_type_is_not_bpe() {
    let model = model_of(&[piece("a", 0.0)], &[], None);
    assert_eq!(
        sentencepiece_to_tokenizer_json(&model).unwrap_err(),
        SentencePieceError::UnsupportedModelType(1)
    );
}

#[test]
fn model_without_pieces_is_rejected() {
    let model = model_of(&[], &bpe_trainer(), None);
    assert_eq!(
        sentencepiece_to_tokenizer_json(&model).unwrap_err(),
        SentencePieceError::NoPieces
    );
}

#[test]
fn byte_fallback_is_required() {
    let mut trainer = Vec::new();
    field_varint(TRAINER_MODEL_TYPE, 2, &mut trainer);
    let model = model_of(&[piece("a", 0.0)], &trainer, None);
    assert_eq!(
        sentencepiece_to_tokenizer_json(&model).unwrap_err(),
        SentencePieceError::ByteFallbackRequired
    );
}

#[test]
fn escape_whitespaces_is_required() {
    let mut normalizer = Vec::new();
    field_varint(NORM_ESCAPE_WHITESPACES, 0, &mut normalizer);
    let model = model_of(&[piece("a", 0.0)], &bpe_trainer(), Some(&normalizer));
    assert_eq!(
        sentencepiece_to_tokenizer_json(&model).unwrap_err(),
        SentencePieceError::EscapeWhitespacesRequired
    );
}

#[test]
fn whitespace_as_suffix_is_rejected() {
    let mut trainer = bpe_trainer();
    field_varint(TRAINER_TREAT_WHITESPACE_AS_SUFFIX, 1, &mut trainer);
    let model = model_of(&[piece("a", 0.0)], &trainer, None);
    assert_eq!(
        sentencepiece_to_tokenizer_json(&model).unwrap_err(),
        SentencePieceError::WhitespaceAsSuffixUnsupported
    );
}

#[test]
fn non_utf8_piece_is_rejected() {
    let mut bad = Vec::new();
    field_bytes(PIECE_PIECE, &[0xff, 0x61], &mut bad);
    let model = model_of(&[bad], &bpe_trainer(), None);
    assert_eq!(
        sentencepiece_to_tokenizer_json(&model).unwrap_err(),
        SentencePieceError::NonUtf8Piece
    );
}

#[test]
fn unk_piece_comes_from_trainer_spec() {
    let mut trainer = bpe_trainer();
    field_bytes(TRAINER_UNK_PIECE, b"<UNK>", &mut trainer);
    let model = model_of(&[piece("<UNK>", 0.0)], &trainer, None);
    assert_eq!(sentencepiece_to_tokenizer_json(&model).unwrap().unk_token, "<UNK>");

    let default = model_of(&[piece("a", 0.0)], &bpe_trainer(), None);
    assert_eq!(sentencepiece_to_tokenizer_json(&default).unwrap().unk_token, "<unk>");
}

#[test]
fn non_utf8_unk_piece_is_rejected() {
    let mut trainer = bpe_trainer();
    field_bytes(TRAINER_UNK_PIECE, &[0xc3], &mut trainer);
    let model = model_of(&[piece("a", 0.0)], &trainer, None);
    assert_eq!(
        sentencepiece_to_tokenizer_json(&model).unwrap_err(),
        SentencePieceError::NonUtf8UnkPiece
    );
}

#[test]
fn piece_field_with_wrong_wire_type_is_rejected() {
    let mut model = Vec::new();
    field_varint(MODEL_PIECES, 5, &mut model);
    assert_eq!(
        sentencepiece_to_tokenizer_json(&model).unwrap_err(),
        SentencePieceError::PieceWireType
    );
    let mut model = Vec::new();
    field_varint(MODEL_TRAINER_SPEC, 5, &mut model);
    assert_eq!(
        sentencepiece_to_tokenizer_json(&model).unwrap_err(),
        SentencePieceError::TrainerSpecWireType
    );
    let mut model = Vec::new();
    field_varint(MODEL_NORMALIZER_SPEC, 5, &mut model);
    assert_eq!(
        sentencepiece_to_tokenizer_json(&model).unwrap_err(),
        SentencePieceError::NormalizerSpecWireType
    );
}

#[test]
fn protobuf_errors_are_reported() {
    let cases: Vec<(Vec<u8>, ProtoError)> = vec![
        (vec![0x80], ProtoError::TruncatedVarint),
        (vec![0xff; 11], ProtoError::InvalidVarint),
        (vec![0x00], ProtoError::FieldZero),
        (vec![0x09, 1, 2], ProtoError::TruncatedFixed64),
        (vec![0x0a, 5, 1], ProtoError::TruncatedBytes),
        (vec![0x0d, 1], ProtoError::TruncatedFixed32),
        (vec![0x0b], ProtoError::UnsupportedWireType(3)),
    ];
    for (data, expected) in cases {
        assert_eq!(
            sentencepiece_to_tokenizer_json(&data).unwrap_err(),
            SentencePieceError::Protobuf(expected)
        );
    }
    assert_eq!(
        SentencePieceError::Protobuf(ProtoError::UnsupportedWireType(3)).message(),
        "unsupported SentencePiece protobuf wire type 3"
    );
}

#[test]
fn unknown_fields_are_skipped() {
    let mut model = model_of(&[piece("a", 0.0)], &bpe_trainer(), None);
    field_varint(9, 42, &mut model);
    varint((10 << 3) | 1, &mut model);
    model.extend_from_slice(&[0; 8]);
    let doc = sentencepiece_to_tokenizer_json(&model).unwrap();
    assert_eq!(doc.vocab, vec![(s("a"), 0)]);
}

#[test]
fn varint_round_trips() {
    for value in [0u64, 1, 127, 128, 300, 16_383, 16_384, u32::MAX as u64, u64::MAX] {
        let mut data = Vec::new();
        varint(value, &mut data);
        let encoded = data.len();
        data.extend_from_slice(&[7, 7]);
        let mut pos = 0;
        assert_eq!(read_varint(&data, &mut pos), Ok(value));
        assert_eq!(pos, encoded);
    }
}

#[test]
fn vocabulary_keeps_last_id_of_duplicates() {
    let model = model_of(&[piece("a", 0.0), piece("b", 0.0), piece("a", 0.0)], &bpe_trainer(), None);
    let doc = sentencepiece_to_tokenizer_json(&model).unwrap();
    assert_eq!(doc.vocab, vec![(s("b"), 1), (s("a"), 2)]);
}

#[test]
fn merges_sorted_by_score_then_lengths() {
    let pieces = [
        piece("a", 0.0),
        piece("b", 0.0),
        piece("c", 0.0),
        piece("ab", 1.0),
        piece("bc", 3.0),
        piece("abc", 2.0),
        piece("ca", -1.0),
    ];
    let model = model_of(&pieces, &bpe_trainer(), None);
    let doc = sentencepiece_to_tokenizer_json(&model).unwrap();
    assert_eq!(
        doc.merges,
        vec![
            (s("b"), s("c")),
            (s("ab"), s("c")),
            (s("a"), s("bc")),
            (s("a"), s("b")),
            (s("c"), s("a")),
        ]
    );
}

#[test]
fn negative_zero_sorts_below_positive_zero() {
    let pieces = [
        piece("a", 0.0),
        piece("b", 0.0),
        piece("ab", -0.0),
        piece("ba", 0.0),
    ];
    let model = model_of(&pieces, &bpe_trainer(), None);
    let doc = sentencepiece_to_tokenizer_json(&model).unwrap();
    assert_eq!(doc.merges, vec![(s("b"), s("a")), (s("a"), s("b"))]);
}

#[test]
fn merges_split_on_character_boundaries() {
    let pieces = [piece("é", 0.0), piece("x", 0.0), piece("éx", 1.0), piece("\u{2581}", 0.0)];
    let model = model_of(&pieces, &bpe_trainer(), None);
    let doc = sentencepiece_to_tokenizer_json(&model).unwrap();
    assert_eq!(doc.merges, vec![(s("é"), s("x"))]);
}

#[test]
fn control_and_user_defined_pieces_are_added_tokens() {
    let pieces = [
        piece_of_kind("<s>", 0.0, TYPE_CONTROL),
        piece("a", 0.0),
        piece_of_kind("<tool>", 0.0, TYPE_USER_DEFINED),
    ];
    let model = model_of(&pieces, &bpe_trainer(), None);
    let doc = sentencepiece_to_tokenizer_json(&model).unwrap();
    assert_eq!(doc.added_tokens.len(), 2);
    assert_eq!(doc.added_tokens[0].id, 0);
    assert_eq!(doc.added_tokens[0].content, "<s>");
    assert!(doc.added_tokens[0].special);
    assert_eq!(doc.added_tokens[1].id, 2);
    assert_eq!(doc.added_tokens[1].content, "<tool>");
    assert!(!doc.added_tokens[1].special);
    assert!(!doc.added_tokens[1].normalized);
}

#[test]
fn default_normalizers() {
    let model = model_of(&[piece("a", 0.0)], &bpe_trainer(), None);
    let doc = sentencepiece_to_tokenizer_json(&model).unwrap();
    assert_eq!(doc.normalizers.len(), 4);
    assert!(matches!(
        &doc.normalizers[0],
        NormalizerStep::Strip { strip_left: true, strip_right: true }
    ));
    match &doc.normalizers[1] {
        NormalizerStep::Replace { pattern: ReplacePattern::Regex(p), content } => {
            assert_eq!(p, " {2,}");
            assert_eq!(content, " ");
        }
        other => panic!("unexpected step {other:?}"),
    }
    match &doc.normalizers[2] {
        NormalizerStep::Prepend { prepend } => assert_eq!(prepend, "\u{2581}"),
        other => panic!("unexpected step {other:?}"),
    }
    match &doc.normalizers[3] {
        NormalizerStep::Replace { pattern: ReplacePattern::Literal(p), content } => {
            assert_eq!(p, " ");
            assert_eq!(content, "\u{2581}");
        }
        other => panic!("unexpected step {other:?}"),
    }
    assert!(doc.fuse_unk && doc.byte_fallback && !doc.ignore_merges);
}

#[test]
fn precompiled_charsmap_is_base64_encoded() {
    let mut normalizer = Vec::new();
    field_bytes(NORM_PRECOMPILED_CHARSMAP, b"hello", &mut normalizer);
    field_varint(NORM_REMOVE_EXTRA_WHITESPACES, 0, &mut normalizer);
    field_varint(NORM_ADD_DUMMY_PREFIX, 0, &mut normalizer);
    let model = model_of(&[piece("a", 0.0)], &bpe_trainer(), Some(&normalizer));
    let doc = sentencepiece_to_tokenizer_json(&model).unwrap();
    assert_eq!(doc.normalizers.len(), 2);
    match &doc.normalizers[0] {
        NormalizerStep::Precompiled { precompiled_charsmap } => {
            assert_eq!(precompiled_charsmap, "aGVsbG8=")
        }
        other => panic!("unexpected step {other:?}"),
    }
}

#[test]
fn load_sentencepiece_slice_loads_the_document() {
    let model = model_of(&[piece("a", 0.0), piece("b", 0.0), piece("ab", 0.5)], &bpe_trainer(), None);
    let doc = rs_gigatoken::load_sentencepiece_slice(&model).unwrap();
    assert_eq!(doc.merges, vec![(s("a"), s("b"))]);
    assert_eq!(doc.vocab.len(), 3);
}

#[test]
fn duplicate_texts_yield_one_merge() {
    let pieces = [piece("a", 0.0), piece("b", 0.0), piece("ab", 1.0), piece("ab", 0.5)];
    let model = model_of(&pieces, &bpe_trainer(), None);
    let doc = sentencepiece_to_tokenizer_json(&model).unwrap();
    assert_eq!(doc.merges, vec![(s("a"), s("b"))]);
    assert_eq!(doc.vocab, vec![(s("a"), 0), (s("b"), 1), (s("ab"), 3)]);
}

#[test]
fn merge_parts_are_vocabulary_texts() {
    let pieces = [
        piece("h", 0.0),
        piece("e", 0.0),
        piece("he", 1.0),
        piece("hel", 2.0),
        piece("l", 0.0),
        piece("hello", 3.0),
    ];
    let model = model_of(&pieces, &bpe_trainer(), None);
    let doc = sentencepiece_to_tokenizer_json(&model).unwrap();
    let texts: Vec<&str> = doc.vocab.iter().map(|(t, _)| t.as_str()).collect();
    assert!(!doc.merges.is_empty());
    for (l, r) in &doc.merges {
        assert!(texts.contains(&l.as_str()));
        assert!(texts.contains(&r.as_str()));
        assert!(texts.contains(&format!("{l}{r}").as_str()));
    }
}

#[test]
fn varint_past_the_end_is_truncated() {
    let data = [1u8, 2];
    let mut pos = 5;
    assert_eq!(read_varint(&data, &mut pos), Err(ProtoError::TruncatedVarint));
    assert_eq!(pos, 5);
    let mut pos = 1;
    assert_eq!(read_varint(&[0x01, 0x80, 0x80], &mut pos), Err(ProtoError::TruncatedVarint));
    assert_eq!(pos, 3);
    let mut pos = 0;
    assert_eq!(read_varint(&[0xff; 12], &mut pos), Err(ProtoError::InvalidVarint));
    assert_eq!(pos, 10);
}

#[test]
fn encoded_fields_read_back() {
    let mut data = Vec::new();
    field_varint(3, 300, &mut data);
    field_bytes(1, b"hi", &mut data);
    varint((7 << 3) | 5, &mut data);
    data.extend_from_slice(&[1, 2, 3, 4]);
    varint((2 << 3) | 1, &mut data);
    data.extend_from_slice(&[8; 8]);
    field_varint(3, 0, &mut data);
    let read = fields(&data).unwrap();
    assert_eq!(read.len(), 5);
    assert!(matches!(read[0], (3, ProtoValue::Varint(300))));
    assert!(matches!(&read[1], (1, ProtoValue::Bytes(b)) if b.as_slice() == b"hi"));
    assert!(matches!(read[2], (7, ProtoValue::Fixed32([1, 2, 3, 4]))));
    assert!(matches!(read[3], (2, ProtoValue::Fixed64([8, 8, 8, 8, 8, 8, 8, 8]))));
    assert!(matches!(read[4], (3, ProtoValue::Varint(0))));
    assert!(fields(&[]).unwrap().is_empty());
}

#[test]
fn error_numbers_are_written_in_decimal() {
    assert_eq!(
        SentencePieceError::UnsupportedModelType(0).message(),
        "only BPE SentencePiece models are supported, got model_type 0"
    );
    assert_eq!(
        SentencePieceError::UnsupportedModelType(1234567890).message(),
        "only BPE SentencePiece models are supported, got model_type 1234567890"
    );
    assert_eq!(
        SentencePieceError::Protobuf(ProtoError::UnsupportedWireType(u64::MAX)).message(),
        "unsupported SentencePiece protobuf wire type 18446744073709551615"
    );
}

#[test]
fn precompiled_charsmap_uses_padded_standard_alphabet() {
    for (charsmap, expected) in [
        (vec![0x66u8], "Zg=="),
        (vec![0x66, 0x6f], "Zm8="),
        (vec![0xff, 0xfe, 0x3f, 0x66, 0x6f], "//4/Zm8="),
    ] {
        let mut normalizer = Vec::new();
        field_bytes(NORM_PRECOMPILED_CHARSMAP, &charsmap, &mut normalizer);
        let model = model_of(&[piece("a", 0.0)], &bpe_trainer(), Some(&normalizer));
        let doc = sentencepiece_to_tokenizer_json(&model).unwrap();
        assert!(matches!(
            &doc.normalizers[0],
            NormalizerStep::Precompiled { precompiled_charsmap } if precompiled_charsmap.as_str() == expected
        ));
    }
}
