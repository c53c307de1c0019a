# rs_gigatoken (verified core)

Verified pieces of a high-throughput BPE tokenizer library, written in Verus.

* `src/api.rs`: `wrap_truncate` (prefix/suffix wrapping whose output never
  exceeds `max_length`) and `pad_truncate_ragged` (a ragged batch assembled
  into a fixed-width, row-major matrix), with the laws that rows have exactly
  `width` entries, that special tokens count toward `max_length`, that a
  truncated row is the wrapped row, that padding alone loses no token, and
  that left padding only moves the padding of right-padded rows.
* `src/matcher.rs`: `SubstringMatcher`, a leftmost-longest multi-pattern
  matcher built on `aho-corasick`.
* `src/load_tokenizer/protobuf.rs`: the protobuf wire format used by
  SentencePiece `.model` files (varints, fields, last-value-wins maps), with
  the laws that reading a varint inverts its encoding and that reading fields
  inverts writing them.
* `src/load_tokenizer/sentencepiece.rs`: conversion of a SentencePiece BPE
  model into its `tokenizer.json` document (vocabulary, merges in priority
  order, added tokens, normalizers, unknown token).
* `src/load_tokenizer/vocab_index.rs` and `src/sort.rs`: the sorted
  vocabulary index and the merge sort behind it.
* `src/text.rs`: decimal text for the numbers that error messages report.
* `app/lib.rs`: reading model files, serializing the document to JSON with
  `serde`/`sonic-rs`, and `eyre` errors.
