use rs_gigatoken::api::{PadTruncate, PadTruncateError, pad_truncate_ragged, wrap_truncate};

#[test]
fn pad_right_and_left() {
    let tokens = [1, 2, 3, 4, 5];
    let lengths = [2, 3];
    let mut opts = PadTruncate::new(0);
    opts.max_length = Some(4);
    opts.pad_to_max_length = true;
    let (right, width, lens) = pad_truncate_ragged(&tokens, &lengths, &opts).unwrap();
    assert_eq!(width, 4);
    assert_eq!(lens, vec![2, 3]);
    assert_eq!(right, vec![1, 2, 0, 0, 3, 4, 5, 0]);

    opts.pad_left = true;
    let (left, _, _) = pad_truncate_ragged(&tokens, &lengths, &opts).unwrap();
    assert_eq!(left, vec![0, 0, 1, 2, 0, 3, 4, 5]);
}

#[test]
fn prefix_suffix_count_toward_truncation_budget() {
    let mut opts = PadTruncate::new(0);
    opts.max_length = Some(5);
    opts.pad_to_max_length = true;
    opts.truncate = true;
    opts.prefix = vec![9];
    opts.suffix = vec![8];
    let (out, width, lens) = pad_truncate_ragged(&[1, 2, 3, 4], &[4], &opts).unwrap();
    assert_eq!(width, 5);
    assert_eq!(lens, vec![5]);
    assert_eq!(out, vec![9, 1, 2, 3, 8]);
}

#[test]
fn truncate_keeps_requested_side() {
    let mut opts = PadTruncate::new(0);
    opts.max_length = Some(2);
    opts.truncate = true;
    let (left, _, _) = pad_truncate_ragged(&[1, 2, 3], &[3], &opts).unwrap();
    assert_eq!(left, vec![1, 2]);
    opts.truncate_left = true;
    let (right, _, _) = pad_truncate_ragged(&[1, 2, 3], &[3], &opts).unwrap();
    assert_eq!(right, vec![2, 3]);
}

#[test]
fn wrapping_respects_budget() {
    assert_eq!(
        wrap_truncate(&[1, 2, 3], &[9], &[8], Some(3), false),
        vec![9, 1, 8]
    );
    assert_eq!(
        wrap_truncate(&[1, 2, 3], &[9], &[8], Some(3), true),
        vec![9, 3, 8]
    );
}

#[test]
fn wrap_without_budget_keeps_whole_row() {
    assert_eq!(
        wrap_truncate(&[1, 2, 3], &[9], &[8], None, true),
        vec![9, 1, 2, 3, 8]
    );
}

#[test]
fn wrap_budget_smaller_than_specials_stays_within_budget() {
    assert_eq!(wrap_truncate(&[1, 2, 3], &[9, 9], &[8], Some(2), false), vec![9, 9]);
    assert_eq!(wrap_truncate(&[1, 2, 3], &[9, 9], &[8], Some(2), true), vec![9, 8]);
    assert_eq!(wrap_truncate(&[1, 2, 3], &[9, 9], &[8], Some(0), false), Vec::<u32>::new());
}

#[test]
fn wrap_budget_equal_to_specials_keeps_all_specials() {
    assert_eq!(wrap_truncate(&[1, 2, 3], &[9, 9], &[8], Some(3), true), vec![9, 9, 8]);
}

#[test]
fn padding_without_truncation_keeps_every_token() {
    let tokens = [5, 6, 7, 8, 9, 10];
    let lengths = [2, 0, 3, 1];
    let mut opts = PadTruncate::new(0);
    for pad_left in [false, true] {
        opts.pad_left = pad_left;
        let (out, width, lens) = pad_truncate_ragged(&tokens, &lengths, &opts).unwrap();
        assert_eq!(width, 3);
        assert_eq!(lens, lengths.to_vec());
        let mut recovered = Vec::new();
        for (r, &len) in lens.iter().enumerate() {
            let offset = if pad_left { width - len } else { 0 };
            recovered.extend_from_slice(&out[r * width + offset..r * width + offset + len]);
        }
        assert_eq!(recovered, tokens.to_vec());
    }
}

#[test]
fn left_padding_rotates_right_padded_rows() {
    let tokens = [1, 2, 3, 4, 5, 6];
    let lengths = [1, 3, 2];
    let mut right = PadTruncate::new(0);
    right.max_length = Some(5);
    right.pad_to_max_length = true;
    right.prefix = vec![9];
    let mut left = right.clone();
    left.pad_left = true;
    let (r_out, r_width, r_lens) = pad_truncate_ragged(&tokens, &lengths, &right).unwrap();
    let (l_out, l_width, l_lens) = pad_truncate_ragged(&tokens, &lengths, &left).unwrap();
    assert_eq!(r_width, l_width);
    assert_eq!(r_lens, l_lens);
    assert_eq!(l_out, vec![0, 0, 0, 9, 1, 0, 9, 2, 3, 4, 0, 0, 9, 5, 6]);
    for (r, &len) in r_lens.iter().enumerate() {
        let row = &r_out[r * r_width..(r + 1) * r_width];
        let mut rotated = row[len..].to_vec();
        rotated.extend_from_slice(&row[..len]);
        assert_eq!(&l_out[r * l_width..(r + 1) * l_width], rotated.as_slice());
    }
}

#[test]
fn pad_to_longest_row_without_max_length() {
    let mut opts = PadTruncate::new(7);
    opts.prefix = vec![100];
    let (out, width, lens) = pad_truncate_ragged(&[1, 2, 3], &[1, 0, 2], &opts).unwrap();
    assert_eq!(width, 3);
    assert_eq!(lens, vec![2, 1, 3]);
    assert_eq!(out, vec![100, 1, 7, 100, 7, 7, 100, 2, 3]);
}

#[test]
fn every_row_has_width_entries() {
    let mut opts = PadTruncate::new(0);
    opts.max_length = Some(6);
    opts.pad_to_max_length = true;
    opts.truncate = true;
    opts.prefix = vec![1];
    opts.suffix = vec![2];
    let tokens: Vec<u32> = (10..30).collect();
    let lengths = [7, 0, 3, 10];
    let (out, width, lens) = pad_truncate_ragged(&tokens, &lengths, &opts).unwrap();
    assert_eq!(width, 6);
    assert_eq!(out.len(), lengths.len() * width);
    assert!(lens.iter().all(|&l| l <= 6));
    assert_eq!(&out[0..6], &[1, 10, 11, 12, 13, 2]);
    assert_eq!(&out[6..12], &[1, 2, 0, 0, 0, 0]);
    assert_eq!(&out[12..18], &[1, 17, 18, 19, 2, 0]);
}

#[test]
fn truncated_row_equals_wrapped_row() {
    let mut opts = PadTruncate::new(0);
    opts.max_length = Some(4);
    opts.truncate = true;
    opts.truncate_left = true;
    opts.prefix = vec![5];
    opts.suffix = vec![6];
    let tokens = [1, 2, 3, 4, 7];
    let (out, width, lens) = pad_truncate_ragged(&tokens, &[4, 1], &opts).unwrap();
    assert_eq!(width, 4);
    assert_eq!(lens, vec![4, 3]);
    assert_eq!(&out[0..4], wrap_truncate(&tokens[0..4], &[5], &[6], Some(4), true).as_slice());
    assert_eq!(&out[4..7], wrap_truncate(&tokens[4..5], &[5], &[6], Some(4), true).as_slice());
}

#[test]
fn empty_batch_has_width_of_specials() {
    let mut opts = PadTruncate::new(0);
    opts.suffix = vec![1, 2];
    let (out, width, lens) = pad_truncate_ragged(&[], &[], &opts).unwrap();
    assert_eq!(width, 2);
    assert!(out.is_empty());
    assert!(lens.is_empty());
}

#[test]
fn ragged_length_mismatch_is_rejected() {
    let opts = PadTruncate::new(0);
    assert_eq!(
        pad_truncate_ragged(&[1, 2, 3], &[1, 1], &opts),
        Err(PadTruncateError::LengthMismatch { expected: Some(2), actual: 3 })
    );
    assert_eq!(
        pad_truncate_ragged(&[1], &[usize::MAX, 2], &opts),
        Err(PadTruncateError::LengthMismatch { expected: None, actual: 1 })
    );
}

#[test]
fn truncate_without_max_length_is_rejected() {
    let mut opts = PadTruncate::new(0);
    opts.truncate = true;
    assert_eq!(
        pad_truncate_ragged(&[1], &[1], &opts),
        Err(PadTruncateError::TruncateRequiresMaxLength)
    );
}

#[test]
fn max_length_below_specials_is_rejected() {
    let mut opts = PadTruncate::new(0);
    opts.truncate = true;
    opts.max_length = Some(1);
    opts.prefix = vec![1];
    opts.suffix = vec![2];
    assert_eq!(
        pad_truncate_ragged(&[1], &[1], &opts),
        Err(PadTruncateError::NoRoomForSpecialTokens { max_length: 1, extra: 2 })
    );
}

#[test]
fn pad_to_max_without_max_length_is_rejected() {
    let mut opts = PadTruncate::new(0);
    opts.pad_to_max_length = true;
    assert_eq!(
        pad_truncate_ragged(&[1], &[1], &opts),
        Err(PadTruncateError::PadRequiresMaxLength)
    );
}

#[test]
fn too_long_row_without_truncation_is_rejected() {
    let mut opts = PadTruncate::new(0);
    opts.pad_to_max_length = true;
    opts.max_length = Some(2);
    opts.prefix = vec![9];
    assert_eq!(
        pad_truncate_ragged(&[1, 2, 3], &[1, 2], &opts),
        Err(PadTruncateError::SequenceTooLong { longest: 3, max_length: 2 })
    );
}

#[test]
fn native_padding_options_cover_prefix_suffix_and_left_truncation() {
    let mut options = rs_gigatoken::EncodeOptions::new(0);
    options.max_length = Some(5);
    options.pad_to_max_length = true;
    options.truncate = true;
    options.truncate_left = true;
    options.prefix = vec![101];
    options.suffix = vec![102];

    let (flat, width, lengths) = rs_gigatoken::pad_truncate_ragged(&[1, 2, 3, 4], &[4], &options)
        .expect("valid padding options");

    assert_eq!(width, 5);
    assert_eq!(lengths, vec![5]);
    assert_eq!(flat, vec![101, 2, 3, 4, 102]);
}

#[test]
fn refusals_describe_themselves() {
    assert_eq!(
        PadTruncateError::LengthMismatch { expected: Some(2), actual: 3 }.message(),
        "ragged lengths sum to 2, but token buffer contains 3 ids"
    );
    assert_eq!(
        PadTruncateError::LengthMismatch { expected: None, actual: 1 }.message(),
        "ragged lengths sum to more than usize::MAX, but token buffer contains 1 ids"
    );
    assert_eq!(PadTruncateError::TruncateRequiresMaxLength.message(), "truncate requires max_length");
    assert_eq!(
        PadTruncateError::NoRoomForSpecialTokens { max_length: 1, extra: 2 }.message(),
        "max_length=1 leaves no room for 2 special tokens added per sequence"
    );
    assert_eq!(
        PadTruncateError::PadRequiresMaxLength.message(),
        "pad_to_max_length requires max_length"
    );
    assert_eq!(
        PadTruncateError::SequenceTooLong { longest: 30, max_length: 12 }.message(),
        "a sequence is 30 ids long but max_length=12 was requested without truncation"
    );
}
