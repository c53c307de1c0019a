//! Assembly operations applied after encoding: wrapping/truncation of a single
//! row and padding/truncation of a ragged batch into a fixed-width matrix.

use crate::text::{append_decimal, decimal};
use vstd::prelude::*;

verus! {

/// Options for assembling a ragged batch into fixed-width rows.
#[derive(Debug, Clone)]
pub struct PadTruncate {
    /// Token ID used for padding.
    pub pad_id: u32,
    /// Maximum output width. Required when `truncate` is true.
    pub max_length: Option<usize>,
    /// Force every row to `max_length`; otherwise rows use the longest row.
    pub pad_to_max_length: bool,
    /// Truncate rows longer than `max_length`.
    pub truncate: bool,
    /// Put padding on the left instead of the right.
    pub pad_left: bool,
    /// Keep the rightmost tokens when truncating instead of the leftmost.
    pub truncate_left: bool,
    /// Token IDs written before every row. They count toward `max_length`.
    pub prefix: Vec<u32>,
    /// Token IDs written after every row. They count toward `max_length`.
    pub suffix: Vec<u32>,
}

/// Native name for the encoding assembly options.
pub type EncodeOptions = PadTruncate;

impl PadTruncate {
    /// Options that pad with `pad_id` to the longest row, with no truncation,
    /// no prefix and no suffix.
    pub fn new(pad_id: u32) -> (res: Self)
        ensures
            res.pad_id == pad_id,
            res.max_length is None,
            !res.pad_to_max_length,
            !res.truncate,
            !res.pad_left,
            !res.truncate_left,
            res.prefix@.len() == 0,
            res.suffix@.len() == 0,
    {
        PadTruncate {
            pad_id,
            max_length: None,
            pad_to_max_length: false,
            truncate: false,
            pad_left: false,
            truncate_left: false,
            prefix: Vec::new(),
            suffix: Vec::new(),
        }
    }
}

/// Why `pad_truncate_ragged` refused its input.
#[derive(Debug, PartialEq, Eq)]
pub enum PadTruncateError {
    /// The row lengths do not add up to the number of tokens. `expected` is
    /// their sum, or `None` where the sum does not fit in a `usize`.
    LengthMismatch { expected: Option<usize>, actual: usize },
    /// `truncate` was requested without `max_length`.
    TruncateRequiresMaxLength,
    /// `max_length` is smaller than the prefix and suffix together.
    NoRoomForSpecialTokens { max_length: usize, extra: usize },
    /// `pad_to_max_length` was requested without `max_length`.
    PadRequiresMaxLength,
    /// A row is longer than `max_length` and is not truncated.
    SequenceTooLong { longest: usize, max_length: usize },
}

/// The text of a refusal, with the numbers it reports in decimal.
pub open spec fn pad_error_text(e: PadTruncateError) -> Seq<char> {
    match e {
        PadTruncateError::LengthMismatch { expected, actual } => match expected {
            Some(sum) => "ragged lengths sum to "@ + decimal(sum as u64)
                + ", but token buffer contains "@ + decimal(actual as u64) + " ids"@,
            None => "ragged lengths sum to more than usize::MAX"@
                + ", but token buffer contains "@ + decimal(actual as u64) + " ids"@,
        },
        PadTruncateError::TruncateRequiresMaxLength => "truncate requires max_length"@,
        PadTruncateError::NoRoomForSpecialTokens { max_length, extra } => "max_length="@ + decimal(
            max_length as u64,
        ) + " leaves no room for "@ + decimal(extra as u64)
            + " special tokens added per sequence"@,
        PadTruncateError::PadRequiresMaxLength => "pad_to_max_length requires max_length"@,
        PadTruncateError::SequenceTooLong { longest, max_length } => "a sequence is "@ + decimal(
            longest as u64,
        ) + " ids long but max_length="@ + decimal(max_length as u64)
            + " was requested without truncation"@,
    }
}

impl PadTruncateError {
    /// A description of the refusal.
    pub fn message(&self) -> (res: String)
        ensures
            res@ == pad_error_text(*self),
    {
        match self {
            PadTruncateError::LengthMismatch { expected, actual } => {
                let mut text = match expected {
                    Some(sum) => {
                        let mut t = String::from_str("ragged lengths sum to ");
                        append_decimal(&mut t, *sum as u64);
                        t
                    },
                    None => String::from_str("ragged lengths sum to more than usize::MAX"),
                };
                text.append(", but token buffer contains ");
                append_decimal(&mut text, *actual as u64);
                text.append(" ids");
                proof {
                    match expected {
                        Some(sum) => {
                            assert(text@ =~= pad_error_text(*self));
                        },
                        None => {
                            assert(text@ =~= pad_error_text(*self));
                        },
                    }
                }
                text
            },
            PadTruncateError::TruncateRequiresMaxLength => String::from_str(
                "truncate requires max_length",
            ),
            PadTruncateError::NoRoomForSpecialTokens { max_length, extra } => {
                let mut text = String::from_str("max_length=");
                append_decimal(&mut text, *max_length as u64);
                text.append(" leaves no room for ");
                append_decimal(&mut text, *extra as u64);
                text.append(" special tokens added per sequence");
                text
            },
            PadTruncateError::PadRequiresMaxLength => String::from_str(
                "pad_to_max_length requires max_length",
            ),
            PadTruncateError::SequenceTooLong { longest, max_length } => {
                let mut text = String::from_str("a sequence is ");
                append_decimal(&mut text, *longest as u64);
                text.append(" ids long but max_length=");
                append_decimal(&mut text, *max_length as u64);
                text.append(" was requested without truncation");
                text
            },
        }
    }
}

/// The sum of the row lengths.
pub open spec fn sum_lengths(lengths: Seq<usize>) -> nat
    decreases lengths.len(),
{
    if lengths.len() == 0 {
        0
    } else {
        sum_lengths(lengths.drop_last()) + lengths.last() as nat
    }
}

/// The largest row length, or 0 for no rows.
pub open spec fn longest_length(lengths: Seq<usize>) -> nat
    decreases lengths.len(),
{
    if lengths.len() == 0 {
        0
    } else {
        let rest = longest_length(lengths.drop_last());
        if lengths.last() > rest {
            lengths.last() as nat
        } else {
            rest
        }
    }
}

/// The number of special tokens added to every row.
pub open spec fn extra_tokens(o: PadTruncate) -> nat {
    o.prefix@.len() + o.suffix@.len()
}

/// How many of a row's `len` tokens survive truncation.
pub open spec fn kept_tokens(len: nat, o: PadTruncate) -> nat {
    if o.truncate {
        let limit = o.max_length.unwrap() - extra_tokens(o);
        if len <= limit {
            len
        } else {
            limit as nat
        }
    } else {
        len
    }
}

/// The longest assembled row: the longest kept row plus the special tokens.
pub open spec fn longest_row(lengths: Seq<usize>, o: PadTruncate) -> nat {
    kept_tokens(longest_length(lengths), o) + extra_tokens(o)
}

/// The error `pad_truncate_ragged` reports, checked in this order, or `None`.
pub open spec fn ragged_error(tokens: Seq<u32>, lengths: Seq<usize>, o: PadTruncate) -> Option<
    PadTruncateError,
> {
    let sum = sum_lengths(lengths);
    let extra = extra_tokens(o);
    if sum != tokens.len() {
        Some(
            PadTruncateError::LengthMismatch {
                expected: if sum <= usize::MAX {
                    Some(sum as usize)
                } else {
                    None
                },
                actual: tokens.len() as usize,
            },
        )
    } else if o.truncate && o.max_length is None {
        Some(PadTruncateError::TruncateRequiresMaxLength)
    } else if o.truncate && o.max_length.unwrap() < extra {
        Some(
            PadTruncateError::NoRoomForSpecialTokens {
                max_length: o.max_length.unwrap(),
                extra: extra as usize,
            },
        )
    } else if o.pad_to_max_length && o.max_length is None {
        Some(PadTruncateError::PadRequiresMaxLength)
    } else if o.pad_to_max_length && longest_row(lengths, o) > o.max_length.unwrap() {
        Some(
            PadTruncateError::SequenceTooLong {
                longest: longest_row(lengths, o) as usize,
                max_length: o.max_length.unwrap(),
            },
        )
    } else {
        None
    }
}

/// The width of every output row.
pub open spec fn ragged_width(lengths: Seq<usize>, o: PadTruncate) -> nat {
    if o.pad_to_max_length {
        o.max_length.unwrap() as nat
    } else {
        longest_row(lengths, o)
    }
}

/// Row `r` before padding: the prefix, the kept window of the row's tokens
/// (its leftmost or rightmost tokens), then the suffix.
pub open spec fn row_content(tokens: Seq<u32>, lengths: Seq<usize>, o: PadTruncate, r: int) -> Seq<
    u32,
> {
    let len = lengths[r] as nat;
    let keep = kept_tokens(len, o);
    let start = sum_lengths(lengths.take(r));
    let src = if o.truncate_left {
        start + len - keep
    } else {
        start as int
    };
    o.prefix@ + tokens.subrange(src, src + keep) + o.suffix@
}

/// `content` padded with `pad` to `width`, on the left or on the right.
pub open spec fn padded(content: Seq<u32>, width: nat, pad: u32, pad_left: bool) -> Seq<u32> {
    let fill = Seq::new((width - content.len()) as nat, |_i: int| pad);
    if pad_left {
        fill + content
    } else {
        content + fill
    }
}

/// The first `k` padded rows, concatenated in row-major order.
pub open spec fn padded_rows(
    tokens: Seq<u32>,
    lengths: Seq<usize>,
    o: PadTruncate,
    width: nat,
    k: int,
) -> Seq<u32>
    decreases k,
{
    if k <= 0 {
        seq![]
    } else {
        padded_rows(tokens, lengths, o, width, k - 1) + padded(
            row_content(tokens, lengths, o, k - 1),
            width,
            o.pad_id,
            o.pad_left,
        )
    }
}

/// The inputs on which the assembly's arithmetic and its output buffer fit
/// in a `usize`.
pub open spec fn ragged_fits(tokens: Seq<u32>, lengths: Seq<usize>, o: PadTruncate) -> bool {
    &&& extra_tokens(o) <= usize::MAX
    &&& (sum_lengths(lengths) == tokens.len() && !o.truncate) ==> longest_length(lengths)
        + extra_tokens(o) <= usize::MAX
    &&& ragged_error(tokens, lengths, o) is None ==> lengths.len() * ragged_width(lengths, o)
        <= usize::MAX
}

/// Apply padding/truncation to a flat ragged representation.
///
/// `tokens` contains all rows concatenated and `lengths` contains one length
/// per row. The result is `(flat_matrix, width, output_lengths)`, where the
/// matrix is row-major and every row has exactly `width` entries.
#[verifier::rlimit(40)]
pub fn pad_truncate_ragged(tokens: &[u32], lengths: &[usize], options: &PadTruncate) -> (res:
    Result<(Vec<u32>, usize, Vec<usize>), PadTruncateError>)
    requires
        ragged_fits(tokens@, lengths@, *options),
    ensures
        match res {
            Ok((out, width, out_lengths)) => {
                &&& ragged_error(tokens@, lengths@, *options) is None
                &&& width == ragged_width(lengths@, *options)
                &&& out@ == padded_rows(
                    tokens@,
                    lengths@,
                    *options,
                    width as nat,
                    lengths@.len() as int,
                )
                &&& out_lengths@.len() == lengths@.len()
                &&& forall|r: int|
                    0 <= r < lengths@.len() ==> out_lengths@[r] == row_content(
                        tokens@,
                        lengths@,
                        *options,
                        r,
                    ).len()
            },
            Err(e) => ragged_error(tokens@, lengths@, *options) == Some(e),
        },
{
    let n = lengths.len();
    let mut expected: usize = 0;
    let mut overflowed = false;
    let mut i: usize = 0;
    while i < n
        invariant
            i <= n == lengths@.len(),
            !overflowed ==> expected == sum_lengths(lengths@.take(i as int)),
            overflowed ==> sum_lengths(lengths@.take(i as int)) > usize::MAX,
        decreases n - i,
    {
        proof {
            lemma_sum_take_step(lengths@, i as int);
        }
        if !overflowed {
            match expected.checked_add(lengths[i]) {
                Some(v) => expected = v,
                None => overflowed = true,
            }
        }
        i += 1;
    }
    proof {
        assert(lengths@.take(n as int) =~= lengths@);
    }
    if overflowed || expected != tokens.len() {
        return Err(
            PadTruncateError::LengthMismatch {
                expected: if overflowed {
                    None
                } else {
                    Some(expected)
                },
                actual: tokens.len(),
            },
        );
    }
    let extra = options.prefix.len() + options.suffix.len();
    let keep_limit: usize = if options.truncate {
        match options.max_length {
            None => {
                return Err(PadTruncateError::TruncateRequiresMaxLength);
            },
            Some(max) => {
                if max < extra {
                    return Err(PadTruncateError::NoRoomForSpecialTokens { max_length: max, extra });
                }
                max - extra
            },
        }
    } else {
        usize::MAX
    };
    let mut longest_tokens: usize = 0;
    let mut j: usize = 0;
    while j < n
        invariant
            j <= n == lengths@.len(),
            longest_tokens == longest_length(lengths@.take(j as int)),
        decreases n - j,
    {
        proof {
            assert(lengths@.take(j + 1).drop_last() =~= lengths@.take(j as int));
        }
        if lengths[j] > longest_tokens {
            longest_tokens = lengths[j];
        }
        j += 1;
    }
    proof {
        assert(lengths@.take(n as int) =~= lengths@);
        lemma_longest_le_sum(lengths@);
    }
    let kept_longest = if longest_tokens < keep_limit {
        longest_tokens
    } else {
        keep_limit
    };
    let longest = kept_longest + extra;
    let width = if options.pad_to_max_length {
        match options.max_length {
            None => {
                return Err(PadTruncateError::PadRequiresMaxLength);
            },
            Some(max) => {
                if longest > max {
                    return Err(PadTruncateError::SequenceTooLong { longest, max_length: max });
                }
                max
            },
        }
    } else {
        longest
    };
    assert(ragged_error(tokens@, lengths@, *options) is None);
    let mut out: Vec<u32> = Vec::with_capacity(n * width);
    let mut out_lengths: Vec<usize> = Vec::with_capacity(n);
    let mut offset: usize = 0;
    let mut row: usize = 0;
    while row < n
        invariant
            row <= n == lengths@.len(),
            sum_lengths(lengths@) == tokens@.len(),
            tokens@.len() <= usize::MAX,
            options.truncate ==> options.max_length is Some && options.max_length.unwrap()
                >= extra,
            options.truncate ==> keep_limit == options.max_length.unwrap() - extra_tokens(
                *options,
            ),
            !options.truncate ==> keep_limit == usize::MAX,
            extra == extra_tokens(*options),
            width == ragged_width(lengths@, *options),
            longest_row(lengths@, *options) <= width,
            offset == sum_lengths(lengths@.take(row as int)),
            out@ == padded_rows(tokens@, lengths@, *options, width as nat, row as int),
            out_lengths@.len() == row,
            forall|r: int|
                0 <= r < row ==> out_lengths@[r] == row_content(tokens@, lengths@, *options, r).len(),
        decreases n - row,
    {
        let len = lengths[row];
        let keep = if len < keep_limit {
            len
        } else {
            keep_limit
        };
        proof {
            lemma_sum_take_step(lengths@, row as int);
            lemma_sum_take_le(lengths@, row + 1);
            lemma_longest_bound(lengths@, row as int);
            assert(keep == kept_tokens(len as nat, *options));
            assert(kept_tokens(len as nat, *options) <= kept_tokens(
                longest_length(lengths@),
                *options,
            ));
        }
        let source_start = if options.truncate_left {
            offset + len - keep
        } else {
            offset
        };
        let row_len = extra + keep;
        proof {
            assert(row_content(tokens@, lengths@, *options, row as int) == options.prefix@
                + tokens@.subrange(source_start as int, source_start + keep) + options.suffix@);
        }
        push_padded_row(&mut out, tokens, source_start, keep, options, width);
        out_lengths.push(row_len);
        offset = offset + len;
        row = row + 1;
    }
    Ok((out, width, out_lengths))
}

/// Row `r` of a batch accepted by `pad_truncate_ragged` has its kept tokens
/// plus the prefix and suffix, and fits in the output width.
pub proof fn lemma_row_fits_width(tokens: Seq<u32>, lengths: Seq<usize>, o: PadTruncate, r: int)
    requires
        ragged_error(tokens, lengths, o) is None,
        0 <= r < lengths.len(),
    ensures
        row_content(tokens, lengths, o, r).len() == kept_tokens(lengths[r] as nat, o)
            + extra_tokens(o),
        row_content(tokens, lengths, o, r).len() <= ragged_width(lengths, o),
{
    lemma_sum_take_step(lengths, r);
    lemma_sum_take_le(lengths, r + 1);
    lemma_longest_bound(lengths, r);
}

/// Every row of the assembled matrix has exactly `width` entries: the matrix
/// holds `rows * width` entries and row `r` occupies entries
/// `r * width .. (r + 1) * width`, where it is the row's content padded on
/// the requested side.
pub proof fn lemma_rows_are_width_aligned(
    tokens: Seq<u32>,
    lengths: Seq<usize>,
    o: PadTruncate,
    k: int,
)
    requires
        ragged_error(tokens, lengths, o) is None,
        0 <= k <= lengths.len(),
    ensures
        ({
            let w = ragged_width(lengths, o);
            let m = padded_rows(tokens, lengths, o, w, k);
            &&& m.len() == k * w
            &&& forall|r: int|
                0 <= r < k ==> #[trigger] m.subrange(r * w, r * w + w) == padded(
                    row_content(tokens, lengths, o, r),
                    w,
                    o.pad_id,
                    o.pad_left,
                )
        }),
    decreases k,
{
    let w = ragged_width(lengths, o);
    if k > 0 {
        lemma_rows_are_width_aligned(tokens, lengths, o, k - 1);
        lemma_row_fits_width(tokens, lengths, o, k - 1);
        let prev = padded_rows(tokens, lengths, o, w, k - 1);
        let last = padded(row_content(tokens, lengths, o, k - 1), w, o.pad_id, o.pad_left);
        let m = padded_rows(tokens, lengths, o, w, k);
        assert(m == prev + last);
        assert(last.len() == w);
        assert(k * w == (k - 1) * w + w) by (nonlinear_arith);
        assert forall|r: int| 0 <= r < k implies #[trigger] m.subrange(r * w, r * w + w) == padded(
            row_content(tokens, lengths, o, r),
            w,
            o.pad_id,
            o.pad_left,
        ) by {
            if r < k - 1 {
                assert(r * w + w <= (k - 1) * w) by (nonlinear_arith)
                    requires
                        r < k - 1,
                        0 <= r,
                ;
                assert(0 <= r * w) by (nonlinear_arith)
                    requires
                        0 <= r,
                ;
                assert(m.subrange(r * w, r * w + w) =~= prev.subrange(r * w, r * w + w));
            } else {
                assert(m.subrange(r * w, r * w + w) =~= last);
            }
        }
    }
}

/// The contents of the first `k` rows (before padding), concatenated.
pub open spec fn row_contents(tokens: Seq<u32>, lengths: Seq<usize>, o: PadTruncate, k: int) -> Seq<
    u32,
>
    decreases k,
{
    if k <= 0 {
        seq![]
    } else {
        row_contents(tokens, lengths, o, k - 1) + row_content(tokens, lengths, o, k - 1)
    }
}

/// Where the content of a row starts within its padded row: after the
/// padding when padding goes on the left, at the start otherwise.
pub open spec fn content_offset(content_len: nat, width: nat, pad_left: bool) -> int {
    if pad_left {
        width - content_len
    } else {
        0
    }
}

/// Padding without truncation and without special tokens loses no token:
/// row `r` of the matrix holds exactly the `r`-th run of `lengths[r]` input
/// tokens, at its content offset, and the rows' contents, concatenated in
/// order, are the input tokens.
pub proof fn lemma_padding_keeps_every_token(tokens: Seq<u32>, lengths: Seq<usize>, o: PadTruncate)
    requires
        ragged_error(tokens, lengths, o) is None,
        !o.truncate,
        o.prefix@.len() == 0,
        o.suffix@.len() == 0,
    ensures
        row_contents(tokens, lengths, o, lengths.len() as int) == tokens,
        forall|r: int|
            0 <= r < lengths.len() ==> {
                let w = ragged_width(lengths, o);
                let m = padded_rows(tokens, lengths, o, w, lengths.len() as int);
                let d = content_offset(lengths[r] as nat, w, o.pad_left);
                &&& #[trigger] row_content(tokens, lengths, o, r).len() == lengths[r]
                &&& m.subrange(r * w + d, r * w + d + lengths[r]) == row_content(
                    tokens,
                    lengths,
                    o,
                    r,
                )
            },
{
    let n = lengths.len() as int;
    let w = ragged_width(lengths, o);
    lemma_row_contents_prefix(tokens, lengths, o, n);
    assert(lengths.take(n) =~= lengths);
    assert(tokens.subrange(0, tokens.len() as int) =~= tokens);
    lemma_rows_are_width_aligned(tokens, lengths, o, n);
    let m = padded_rows(tokens, lengths, o, w, n);
    assert forall|r: int| 0 <= r < lengths.len() implies {
        let d = content_offset(lengths[r] as nat, w, o.pad_left);
        &&& #[trigger] row_content(tokens, lengths, o, r).len() == lengths[r]
        &&& m.subrange(r * w + d, r * w + d + lengths[r]) == row_content(tokens, lengths, o, r)
    } by {
        lemma_row_fits_width(tokens, lengths, o, r);
        let c = row_content(tokens, lengths, o, r);
        let d = content_offset(lengths[r] as nat, w, o.pad_left);
        let row = m.subrange(r * w, r * w + w);
        assert(row == padded(c, w, o.pad_id, o.pad_left));
        assert(row.subrange(d, d + c.len()) =~= c);
        assert(0 <= r * w) by (nonlinear_arith)
            requires
                0 <= r,
        ;
        assert(r * w + w <= n * w) by (nonlinear_arith)
            requires
                r < n,
        ;
        assert(m.subrange(r * w + d, r * w + d + c.len()) =~= row.subrange(d, d + c.len()));
    }
}

proof fn lemma_row_contents_prefix(tokens: Seq<u32>, lengths: Seq<usize>, o: PadTruncate, k: int)
    requires
        ragged_error(tokens, lengths, o) is None,
        !o.truncate,
        o.prefix@.len() == 0,
        o.suffix@.len() == 0,
        0 <= k <= lengths.len(),
    ensures
        row_contents(tokens, lengths, o, k) == tokens.subrange(0, sum_lengths(lengths.take(k)) as int),
    decreases k,
{
    if k == 0 {
        assert(lengths.take(0) =~= Seq::<usize>::empty());
        assert(tokens.subrange(0, 0) =~= Seq::<u32>::empty());
    } else {
        lemma_row_contents_prefix(tokens, lengths, o, k - 1);
        lemma_sum_take_step(lengths, k - 1);
        lemma_sum_take_le(lengths, k);
        let a = sum_lengths(lengths.take(k - 1)) as int;
        let b = sum_lengths(lengths.take(k)) as int;
        assert(row_content(tokens, lengths, o, k - 1) =~= tokens.subrange(a, b));
        assert(tokens.subrange(0, a) + tokens.subrange(a, b) =~= tokens.subrange(0, b));
    }
}

/// The assembly settings of `left` and `right` agree in everything but the
/// side on which padding goes.
pub open spec fn same_but_padding_side(left: PadTruncate, right: PadTruncate) -> bool {
    &&& left.pad_id == right.pad_id
    &&& left.max_length == right.max_length
    &&& left.pad_to_max_length == right.pad_to_max_length
    &&& left.truncate == right.truncate
    &&& left.truncate_left == right.truncate_left
    &&& left.prefix@ == right.prefix@
    &&& left.suffix@ == right.suffix@
}

/// Padding on the left instead of the right only moves the padding: the same
/// batch is accepted or refused alike, with the same width, and each row of
/// the left-padded matrix is the right-padded row rotated so that its
/// padding comes first.
pub proof fn lemma_left_padding_moves_fill(
    tokens: Seq<u32>,
    lengths: Seq<usize>,
    left: PadTruncate,
    right: PadTruncate,
)
    requires
        same_but_padding_side(left, right),
        left.pad_left,
        !right.pad_left,
    ensures
        ragged_error(tokens, lengths, left) == ragged_error(tokens, lengths, right),
        ragged_width(lengths, left) == ragged_width(lengths, right),
        ragged_error(tokens, lengths, right) is None ==> forall|r: int|
            0 <= r < lengths.len() ==> {
                let w = ragged_width(lengths, right);
                let n = lengths.len() as int;
                let ml = padded_rows(tokens, lengths, left, w, n);
                let mr = padded_rows(tokens, lengths, right, w, n);
                let c = #[trigger] row_content(tokens, lengths, right, r).len();
                ml.subrange(r * w, r * w + w) == mr.subrange(r * w + c, r * w + w) + mr.subrange(
                    r * w,
                    r * w + c,
                )
            },
{
    assert(extra_tokens(left) == extra_tokens(right));
    assert(forall|len: nat| kept_tokens(len, left) == kept_tokens(len, right));
    assert(longest_row(lengths, left) == longest_row(lengths, right));
    assert(forall|r: int| row_content(tokens, lengths, left, r) == row_content(tokens, lengths, right, r));
    if ragged_error(tokens, lengths, right) is None {
        let w = ragged_width(lengths, right);
        let n = lengths.len() as int;
        lemma_rows_are_width_aligned(tokens, lengths, left, n);
        lemma_rows_are_width_aligned(tokens, lengths, right, n);
        let ml = padded_rows(tokens, lengths, left, w, n);
        let mr = padded_rows(tokens, lengths, right, w, n);
        assert forall|r: int| 0 <= r < lengths.len() implies {
            let c = #[trigger] row_content(tokens, lengths, right, r).len();
            ml.subrange(r * w, r * w + w) == mr.subrange(r * w + c, r * w + w) + mr.subrange(
                r * w,
                r * w + c,
            )
        } by {
            lemma_row_fits_width(tokens, lengths, right, r);
            let content = row_content(tokens, lengths, right, r);
            let c = content.len();
            let rr = mr.subrange(r * w, r * w + w);
            let rl = ml.subrange(r * w, r * w + w);
            assert(rr == padded(content, w, right.pad_id, false));
            assert(rl == padded(content, w, left.pad_id, true));
            assert(0 <= r * w) by (nonlinear_arith)
                requires
                    0 <= r,
            ;
            assert(r * w + w <= n * w) by (nonlinear_arith)
                requires
                    r < n,
            ;
            assert(mr.subrange(r * w + c, r * w + w) =~= rr.subrange(c as int, w as int));
            assert(mr.subrange(r * w, r * w + c) =~= rr.subrange(0, c as int));
            assert(rl =~= rr.subrange(c as int, w as int) + rr.subrange(0, c as int));
        }
    }
}

/// Entries `x..y` of row `r` of a matrix of `n` rows of `w` entries are
/// entries `x..y` of that row.
proof fn lemma_matrix_row_range(m: Seq<u32>, n: int, w: int, r: int, x: int, y: int)
    requires
        m.len() == n * w,
        0 <= r < n,
        0 <= x <= y <= w,
    ensures
        r * w + w <= m.len(),
        0 <= r * w,
        m.subrange(r * w + x, r * w + y) == m.subrange(r * w, r * w + w).subrange(x, y),
{
    assert(0 <= r * w) by (nonlinear_arith)
        requires
            0 <= r,
            0 <= w,
    ;
    assert(r * w + w <= n * w) by (nonlinear_arith)
        requires
            r < n,
            0 <= w,
    ;
    assert(m.subrange(r * w + x, r * w + y) =~= m.subrange(r * w, r * w + w).subrange(x, y));
}

/// How many of row `r`'s tokens an accepted batch keeps: all of them, unless
/// truncation is on and the row with its special tokens would exceed
/// `max_length`, in which case exactly as many as fit beside the special
/// tokens.
pub open spec fn tokens_kept(lengths: Seq<usize>, o: PadTruncate, r: int) -> int {
    let extra = o.prefix@.len() + o.suffix@.len();
    if o.truncate && lengths[r] + extra > o.max_length.unwrap() {
        o.max_length.unwrap() - extra
    } else {
        lengths[r] as int
    }
}

/// The layout of every row of an accepted batch. With `w` the width, row
/// `r` of the matrix is: padding (when padding goes on the left), then the
/// prefix, then `k` consecutive input tokens of that row (its first `k`, or
/// its last `k` when truncating on the left), then the suffix, then padding
/// (when padding goes on the right); every padding entry is `pad_id`, and
/// the assembled row (prefix, tokens, suffix) fits in `w`. Without
/// `pad_to_max_length` the width is exactly that of the longest assembled
/// row (or of the special tokens alone for an empty batch).
#[verifier::rlimit(40)]
pub proof fn lemma_row_layout(tokens: Seq<u32>, lengths: Seq<usize>, o: PadTruncate, r: int)
    requires
        ragged_error(tokens, lengths, o) is None,
        0 <= r < lengths.len(),
    ensures
        ({
            let w = ragged_width(lengths, o) as int;
            let m = padded_rows(tokens, lengths, o, w as nat, lengths.len() as int);
            let p = o.prefix@.len() as int;
            let s = o.suffix@.len() as int;
            let k = tokens_kept(lengths, o, r);
            let c = p + k + s;
            let start = sum_lengths(lengths.take(r)) as int;
            let a = if o.truncate_left { start + lengths[r] - k } else { start };
            let d = if o.pad_left { w - c } else { 0 };
            &&& 0 <= k <= lengths[r]
            &&& c <= w
            &&& row_content(tokens, lengths, o, r).len() == c
            &&& m.subrange(r * w + d, r * w + d + p) == o.prefix@
            &&& m.subrange(r * w + d + p, r * w + d + p + k) == tokens.subrange(a, a + k)
            &&& m.subrange(r * w + d + p + k, r * w + d + c) == o.suffix@
            &&& forall|j: int|
                0 <= j < w && !(d <= j < d + c) ==> #[trigger] m[r * w + j] == o.pad_id
        }),
        !o.pad_to_max_length ==> {
            let w = ragged_width(lengths, o) as int;
            &&& forall|q: int|
                0 <= q < lengths.len() ==> #[trigger] row_content(tokens, lengths, o, q).len()
                    <= w
            &&& exists|q: int|
                0 <= q < lengths.len() && #[trigger] row_content(tokens, lengths, o, q).len()
                    == w
        },
{
    let w = ragged_width(lengths, o) as int;
    let n = lengths.len() as int;
    let m = padded_rows(tokens, lengths, o, w as nat, n);
    let p = o.prefix@.len() as int;
    let s = o.suffix@.len() as int;
    let k = tokens_kept(lengths, o, r);
    let c = p + k + s;
    let d = if o.pad_left { w - c } else { 0 };
    lemma_row_fits_width(tokens, lengths, o, r);
    lemma_rows_are_width_aligned(tokens, lengths, o, n);
    lemma_sum_take_step(lengths, r);
    lemma_sum_take_le(lengths, r + 1);
    assert(kept_tokens(lengths[r] as nat, o) == k);
    let content = row_content(tokens, lengths, o, r);
    let row = m.subrange(r * w, r * w + w);
    assert(row == padded(content, w as nat, o.pad_id, o.pad_left));
    let start = sum_lengths(lengths.take(r)) as int;
    let a = if o.truncate_left { start + lengths[r] - k } else { start };
    assert(content == o.prefix@ + tokens.subrange(a, a + k) + o.suffix@);
    lemma_matrix_row_range(m, n, w, r, d, d + p);
    lemma_matrix_row_range(m, n, w, r, d + p, d + p + k);
    lemma_matrix_row_range(m, n, w, r, d + p + k, d + c);
    assert(row.subrange(d, d + p) =~= o.prefix@);
    assert(row.subrange(d + p, d + p + k) =~= tokens.subrange(a, a + k));
    assert(row.subrange(d + p + k, d + c) =~= o.suffix@);
    assert forall|j: int| 0 <= j < w && !(d <= j < d + c) implies #[trigger] m[r * w + j]
        == o.pad_id by {
        lemma_matrix_row_range(m, n, w, r, j, j + 1);
        assert(m[r * w + j] == m.subrange(r * w + j, r * w + j + 1)[0]);
        assert(m.subrange(r * w, r * w + w).subrange(j, j + 1)[0] == row[j]);
    }
    if !o.pad_to_max_length {
        assert forall|q: int| 0 <= q < lengths.len() implies #[trigger] row_content(
            tokens,
            lengths,
            o,
            q,
        ).len() <= w by {
            lemma_row_fits_width(tokens, lengths, o, q);
        }
        let q = lemma_longest_attained(lengths);
        lemma_row_fits_width(tokens, lengths, o, q);
        assert(row_content(tokens, lengths, o, q).len() == w);
    }
}

/// Some row attains the longest length.
proof fn lemma_longest_attained(lengths: Seq<usize>) -> (q: int)
    requires
        lengths.len() > 0,
    ensures
        0 <= q < lengths.len(),
        lengths[q] == longest_length(lengths),
    decreases lengths.len(),
{
    if lengths.len() == 1 {
        assert(lengths.drop_last() =~= Seq::<usize>::empty());
        assert(longest_length(lengths.drop_last()) == 0);
        assert(lengths.last() == lengths[0]);
        0
    } else {
        let rest = lengths.drop_last();
        let q0 = lemma_longest_attained(rest);
        assert(rest[q0] == lengths[q0]);
        assert(lengths.last() == lengths[lengths.len() - 1]);
        if lengths.last() > longest_length(rest) {
            lengths.len() - 1
        } else {
            q0
        }
    }
}

/// An empty batch assembles to no entries, and, without
/// `pad_to_max_length`, to the width of the special tokens alone.
pub proof fn lemma_empty_batch_width(tokens: Seq<u32>, lengths: Seq<usize>, o: PadTruncate)
    requires
        ragged_error(tokens, lengths, o) is None,
        lengths.len() == 0,
        !o.pad_to_max_length,
    ensures
        ragged_width(lengths, o) == o.prefix@.len() + o.suffix@.len(),
        tokens.len() == 0,
{
}

/// Prefix and suffix tokens count toward the truncation budget: when a batch
/// is truncated, no assembled row (before padding) is longer than
/// `max_length`.
pub proof fn lemma_truncated_rows_within_max_length(
    tokens: Seq<u32>,
    lengths: Seq<usize>,
    o: PadTruncate,
    r: int,
)
    requires
        ragged_error(tokens, lengths, o) is None,
        o.truncate,
        0 <= r < lengths.len(),
    ensures
        row_content(tokens, lengths, o, r).len() <= o.max_length.unwrap(),
{
    lemma_row_fits_width(tokens, lengths, o, r);
}

/// A truncated row of a batch, before padding, is exactly what
/// `wrap_truncate` makes of that row's tokens with the same prefix, suffix,
/// budget and side.
pub proof fn lemma_truncated_row_is_wrapped_row(
    tokens: Seq<u32>,
    lengths: Seq<usize>,
    o: PadTruncate,
    r: int,
)
    requires
        ragged_error(tokens, lengths, o) is None,
        o.truncate,
        0 <= r < lengths.len(),
    ensures
        ({
            let start = sum_lengths(lengths.take(r));
            row_content(tokens, lengths, o, r) == wrapped_row(
                tokens.subrange(start as int, start + lengths[r]),
                o.prefix@,
                o.suffix@,
                o.max_length,
                o.truncate_left,
            )
        }),
{
    lemma_sum_take_step(lengths, r);
    lemma_sum_take_le(lengths, r + 1);
    let start = sum_lengths(lengths.take(r));
    let row = tokens.subrange(start as int, start + lengths[r]);
    let keep = kept_tokens(lengths[r] as nat, o);
    assert(keep == wrap_keep(row.len(), extra_tokens(o), o.max_length));
    if o.truncate_left {
        assert(row.subrange(row.len() - keep, row.len() as int) =~= tokens.subrange(
            start + lengths[r] - keep,
            start + lengths[r],
        ));
    } else {
        assert(row.subrange(0, keep as int) =~= tokens.subrange(start as int, (start + keep) as int));
    }
}

/// `wrap_truncate` never produces a row longer than `max_length`.
pub proof fn lemma_wrapped_row_within_budget(
    row: Seq<u32>,
    prefix: Seq<u32>,
    suffix: Seq<u32>,
    max_length: usize,
    truncate_left: bool,
)
    ensures
        wrapped_row(row, prefix, suffix, Some(max_length), truncate_left).len() <= max_length,
{
}

/// While the prefix and suffix fit in the budget, `wrap_truncate` keeps the
/// whole prefix and suffix and as many row tokens as the rest of the budget
/// allows.
pub proof fn lemma_wrapped_row_keeps_specials(
    row: Seq<u32>,
    prefix: Seq<u32>,
    suffix: Seq<u32>,
    max_length: usize,
    truncate_left: bool,
)
    requires
        prefix.len() + suffix.len() <= max_length,
    ensures
        ({
            let w = wrapped_row(row, prefix, suffix, Some(max_length), truncate_left);
            let keep = wrap_keep(row.len(), prefix.len() + suffix.len(), Some(max_length));
            &&& w.len() == prefix.len() + keep + suffix.len()
            &&& w.subrange(0, prefix.len() as int) == prefix
            &&& w.subrange(w.len() - suffix.len(), w.len() as int) == suffix
        }),
{
    let keep = wrap_keep(row.len(), prefix.len() + suffix.len(), Some(max_length));
    let start = if truncate_left { row.len() - keep } else { 0 };
    let w = prefix + row.subrange(start, start + keep) + suffix;
    assert(w.subrange(0, prefix.len() as int) =~= prefix);
    assert(w.subrange(w.len() - suffix.len(), w.len() as int) =~= suffix);
}

/// Append to `out` the row made of the prefix, `tokens[start..start + keep]`
/// and the suffix, padded to `width` on the side that `options` asks for.
fn push_padded_row(
    out: &mut Vec<u32>,
    tokens: &[u32],
    start: usize,
    keep: usize,
    options: &PadTruncate,
    width: usize,
)
    requires
        start + keep <= tokens@.len() <= usize::MAX,
        options.prefix@.len() + keep + options.suffix@.len() <= width,
    ensures
        final(out)@ == old(out)@ + padded(
            options.prefix@ + tokens@.subrange(start as int, start + keep) + options.suffix@,
            width as nat,
            options.pad_id,
            options.pad_left,
        ),
{
    let ghost before = out@;
    let ghost content = options.prefix@ + tokens@.subrange(start as int, start + keep)
        + options.suffix@;
    let row_len = options.prefix.len() + keep + options.suffix.len();
    if options.pad_left {
        push_fill(out, options.pad_id, width - row_len);
    }
    push_all(out, options.prefix.as_slice());
    push_range(out, tokens, start, start + keep);
    push_all(out, options.suffix.as_slice());
    if !options.pad_left {
        push_fill(out, options.pad_id, width - row_len);
    }
    proof {
        let fill = Seq::new((width - content.len()) as nat, |_i: int| options.pad_id);
        if options.pad_left {
            assert(out@ =~= before + (fill + content));
        } else {
            assert(out@ =~= before + (content + fill));
        }
    }
}

/// Append `count` copies of `value` to `out`.
fn push_fill(out: &mut Vec<u32>, value: u32, count: usize)
    ensures
        final(out)@ == old(out)@ + Seq::new(count as nat, |_i: int| value),
{
    let mut i: usize = 0;
    while i < count
        invariant
            i <= count,
            out@ == old(out)@ + Seq::new(i as nat, |_i: int| value),
        decreases count - i,
    {
        out.push(value);
        i += 1;
        proof {
            assert(Seq::new(i as nat, |_i: int| value) =~= Seq::new((i - 1) as nat, |_i: int| value).push(value));
        }
    }
}

proof fn lemma_sum_take_step(lengths: Seq<usize>, r: int)
    requires
        0 <= r < lengths.len(),
    ensures
        sum_lengths(lengths.take(r + 1)) == sum_lengths(lengths.take(r)) + lengths[r],
{
    assert(lengths.take(r + 1).drop_last() =~= lengths.take(r));
}

proof fn lemma_sum_take_le(lengths: Seq<usize>, r: int)
    requires
        0 <= r <= lengths.len(),
    ensures
        sum_lengths(lengths.take(r)) <= sum_lengths(lengths),
    decreases lengths.len() - r,
{
    if r == lengths.len() {
        assert(lengths.take(r) =~= lengths);
    } else {
        lemma_sum_take_step(lengths, r);
        lemma_sum_take_le(lengths, r + 1);
    }
}

proof fn lemma_longest_bound(lengths: Seq<usize>, r: int)
    requires
        0 <= r < lengths.len(),
    ensures
        lengths[r] <= longest_length(lengths),
    decreases lengths.len(),
{
    if r < lengths.len() - 1 {
        lemma_longest_bound(lengths.drop_last(), r);
    }
}

proof fn lemma_longest_le_sum(lengths: Seq<usize>)
    ensures
        longest_length(lengths) <= sum_lengths(lengths),
    decreases lengths.len(),
{
    if lengths.len() > 0 {
        lemma_longest_le_sum(lengths.drop_last());
    }
}

/// The number of row tokens that `wrap_truncate` keeps.
pub open spec fn wrap_keep(row_len: nat, extra: nat, max_length: Option<usize>) -> nat {
    match max_length {
        Some(max) => if max >= extra {
            if row_len <= max - extra { row_len } else { (max - extra) as nat }
        } else {
            0
        },
        None => row_len,
    }
}

/// The row that `wrap_truncate` builds: the prefix, the kept window of `row`,
/// then the suffix. Where the prefix and suffix alone exceed `max_length`, no
/// row token is kept and that row is cut to `max_length`, keeping its
/// leading entries, or its trailing ones when `truncate_left` is set.
pub open spec fn wrapped_row(
    row: Seq<u32>,
    prefix: Seq<u32>,
    suffix: Seq<u32>,
    max_length: Option<usize>,
    truncate_left: bool,
) -> Seq<u32> {
    let keep = wrap_keep(row.len(), prefix.len() + suffix.len(), max_length);
    let start = if truncate_left { row.len() - keep } else { 0 };
    let full = prefix + row.subrange(start, start + keep) + suffix;
    match max_length {
        Some(max) => if full.len() > max {
            if truncate_left {
                full.subrange(full.len() - max, full.len() as int)
            } else {
                full.subrange(0, max as int)
            }
        } else {
            full
        },
        None => full,
    }
}

/// Add a prefix/suffix and optionally truncate a token row.
///
/// When `max_length` is set, truncation is applied to the original row before
/// adding the suffix, and the output is never longer than `max_length`.
pub fn wrap_truncate(
    row: &[u32],
    prefix: &[u32],
    suffix: &[u32],
    max_length: Option<usize>,
    truncate_left: bool,
) -> (out: Vec<u32>)
    requires
        prefix@.len() + suffix@.len() + row@.len() <= usize::MAX,
    ensures
        out@ == wrapped_row(row@, prefix@, suffix@, max_length, truncate_left),
        max_length matches Some(max) ==> out@.len() <= max,
{
    let extra = prefix.len() + suffix.len();
    if let Some(max) = max_length {
        if extra > max {
            let mut specials: Vec<u32> = Vec::with_capacity(extra);
            push_all(&mut specials, prefix);
            push_all(&mut specials, suffix);
            let mut out: Vec<u32> = Vec::with_capacity(max);
            if truncate_left {
                push_range(&mut out, specials.as_slice(), extra - max, extra);
            } else {
                push_range(&mut out, specials.as_slice(), 0, max);
            }
            proof {
                assert(row@.subrange(
                    if truncate_left { row@.len() as int } else { 0 },
                    if truncate_left { row@.len() as int } else { 0 },
                ) =~= Seq::<u32>::empty());
                assert(prefix@ + row@.subrange(
                    if truncate_left { row@.len() as int } else { 0 },
                    if truncate_left { row@.len() as int } else { 0 },
                ) + suffix@ =~= specials@);
            }
            return out;
        }
    }
    let available = match max_length {
        Some(max) => max - extra,
        None => row.len(),
    };
    let keep = if row.len() < available { row.len() } else { available };
    let start = if truncate_left { row.len() - keep } else { 0 };

    let mut out: Vec<u32> = Vec::with_capacity(prefix.len() + keep + suffix.len());
    push_all(&mut out, prefix);
    push_range(&mut out, row, start, start + keep);
    push_all(&mut out, suffix);
    out
}

/// Append all of `src` to `out`.
fn push_all(out: &mut Vec<u32>, src: &[u32])
    ensures
        final(out)@ == old(out)@ + src@,
{
    push_range(out, src, 0, src.len());
    proof {
        assert(src@.subrange(0, src@.len() as int) =~= src@);
    }
}

/// Append `src[from..to]` to `out`.
fn push_range(out: &mut Vec<u32>, src: &[u32], from: usize, to: usize)
    requires
        from <= to <= src@.len(),
    ensures
        final(out)@ == old(out)@ + src@.subrange(from as int, to as int),
{
    let mut i = from;
    while i < to
        invariant
            from <= i <= to <= src@.len(),
            out@ == old(out)@ + src@.subrange(from as int, i as int),
        decreases to - i,
    {
        out.push(src[i]);
        i += 1;
        proof {
            assert(src@.subrange(from as int, i as int) =~= src@.subrange(from as int, i - 1).push(
                src@[i - 1],
            ));
        }
    }
}

} // verus!
