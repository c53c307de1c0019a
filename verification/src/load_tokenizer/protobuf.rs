//! The subset of the protobuf wire format that SentencePiece `.model` files
//! use: base-128 varints and the four wire types of a field.

use std::collections::HashMap;
use vstd::prelude::*;

verus! {

broadcast use vstd::std_specs::hash::group_hash_axioms;

/// Why a protobuf message could not be read.
#[derive(Debug, PartialEq, Eq)]
pub enum ProtoError {
    /// The input ended inside a varint.
    TruncatedVarint,
    /// A varint continued past ten bytes.
    InvalidVarint,
    /// A field key names field number 0.
    FieldZero,
    /// The input ended inside a fixed64 field.
    TruncatedFixed64,
    /// A length-delimited field is longer than a `usize` can hold.
    FieldTooLarge,
    /// The input ended inside a length-delimited field.
    TruncatedBytes,
    /// The input ended inside a fixed32 field.
    TruncatedFixed32,
    /// The key names a wire type other than 0, 1, 2 and 5.
    UnsupportedWireType(u64),
}

/// The value of a protobuf field, by wire type.
#[derive(Debug)]
pub enum ProtoValue {
    Varint(u64),
    Bytes(Vec<u8>),
    Fixed32([u8; 4]),
    Fixed64([u8; 8]),
}

/// The mathematical value of a field: its wire type and its bytes.
pub enum ProtoValueModel {
    Varint(u64),
    Bytes(Seq<u8>),
    Fixed32(Seq<u8>),
    Fixed64(Seq<u8>),
}

impl View for ProtoValue {
    type V = ProtoValueModel;

    open spec fn view(&self) -> ProtoValueModel {
        match self {
            ProtoValue::Varint(v) => ProtoValueModel::Varint(*v),
            ProtoValue::Bytes(b) => ProtoValueModel::Bytes(b@),
            ProtoValue::Fixed32(b) => ProtoValueModel::Fixed32(b@),
            ProtoValue::Fixed64(b) => ProtoValueModel::Fixed64(b@),
        }
    }
}

/// The value of little-endian base-128 groups: the low seven bits of each
/// byte, least significant group first, in 64-bit arithmetic.
pub open spec fn varint_value(groups: Seq<u8>) -> u64
    decreases groups.len(),
{
    if groups.len() == 0 {
        0
    } else {
        ((groups[0] & 0x7f) as u64) | (varint_value(groups.drop_first()) << 7u64)
    }
}

/// The number of consecutive continuation bytes (high bit set) at `pos`.
pub open spec fn continuation_run(data: Seq<u8>, pos: int) -> nat
    decreases data.len() - pos,
{
    if pos < 0 || pos >= data.len() || data[pos] < 0x80 {
        0
    } else {
        1 + continuation_run(data, pos + 1)
    }
}

/// Reading a varint at `pos`: its value and the position after it. A varint
/// is at most ten bytes; its last byte is the first one below 0x80.
pub open spec fn spec_read_varint(data: Seq<u8>, pos: int) -> Result<(u64, int), ProtoError> {
    let run = continuation_run(data, pos);
    if run >= 10 {
        Err(ProtoError::InvalidVarint)
    } else if pos + run >= data.len() {
        Err(ProtoError::TruncatedVarint)
    } else {
        Ok((varint_value(data.subrange(pos, pos + run + 1)), pos + run + 1))
    }
}

proof fn lemma_varint_value_push(groups: Seq<u8>, b: u8)
    requires
        groups.len() <= 9,
    ensures
        varint_value(groups.push(b)) == varint_value(groups) | (((b & 0x7f) as u64) << (7
            * groups.len()) as u64),
    decreases groups.len(),
{
    let x = (b & 0x7f) as u64;
    let g = groups.push(b);
    if groups.len() == 0 {
        assert(g.drop_first() =~= Seq::<u8>::empty());
        assert(g[0] == b);
        assert(varint_value(g.drop_first()) == 0);
        assert(varint_value(groups) == 0);
        assert(x | (0u64 << 7u64) == 0u64 | (x << 0u64)) by (bit_vector);
    } else {
        let t = groups.drop_first();
        lemma_varint_value_push(t, b);
        assert(g.drop_first() =~= t.push(b));
        assert(g[0] == groups[0]);
        let a = (groups[0] & 0x7f) as u64;
        let ft = varint_value(t);
        assert(varint_value(groups) == a | (ft << 7u64));
        assert(varint_value(g) == a | (varint_value(t.push(b)) << 7u64));
        let k = (7 * t.len()) as u64;
        assert(k <= 56);
        assert((7 * groups.len()) as u64 == (k + 7) as u64);
        assert(a | ((ft | (x << k)) << 7u64) == (a | (ft << 7u64)) | (x << ((k + 7) as u64)))
            by (bit_vector)
            requires
                k <= 56,
        ;
    }
}

/// Read a varint at `*pos`, advancing `*pos` past it. On an error `*pos` is
/// left past the bytes that were read: at the end of the input for a
/// truncated varint (or where it was, if it was already past the end), and
/// ten bytes on for an over-long one.
#[verifier::rlimit(40)]
pub fn read_varint(data: &[u8], pos: &mut usize) -> (res: Result<u64, ProtoError>)
    ensures
        match spec_read_varint(data@, *old(pos) as int) {
            Ok((v, next)) => res == Ok::<u64, ProtoError>(v) && *final(pos) == next,
            Err(e) => res == Err::<u64, ProtoError>(e) && *final(pos) == if e
                is InvalidVarint {
                *old(pos) + 10
            } else if *old(pos) <= data@.len() {
                data@.len() as int
            } else {
                *old(pos) as int
            },
        },
{
    if *pos >= data.len() {
        return Err(ProtoError::TruncatedVarint);
    }
    let start = *pos;
    let mut value: u64 = 0;
    let mut shift: u64 = 0;
    let ghost mut i: int = 0;
    loop
        invariant
            start == *old(pos),
            start <= *pos <= data@.len(),
            i == *pos - start,
            0 <= i <= 9,
            shift == 7 * i,
            value == varint_value(data@.subrange(start as int, *pos as int)),
            continuation_run(data@, start as int) == i + continuation_run(data@, *pos as int),
        decreases data@.len() - *pos,
    {
        if *pos >= data.len() {
            proof {
                assert(continuation_run(data@, *pos as int) == 0);
            }
            return Err(ProtoError::TruncatedVarint);
        }
        let byte = data[*pos];
        let ghost p = *pos as int;
        proof {
            lemma_varint_value_push(data@.subrange(start as int, p), byte);
            assert(data@.subrange(start as int, p + 1) =~= data@.subrange(start as int, p).push(
                byte,
            ));
        }
        *pos += 1;
        value = value | (((byte & 0x7f) as u64) << shift);
        if byte & 0x80 == 0 {
            assert(byte < 0x80) by (bit_vector)
                requires
                    byte & 0x80 == 0,
            ;
            proof {
                assert(continuation_run(data@, p) == 0);
            }
            return Ok(value);
        }
        assert(byte >= 0x80) by (bit_vector)
            requires
                byte & 0x80 != 0,
        ;
        proof {
            assert(continuation_run(data@, p) == 1 + continuation_run(data@, p + 1));
        }
        shift += 7;
        proof {
            i = i + 1;
        }
        if shift >= 64 {
            proof {
                assert(continuation_run(data@, start as int) >= 10);
            }
            return Err(ProtoError::InvalidVarint);
        }
    }
}


/// Reading one field at `pos` (its key, then its value): the field number,
/// the value, and the position after it. A key holds the field number above
/// its low three bits and the wire type in them.
pub open spec fn spec_read_field(data: Seq<u8>, pos: int) -> Result<
    (u64, ProtoValueModel, int),
    ProtoError,
> {
    match spec_read_varint(data, pos) {
        Err(e) => Err(e),
        Ok((key, p)) => {
            let field = key >> 3u64;
            let wire = key & 7u64;
            if field == 0 {
                Err(ProtoError::FieldZero)
            } else if wire == 0 {
                match spec_read_varint(data, p) {
                    Err(e) => Err(e),
                    Ok((v, q)) => Ok((field, ProtoValueModel::Varint(v), q)),
                }
            } else if wire == 1 {
                if data.len() - p >= 8 {
                    Ok((field, ProtoValueModel::Fixed64(data.subrange(p, p + 8)), p + 8))
                } else {
                    Err(ProtoError::TruncatedFixed64)
                }
            } else if wire == 2 {
                match spec_read_varint(data, p) {
                    Err(e) => Err(e),
                    Ok((len, q)) => if len > usize::MAX {
                        Err(ProtoError::FieldTooLarge)
                    } else if len <= data.len() - q {
                        Ok((field, ProtoValueModel::Bytes(data.subrange(q, q + len)), q + len))
                    } else {
                        Err(ProtoError::TruncatedBytes)
                    },
                }
            } else if wire == 5 {
                if data.len() - p >= 4 {
                    Ok((field, ProtoValueModel::Fixed32(data.subrange(p, p + 4)), p + 4))
                } else {
                    Err(ProtoError::TruncatedFixed32)
                }
            } else {
                Err(ProtoError::UnsupportedWireType(wire))
            }
        },
    }
}

/// A varint that can be read ends after `pos` and within `data`.
pub proof fn lemma_read_varint_advances(data: Seq<u8>, pos: int)
    requires
        0 <= pos,
    ensures
        spec_read_varint(data, pos) matches Ok((_v, next)) ==> pos < next <= data.len(),
{
}

/// A field that can be read ends after `pos` and within `data`.
pub proof fn lemma_read_field_advances(data: Seq<u8>, pos: int)
    requires
        0 <= pos,
    ensures
        spec_read_field(data, pos) matches Ok((_f, _v, next)) ==> pos < next <= data.len(),
{
    lemma_read_varint_advances(data, pos);
    if let Ok((_key, p)) = spec_read_varint(data, pos) {
        lemma_read_varint_advances(data, p);
    }
}

/// Reading the fields from `pos` to the end of `data`, in order; the first
/// field that cannot be read gives the error.
pub open spec fn spec_fields_from(data: Seq<u8>, pos: int) -> Result<
    Seq<(u64, ProtoValueModel)>,
    ProtoError,
>
    decreases data.len() - pos,
{
    if pos < 0 || pos >= data.len() {
        Ok(seq![])
    } else {
        match spec_read_field(data, pos) {
            Err(e) => Err(e),
            Ok((field, value, next)) => {
                proof {
                    lemma_read_field_advances(data, pos);
                }
                match spec_fields_from(data, next) {
                    Err(e) => Err(e),
                    Ok(rest) => Ok(seq![(field, value)] + rest),
                }
            },
        }
    }
}

/// All fields of the message `data`.
pub open spec fn spec_fields(data: Seq<u8>) -> Result<Seq<(u64, ProtoValueModel)>, ProtoError> {
    spec_fields_from(data, 0)
}

/// The fields of `fs` with their values taken by view.
pub open spec fn fields_view(fs: Seq<(u64, ProtoValue)>) -> Seq<(u64, ProtoValueModel)> {
    fs.map_values(|e: (u64, ProtoValue)| (e.0, e.1@))
}

/// Read one field (its key, then its value) at `*pos`, advancing `*pos`
/// past it.
#[verifier::rlimit(40)]
pub fn read_field(data: &[u8], pos: &mut usize) -> (res: Result<(u64, ProtoValue), ProtoError>)
    ensures
        match spec_read_field(data@, *old(pos) as int) {
            Ok((field, value, next)) => res matches Ok(r) && r.0 == field && r.1@ == value
                && *final(pos) == next,
            Err(e) => res matches Err(r) && r == e,
        },
{
    let key = read_varint(data, pos)?;
    let field = key >> 3;
    let wire = key & 7;
    if field == 0 {
        return Err(ProtoError::FieldZero);
    }
    let value = if wire == 0 {
        ProtoValue::Varint(read_varint(data, pos)?)
    } else if wire == 1 {
        if data.len() - *pos < 8 {
            return Err(ProtoError::TruncatedFixed64);
        }
        let p = *pos;
        let bytes: [u8; 8] = [
            data[p],
            data[p + 1],
            data[p + 2],
            data[p + 3],
            data[p + 4],
            data[p + 5],
            data[p + 6],
            data[p + 7],
        ];
        proof {
            assert(bytes@ =~= data@.subrange(p as int, p + 8));
        }
        *pos = p + 8;
        ProtoValue::Fixed64(bytes)
    } else if wire == 2 {
        let len = read_varint(data, pos)?;
        if len > usize::MAX as u64 {
            return Err(ProtoError::FieldTooLarge);
        }
        let len = len as usize;
        if len > data.len() - *pos {
            return Err(ProtoError::TruncatedBytes);
        }
        let bytes = copy_range(data, *pos, *pos + len);
        *pos = *pos + len;
        ProtoValue::Bytes(bytes)
    } else if wire == 5 {
        if data.len() - *pos < 4 {
            return Err(ProtoError::TruncatedFixed32);
        }
        let p = *pos;
        let bytes: [u8; 4] = [data[p], data[p + 1], data[p + 2], data[p + 3]];
        proof {
            assert(bytes@ =~= data@.subrange(p as int, p + 4));
        }
        *pos = p + 4;
        ProtoValue::Fixed32(bytes)
    } else {
        return Err(ProtoError::UnsupportedWireType(wire));
    };
    Ok((field, value))
}

/// Read every field of the message `data`.
#[verifier::rlimit(40)]
pub fn fields(data: &[u8]) -> (res: Result<Vec<(u64, ProtoValue)>, ProtoError>)
    ensures
        match spec_fields(data@) {
            Ok(fs) => res matches Ok(v) && fields_view(v@) == fs,
            Err(e) => res matches Err(r) && r == e,
        },
{
    let mut out: Vec<(u64, ProtoValue)> = Vec::new();
    let mut pos: usize = 0;
    while pos < data.len()
        invariant
            pos <= data@.len(),
            spec_fields(data@) == match spec_fields_from(data@, pos as int) {
                Ok(rest) => Ok(fields_view(out@) + rest),
                Err(e) => Err::<Seq<(u64, ProtoValueModel)>, ProtoError>(e),
            },
        decreases data@.len() - pos,
    {
        let ghost start = pos as int;
        let ghost before = out@;
        let (field, value) = read_field(data, &mut pos)?;
        proof {
            lemma_read_field_advances(data@, start);
        }
        out.push((field, value));
        proof {
            assert(fields_view(out@) =~= fields_view(before).push((field, value@)));
            match spec_fields_from(data@, pos as int) {
                Ok(rest) => {
                    assert(fields_view(out@) + rest =~= fields_view(before) + (seq![(field, value@)]
                        + rest));
                },
                Err(_) => {},
            }
        }
    }
    proof {
        assert(fields_view(out@) + seq![] =~= fields_view(out@));
    }
    Ok(out)
}

/// A copy of `data[from..to]`.
pub fn copy_range(data: &[u8], from: usize, to: usize) -> (res: Vec<u8>)
    requires
        from <= to <= data@.len(),
    ensures
        res@ == data@.subrange(from as int, to as int),
{
    let mut out: Vec<u8> = Vec::with_capacity(to - from);
    let mut i = from;
    while i < to
        invariant
            from <= i <= to <= data@.len(),
            out@ == data@.subrange(from as int, i as int),
        decreases to - i,
    {
        out.push(data[i]);
        i += 1;
        proof {
            assert(out@ =~= data@.subrange(from as int, i as int));
        }
    }
    out
}

/// The value of the last field numbered `field` in `fs`: later fields of the
/// same number replace earlier ones.
pub open spec fn last_value(fs: Seq<(u64, ProtoValueModel)>, field: u64) -> Option<ProtoValueModel>
    decreases fs.len(),
{
    if fs.len() == 0 {
        None
    } else if fs.last().0 == field {
        Some(fs.last().1)
    } else {
        last_value(fs.drop_last(), field)
    }
}

/// What a field-number map holds for `field`, by view.
pub open spec fn map_entry(m: Map<u64, ProtoValue>, field: u64) -> Option<ProtoValueModel> {
    if m.contains_key(field) {
        Some(m[field]@)
    } else {
        None
    }
}

/// Read the message `data` into a map from field number to the last value
/// given for it.
#[verifier::rlimit(40)]
pub fn scalar_map(data: &[u8]) -> (res: Result<HashMap<u64, ProtoValue>, ProtoError>)
    ensures
        match spec_fields(data@) {
            Ok(fs) => res matches Ok(m) && forall|f: u64| #[trigger] map_entry(m@, f) == last_value(fs, f),
            Err(e) => res matches Err(r) && r == e,
        },
{
    let fs = fields(data)?;
    let ghost all = fs@;
    let mut map: HashMap<u64, ProtoValue> = HashMap::new();
    for entry in it: fs.into_iter()
        invariant
            it.seq() == all,
            forall|f: u64| #[trigger] map_entry(map@, f) == last_value(fields_view(all.take(it.index() as int)), f),
    {
        let ghost k = it.index() as int;
        let ghost old_map = map@;
        let ghost e = entry;
        proof {
            assert(e == all[k]);
            assert(fields_view(all.take(k + 1)).drop_last() =~= fields_view(all.take(k)));
            assert(fields_view(all.take(k + 1)).last() == (e.0, e.1@));
        }
        map.insert(entry.0, entry.1);
        proof {
            assert(map@ == old_map.insert(e.0, e.1));
            assert forall|f: u64| #[trigger] map_entry(map@, f) == last_value(
                fields_view(all.take(k + 1)),
                f,
            ) by {
                if f != e.0 {
                    assert(map_entry(map@, f) == map_entry(old_map, f));
                }
            }
        }
    }
    proof {
        assert(all.take(all.len() as int) =~= all);
    }
    Ok(map)
}

/// The varint held by `v`, or `default` where `v` is absent or of another
/// wire type.
pub open spec fn varint_or(v: Option<ProtoValueModel>, default: u64) -> u64 {
    match v {
        Some(ProtoValueModel::Varint(x)) => x,
        _ => default,
    }
}

/// The bytes held by `v`, or no bytes where `v` is absent or of another wire
/// type.
pub open spec fn bytes_or_empty(v: Option<ProtoValueModel>) -> Seq<u8> {
    match v {
        Some(ProtoValueModel::Bytes(b)) => b,
        _ => Seq::empty(),
    }
}

/// The little-endian `u32` of four bytes.
pub open spec fn le_u32(b: Seq<u8>) -> u32 {
    (b[0] + 256 * b[1] + 65536 * b[2] + 16777216 * b[3]) as u32
}

/// The bit pattern of the fixed32 value held by `v`, or 0 (the bits of
/// `0.0f32`) where `v` is absent or of another wire type.
pub open spec fn fixed32_bits_or_zero(v: Option<ProtoValueModel>) -> u32 {
    match v {
        Some(ProtoValueModel::Fixed32(b)) => le_u32(b),
        _ => 0,
    }
}

/// The varint that `map` holds for `field`, or `default`.
pub fn varint(map: &HashMap<u64, ProtoValue>, field: u64, default: u64) -> (res: u64)
    ensures
        res == varint_or(map_entry(map@, field), default),
{
    match map.get(&field) {
        Some(ProtoValue::Varint(value)) => *value,
        _ => default,
    }
}

/// A copy of the bytes that `map` holds for `field`, or no bytes.
pub fn bytes(map: &HashMap<u64, ProtoValue>, field: u64) -> (res: Vec<u8>)
    ensures
        res@ == bytes_or_empty(map_entry(map@, field)),
{
    match map.get(&field) {
        Some(ProtoValue::Bytes(value)) => copy_range(value.as_slice(), 0, value.len()),
        _ => Vec::new(),
    }
}

/// The bit pattern of the fixed32 value that `map` holds for `field`, or 0.
pub fn fixed32_bits(map: &HashMap<u64, ProtoValue>, field: u64) -> (res: u32)
    ensures
        res == fixed32_bits_or_zero(map_entry(map@, field)),
{
    match map.get(&field) {
        Some(ProtoValue::Fixed32(b)) => {
            proof {
                assert(b@.len() == 4);
            }
            b[0] as u32 + 256 * (b[1] as u32) + 65536 * (b[2] as u32) + 16777216 * (b[3] as u32)
        },
        _ => 0,
    }
}

/// Every length-delimited value in `fs` is at most `n` bytes long.
pub open spec fn bytes_within(fs: Seq<(u64, ProtoValueModel)>, n: nat) -> bool {
    forall|i: int|
        0 <= i < fs.len() ==> (#[trigger] fs[i].1 matches ProtoValueModel::Bytes(b) ==> b.len()
            <= n)
}

/// The length-delimited values of a message lie within the message.
pub proof fn lemma_fields_bytes_within(data: Seq<u8>, pos: int)
    ensures
        spec_fields_from(data, pos) matches Ok(fs) ==> bytes_within(fs, data.len()),
    decreases data.len() - pos,
{
    if 0 <= pos < data.len() {
        if let Ok((field, value, next)) = spec_read_field(data, pos) {
            lemma_read_field_advances(data, pos);
            lemma_fields_bytes_within(data, next);
            if let Ok(rest) = spec_fields_from(data, next) {
                let fs = seq![(field, value)] + rest;
                assert forall|i: int| 0 <= i < fs.len() implies (#[trigger] fs[i].1 matches ProtoValueModel::Bytes(b)
                    ==> b.len() <= data.len()) by {
                    if i > 0 {
                        assert(fs[i] == rest[i - 1]);
                    }
                }
            }
        }
    }
}

/// The last value of a field is one of the values of `fs`.
pub proof fn lemma_last_value_bytes_within(fs: Seq<(u64, ProtoValueModel)>, field: u64, n: nat)
    requires
        bytes_within(fs, n),
    ensures
        bytes_or_empty(last_value(fs, field)).len() <= n,
    decreases fs.len(),
{
    if fs.len() > 0 && fs.last().0 != field {
        let rest = fs.drop_last();
        assert forall|i: int| 0 <= i < rest.len() implies (#[trigger] rest[i].1 matches ProtoValueModel::Bytes(b)
            ==> b.len() <= n) by {
            assert(rest[i] == fs[i]);
        }
        lemma_last_value_bytes_within(rest, field, n);
    }
}

/// The standard base-128 encoding of `v`: seven bits per byte, least
/// significant group first, with the high bit set on every byte but the last.
pub open spec fn varint_encoding(v: u64) -> Seq<u8>
    decreases v,
{
    if v < 0x80 {
        seq![v as u8]
    } else {
        proof {
            assert(v >= 0x80 ==> v >> 7u64 < v) by (bit_vector);
        }
        seq![((v & 0x7f) | 0x80) as u8] + varint_encoding(v >> 7u64)
    }
}

proof fn lemma_varint_encoding_shape(v: u64, k: nat)
    requires
        1 <= k <= 10,
        k == 10 || (v >> ((7 * k) as u64)) == 0,
    ensures
        1 <= varint_encoding(v).len() <= k,
        varint_encoding(v).last() < 0x80,
        forall|j: int|
            0 <= j < varint_encoding(v).len() - 1 ==> #[trigger] varint_encoding(v)[j] >= 0x80,
        varint_value(varint_encoding(v)) == v,
    decreases v,
{
    let e = varint_encoding(v);
    if v < 0x80 {
        assert(e.drop_first() =~= Seq::<u8>::empty());
        assert(e[0] == v as u8);
        assert(varint_value(e) == ((e[0] & 0x7f) as u64) | (varint_value(e.drop_first()) << 7u64));
        assert(((v as u8) & 0x7f) as u64 | (0u64 << 7u64) == v) by (bit_vector)
            requires
                v < 0x80,
        ;
    } else {
        assert(v >= 0x80 ==> v >> 7u64 < v) by (bit_vector);
        let w = v >> 7u64;
        let b0 = #[verifier::truncate] (((v & 0x7f) | 0x80) as u8);
        if k == 10 {
            assert((v >> 7u64) >> 63u64 == 0) by (bit_vector);
            assert((7 * 9) as u64 == 63u64);
            lemma_varint_encoding_shape(w, 9);
        } else {
            assert(k >= 2) by {
                if k == 1 {
                    assert(v >> 7u64 == 0 ==> v < 0x80) by (bit_vector);
                }
            }
            let s = (7 * k) as u64;
            let s1 = (7 * (k - 1)) as u64;
            assert(s1 + 7 == s);
            assert((v >> s) == 0 && s1 + 7 == s && s < 64 ==> (v >> 7u64) >> s1 == 0)
                by (bit_vector);
            lemma_varint_encoding_shape(w, (k - 1) as nat);
        }
        let rest = varint_encoding(w);
        assert(e == seq![b0] + rest);
        assert(e.drop_first() =~= rest);
        assert(e.last() == rest.last());
        assert forall|j: int| 0 <= j < e.len() - 1 implies #[trigger] e[j] >= 0x80 by {
            if j == 0 {
                assert(((v & 0x7f) | 0x80) as u8 >= 0x80) by (bit_vector);
            } else {
                assert(e[j] == rest[j - 1]);
            }
        }
        assert(e[0] == b0);
        assert(varint_value(e) == ((e[0] & 0x7f) as u64) | (varint_value(rest) << 7u64));
        assert(varint_value(rest) == w);
        assert((((((v & 0x7f) | 0x80) as u8) & 0x7f) as u64) | ((v >> 7u64) << 7u64) == v)
            by (bit_vector);
    }
}

proof fn lemma_continuation_run_of(data: Seq<u8>, s: int, n: int, pos: int)
    requires
        0 <= s <= pos < n <= data.len(),
        data[n - 1] < 0x80,
        forall|j: int| s <= j < n - 1 ==> data[j] >= 0x80,
    ensures
        continuation_run(data, pos) == n - 1 - pos,
    decreases n - pos,
{
    if pos < n - 1 {
        lemma_continuation_run_of(data, s, n, pos + 1);
    }
}

/// Reading a varint at any position `p` where `data` holds the encoding of
/// `v` gives `v` and the position right after the encoding, whatever bytes
/// come before or after it.
pub proof fn lemma_read_varint_encoding_at(data: Seq<u8>, p: int, v: u64)
    requires
        0 <= p,
        p + varint_encoding(v).len() <= data.len(),
        data.subrange(p, p + varint_encoding(v).len()) == varint_encoding(v),
    ensures
        spec_read_varint(data, p) == Ok::<(u64, int), ProtoError>(
            (v, p + varint_encoding(v).len()),
        ),
{
    let e = varint_encoding(v);
    lemma_varint_encoding_shape(v, 10);
    let n = p + e.len();
    assert forall|j: int| p <= j < n - 1 implies data[j] >= 0x80 by {
        assert(data[j] == data.subrange(p, n)[j - p]);
        assert(e[j - p] >= 0x80);
    }
    assert(data[n - 1] == data.subrange(p, n)[e.len() - 1]);
    lemma_continuation_run_of(data, p, n, p);
}

/// Reading a varint inverts its standard encoding: `read_varint` on the
/// encoding of any `u64`, followed by any bytes, gives back the value and
/// stops right after the encoding.
pub proof fn lemma_read_varint_encoding(v: u64, rest: Seq<u8>)
    ensures
        spec_read_varint(varint_encoding(v) + rest, 0) == Ok::<(u64, int), ProtoError>(
            (v, varint_encoding(v).len() as int),
        ),
{
    let e = varint_encoding(v);
    assert((e + rest).subrange(0, e.len() as int) =~= e);
    lemma_read_varint_encoding_at(e + rest, 0, v);
}

/// Reading a varint inverts its encoding wherever it stands: after any
/// bytes `head` and before any bytes `tail`, the varint read at
/// `head.len()` is `v`, and reading stops right after its encoding.
pub proof fn lemma_read_varint_encoding_between(head: Seq<u8>, v: u64, tail: Seq<u8>)
    ensures
        spec_read_varint(head + varint_encoding(v) + tail, head.len() as int) == Ok::<
            (u64, int),
            ProtoError,
        >((v, (head.len() + varint_encoding(v).len()) as int)),
{
    let e = varint_encoding(v);
    let data = head + e + tail;
    assert(data.subrange(head.len() as int, (head.len() + e.len()) as int) =~= e);
    lemma_read_varint_encoding_at(data, head.len() as int, v);
}

/// The wire type that carries a value.
pub open spec fn wire_type(v: ProtoValueModel) -> u64 {
    match v {
        ProtoValueModel::Varint(_) => 0,
        ProtoValueModel::Fixed64(_) => 1,
        ProtoValueModel::Bytes(_) => 2,
        ProtoValueModel::Fixed32(_) => 5,
    }
}

/// A field that can be written: its number is at least 1 and leaves room for
/// the wire type in the key, fixed-width values have their width, and a
/// length-delimited value's length fits in a `usize`.
pub open spec fn encodable_field(f: (u64, ProtoValueModel)) -> bool {
    &&& 1 <= f.0 < 0x2000_0000_0000_0000
    &&& match f.1 {
        ProtoValueModel::Varint(_) => true,
        ProtoValueModel::Fixed64(b) => b.len() == 8,
        ProtoValueModel::Bytes(b) => b.len() <= usize::MAX,
        ProtoValueModel::Fixed32(b) => b.len() == 4,
    }
}

/// The encoding of one field: the key (field number and wire type) as a
/// varint, then the value; a length-delimited value is preceded by its
/// length as a varint.
pub open spec fn field_encoding(f: (u64, ProtoValueModel)) -> Seq<u8> {
    let key = ((f.0 << 3u64) | wire_type(f.1)) as u64;
    varint_encoding(key) + match f.1 {
        ProtoValueModel::Varint(x) => varint_encoding(x),
        ProtoValueModel::Fixed64(b) => b,
        ProtoValueModel::Bytes(b) => varint_encoding(b.len() as u64) + b,
        ProtoValueModel::Fixed32(b) => b,
    }
}

/// The encodings of `fs`, concatenated in order.
pub open spec fn fields_encoding(fs: Seq<(u64, ProtoValueModel)>) -> Seq<u8>
    decreases fs.len(),
{
    if fs.len() == 0 {
        seq![]
    } else {
        field_encoding(fs[0]) + fields_encoding(fs.drop_first())
    }
}

proof fn lemma_read_field_encoding_at(data: Seq<u8>, p: int, f: (u64, ProtoValueModel))
    requires
        encodable_field(f),
        0 <= p,
        p + field_encoding(f).len() <= data.len(),
        data.subrange(p, p + field_encoding(f).len()) == field_encoding(f),
    ensures
        spec_read_field(data, p) == Ok::<(u64, ProtoValueModel, int), ProtoError>(
            (f.0, f.1, p + field_encoding(f).len()),
        ),
{
    let w = wire_type(f.1);
    let fnum = f.0;
    let key = ((fnum << 3u64) | w) as u64;
    assert(w <= 7);
    assert(1 <= fnum < 0x2000_0000_0000_0000 && w <= 7 ==> ((fnum << 3u64) | w) >> 3u64 == fnum
        && ((fnum << 3u64) | w) & 7u64 == w) by (bit_vector);
    let ke = varint_encoding(key);
    let e = field_encoding(f);
    let q = p + ke.len();
    assert(data.subrange(p, q) =~= e.subrange(0, ke.len() as int));
    assert(e.subrange(0, ke.len() as int) =~= ke);
    lemma_read_varint_encoding_at(data, p, key);
    let payload = e.subrange(ke.len() as int, e.len() as int);
    assert(data.subrange(q, p + e.len()) =~= payload);
    match f.1 {
        ProtoValueModel::Varint(x) => {
            assert(payload =~= varint_encoding(x));
            lemma_read_varint_encoding_at(data, q, x);
        },
        ProtoValueModel::Fixed64(b) => {
            assert(payload =~= b);
        },
        ProtoValueModel::Bytes(b) => {
            let le = varint_encoding(b.len() as u64);
            assert(payload =~= le + b);
            assert(data.subrange(q, q + le.len()) =~= le);
            lemma_read_varint_encoding_at(data, q, b.len() as u64);
            let r = q + le.len();
            assert(p + e.len() == r + b.len());
            assert forall|j: int| 0 <= j < b.len() implies data.subrange(r, r + b.len())[j] == b[j] by {
                assert(data.subrange(q, p + e.len())[le.len() + j] == data[r + j]);
                assert((le + b)[le.len() + j] == b[j]);
            }
            assert(data.subrange(r, r + b.len()) =~= b);
        },
        ProtoValueModel::Fixed32(b) => {
            assert(payload =~= b);
        },
    }
}

proof fn lemma_fields_encoding_at(data: Seq<u8>, p: int, fs: Seq<(u64, ProtoValueModel)>)
    requires
        forall|i: int| 0 <= i < fs.len() ==> encodable_field(#[trigger] fs[i]),
        0 <= p <= data.len(),
        data.subrange(p, data.len() as int) == fields_encoding(fs),
    ensures
        spec_fields_from(data, p) == Ok::<Seq<(u64, ProtoValueModel)>, ProtoError>(fs),
    decreases fs.len(),
{
    if fs.len() == 0 {
        assert(data.subrange(p, data.len() as int).len() == 0);
        assert(fs =~= seq![]);
    } else {
        let f0 = fs[0];
        let rest = fs.drop_first();
        let e0 = field_encoding(f0);
        assert(encodable_field(f0));
        lemma_varint_encoding_shape(((f0.0 << 3u64) | wire_type(f0.1)) as u64, 10);
        assert(e0.len() >= 1);
        let enc = fields_encoding(fs);
        assert(enc == e0 + fields_encoding(rest));
        let q = p + e0.len();
        assert(data.subrange(p, q) =~= enc.subrange(0, e0.len() as int));
        assert(enc.subrange(0, e0.len() as int) =~= e0);
        lemma_read_field_encoding_at(data, p, f0);
        assert(data.subrange(q, data.len() as int) =~= enc.subrange(e0.len() as int, enc.len() as int));
        assert(enc.subrange(e0.len() as int, enc.len() as int) =~= fields_encoding(rest));
        assert forall|i: int| 0 <= i < rest.len() implies encodable_field(#[trigger] rest[i]) by {
            assert(rest[i] == fs[i + 1]);
        }
        lemma_fields_encoding_at(data, q, rest);
        assert(seq![f0] + rest =~= fs);
    }
}

/// Reading fields inverts writing them: the concatenated encodings of any
/// sequence of encodable fields read back as exactly those fields, in order
/// (no bytes read back as no fields).
pub proof fn lemma_fields_read_back(fs: Seq<(u64, ProtoValueModel)>)
    requires
        forall|i: int| 0 <= i < fs.len() ==> encodable_field(#[trigger] fs[i]),
    ensures
        spec_fields(fields_encoding(fs)) == Ok::<Seq<(u64, ProtoValueModel)>, ProtoError>(fs),
{
    let data = fields_encoding(fs);
    assert(data.subrange(0, data.len() as int) =~= data);
    lemma_fields_encoding_at(data, 0, fs);
}

} // verus!
