//! A minimal protobuf wire-format reader, enough for the Apple Notes note blobs.
use vstd::prelude::*;
use vstd::slice::slice_subrange;
use vstd::slice::slice_to_vec;
use vstd::utf8::decode_utf8;
use vstd::utf8::valid_utf8;

use crate::text::string_from_utf8;

verus! {

/// The most fields a single message yields.
pub const MAX_FIELDS: usize = 100000;

/// A parsed protobuf field.
#[derive(Debug, Clone)]
pub struct ProtoField {
    pub field_number: u32,
    pub wire_type: u8,
    /// Raw bytes of the value. For varints, the encoded bytes; for length-delimited fields,
    /// the payload (without the length prefix).
    pub data: Vec<u8>,
}

/// A field as a mathematical value.
pub struct FieldView {
    pub field_number: u32,
    pub wire_type: u8,
    pub data: Seq<u8>,
}

impl View for ProtoField {
    type V = FieldView;

    open spec fn view(&self) -> FieldView {
        FieldView { field_number: self.field_number, wire_type: self.wire_type, data: self.data@ }
    }
}

/// The views of a sequence of fields.
pub open spec fn views(fields: Seq<ProtoField>) -> Seq<FieldView> {
    fields.map_values(|f: ProtoField| f@)
}

// ---------------------------------------------------------------------------
// Varints
// ---------------------------------------------------------------------------

/// Where the varint that starts at byte 0 ends, scanning from byte `i`: one past the first byte
/// without the continuation bit, provided it is among the first ten bytes.
pub open spec fn varint_end(data: Seq<u8>, i: int) -> Option<int>
    decreases 10 - i,
{
    if i < 0 || i >= 10 || i >= data.len() {
        None
    } else if data[i] & 0x80u8 == 0 {
        Some(i + 1)
    } else {
        varint_end(data, i + 1)
    }
}

/// The value of the first `n` bytes of a varint: their low seven bits, least significant group
/// first, truncated to 64 bits.
pub open spec fn varint_value(data: Seq<u8>, n: int) -> u64
    decreases n,
{
    if n <= 0 {
        0
    } else {
        varint_value(data, n - 1) | (((data[n - 1] & 0x7fu8) as u64) << ((7 * (n - 1)) as u64))
    }
}

/// The varint at the start of `data` and the number of bytes it takes.
pub open spec fn varint_spec(data: Seq<u8>) -> Option<(u64, usize)> {
    match varint_end(data, 0) {
        Some(n) => Some((varint_value(data, n), n as usize)),
        None => None,
    }
}

pub proof fn lemma_varint_end(data: Seq<u8>, i: int)
    requires
        0 <= i,
    ensures
        varint_end(data, i) matches Some(n) ==> i < n <= data.len() && n <= 10,
    decreases 10 - i,
{
    if i < 10 && i < data.len() && data[i] & 0x80u8 != 0 {
        lemma_varint_end(data, i + 1);
    }
}

/// Read a varint, returning (value, bytes consumed).
pub fn read_varint(data: &[u8]) -> (r: Option<(u64, usize)>)
    ensures
        r == varint_spec(data@),
        r matches Some((v, n)) ==> 1 <= n <= data@.len() && n <= 10,
{
    proof {
        lemma_varint_end(data@, 0);
    }
    let mut result: u64 = 0;
    let mut shift: u64 = 0;
    let mut i: usize = 0;
    while i < data.len()
        invariant
            i < 10,
            shift == 7 * i,
            result == varint_value(data@, i as int),
            varint_end(data@, 0) == varint_end(data@, i as int),
        decreases data@.len() - i,
    {
        let byte = data[i];
        result = result | (((byte & 0x7f) as u64) << shift);
        if byte & 0x80 == 0 {
            return Some((result, i + 1));
        }
        shift = shift + 7;
        i = i + 1;
        if shift >= 64 {
            return None;
        }
    }
    None
}

// ---------------------------------------------------------------------------
// Messages
// ---------------------------------------------------------------------------

/// The fields of `data` from byte `offset` on, reading at most `fuel` more fields. Reading stops
/// at the end of the data, at an unreadable tag or value, at field number 0, at a value that
/// runs past the end, and at a wire type other than 0, 1, 2 and 5.
pub open spec fn parse_from(data: Seq<u8>, offset: int, fuel: nat) -> Seq<FieldView>
    decreases fuel,
{
    if fuel == 0 || offset < 0 || offset >= data.len() {
        Seq::empty()
    } else {
        match varint_spec(data.skip(offset)) {
            None => Seq::empty(),
            Some((tag, tag_len)) => {
                let off = offset + tag_len;
                let num = (tag >> 3u64) as u32;
                let wt = (tag & 7u64) as u8;
                if num == 0 {
                    Seq::empty()
                } else if wt == 0 {
                    match varint_spec(data.skip(off)) {
                        None => Seq::empty(),
                        Some((v, vl)) => seq![
                            FieldView { field_number: num, wire_type: wt, data: data.subrange(off, off + vl) },
                        ] + parse_from(data, off + vl, (fuel - 1) as nat),
                    }
                } else if wt == 1 {
                    if off + 8 > data.len() {
                        Seq::empty()
                    } else {
                        seq![
                            FieldView { field_number: num, wire_type: wt, data: data.subrange(off, off + 8) },
                        ] + parse_from(data, off + 8, (fuel - 1) as nat)
                    }
                } else if wt == 2 {
                    match varint_spec(data.skip(off)) {
                        None => Seq::empty(),
                        Some((len, ll)) => {
                            let start = off + ll;
                            let n = len as usize;
                            if start + n > data.len() {
                                Seq::empty()
                            } else {
                                seq![
                                    FieldView { field_number: num, wire_type: wt, data: data.subrange(start, start + n) },
                                ] + parse_from(data, start + n, (fuel - 1) as nat)
                            }
                        },
                    }
                } else if wt == 5 {
                    if off + 4 > data.len() {
                        Seq::empty()
                    } else {
                        seq![
                            FieldView { field_number: num, wire_type: wt, data: data.subrange(off, off + 4) },
                        ] + parse_from(data, off + 4, (fuel - 1) as nat)
                    }
                } else {
                    Seq::empty()
                }
            },
        }
    }
}

/// All the fields of a message, in order.
pub open spec fn parse_message(data: Seq<u8>) -> Seq<FieldView> {
    parse_from(data, 0, MAX_FIELDS as nat)
}

fn push_field(fields: &mut Vec<ProtoField>, field_number: u32, wire_type: u8, data: Vec<u8>)
    ensures
        views(final(fields)@) == views(old(fields)@).push(
            FieldView { field_number, wire_type, data: data@ },
        ),
{
    fields.push(ProtoField { field_number, wire_type, data });
    proof {
        assert(views(final(fields)@) =~= views(old(fields)@).push(
            FieldView { field_number, wire_type, data: data@ },
        ));
    }
}

/// Parse all protobuf fields from a message.
#[verifier::rlimit(50)]
pub fn parse_proto_fields(data: &[u8]) -> (fields: Vec<ProtoField>)
    ensures
        views(fields@) == parse_message(data@),
{
    let mut fields: Vec<ProtoField> = Vec::new();
    let mut offset: usize = 0;
    let mut iterations: usize = 0;
    proof {
        assert(views(fields@) + parse_message(data@) =~= parse_message(data@));
    }
    while offset < data.len() && iterations < MAX_FIELDS
        invariant
            offset <= data@.len(),
            iterations <= MAX_FIELDS,
            views(fields@) + parse_from(data@, offset as int, (MAX_FIELDS - iterations) as nat)
                == parse_message(data@),
        decreases MAX_FIELDS - iterations,
    {
        let ghost fuel = (MAX_FIELDS - iterations) as nat;
        let ghost before = views(fields@);
        iterations = iterations + 1;
        let rest = slice_subrange(data, offset, data.len());
        proof {
            assert(rest@ =~= data@.skip(offset as int));
        }
        let (tag, tag_len) = match read_varint(rest) {
            Some(p) => p,
            None => {
                proof {
                    assert(views(fields@) =~= parse_message(data@));
                }
                return fields;
            },
        };
        offset = offset + tag_len;
        let field_number = (tag >> 3) as u32;
        let wire_type = (tag & 7) as u8;
        if field_number == 0 {
            proof {
                assert(views(fields@) =~= parse_message(data@));
            }
            return fields;
        }
        if wire_type == 0 {
            let rest2 = slice_subrange(data, offset, data.len());
            proof {
                assert(rest2@ =~= data@.skip(offset as int));
            }
            let (val, val_len) = match read_varint(rest2) {
                Some(p) => p,
                None => {
                    proof {
                        assert(views(fields@) =~= parse_message(data@));
                    }
                    return fields;
                },
            };
            let encoded = slice_to_vec(slice_subrange(data, offset, offset + val_len));
            proof {
                assert(encoded@ =~= data@.subrange(offset as int, offset + val_len));
            }
            push_field(&mut fields, field_number, wire_type, encoded);
            offset = offset + val_len;
            proof {
                assert(before + parse_from(data@, (offset - tag_len - val_len) as int, fuel)
                    == parse_message(data@));
                assert(views(fields@) + parse_from(data@, offset as int, (fuel - 1) as nat)
                    =~= before + parse_from(data@, (offset - tag_len - val_len) as int, fuel));
            }
        } else if wire_type == 1 {
            if offset > data.len() || 8 > data.len() - offset {
                proof {
                    assert(views(fields@) =~= parse_message(data@));
                }
                return fields;
            }
            let v = slice_to_vec(slice_subrange(data, offset, offset + 8));
            push_field(&mut fields, field_number, wire_type, v);
            offset = offset + 8;
            proof {
                assert(views(fields@) + parse_from(data@, offset as int, (fuel - 1) as nat)
                    =~= before + parse_from(data@, (offset - tag_len - 8) as int, fuel));
            }
        } else if wire_type == 2 {
            let rest2 = slice_subrange(data, offset, data.len());
            proof {
                assert(rest2@ =~= data@.skip(offset as int));
            }
            let (length, len_len) = match read_varint(rest2) {
                Some(p) => p,
                None => {
                    proof {
                        assert(views(fields@) =~= parse_message(data@));
                    }
                    return fields;
                },
            };
            let start = offset + len_len;
            let length = length as usize;
            if length > data.len() - start {
                proof {
                    assert(views(fields@) =~= parse_message(data@));
                }
                return fields;
            }
            let v = slice_to_vec(slice_subrange(data, start, start + length));
            push_field(&mut fields, field_number, wire_type, v);
            offset = start + length;
            proof {
                assert(views(fields@) + parse_from(data@, offset as int, (fuel - 1) as nat)
                    =~= before + parse_from(data@, (start - tag_len - len_len) as int, fuel));
            }
        } else if wire_type == 5 {
            if offset > data.len() || 4 > data.len() - offset {
                proof {
                    assert(views(fields@) =~= parse_message(data@));
                }
                return fields;
            }
            let v = slice_to_vec(slice_subrange(data, offset, offset + 4));
            push_field(&mut fields, field_number, wire_type, v);
            offset = offset + 4;
            proof {
                assert(views(fields@) + parse_from(data@, offset as int, (fuel - 1) as nat)
                    =~= before + parse_from(data@, (offset - tag_len - 4) as int, fuel));
            }
        } else {
            proof {
                assert(views(fields@) =~= parse_message(data@));
            }
            return fields;
        }
    }
    proof {
        assert(views(fields@) =~= parse_message(data@));
    }
    fields
}

// ---------------------------------------------------------------------------
// Field lookup
// ---------------------------------------------------------------------------

/// The index of the first field at or after `i` with the given number and wire type.
pub open spec fn find_field(fields: Seq<FieldView>, num: u32, wt: u8, i: int) -> Option<int>
    decreases fields.len() - i,
{
    if i < 0 || i >= fields.len() {
        None
    } else if fields[i].field_number == num && fields[i].wire_type == wt {
        Some(i)
    } else {
        find_field(fields, num, wt, i + 1)
    }
}

pub proof fn lemma_find_field(fields: Seq<FieldView>, num: u32, wt: u8, i: int)
    requires
        0 <= i,
    ensures
        find_field(fields, num, wt, i) matches Some(k) ==> i <= k < fields.len()
            && fields[k].field_number == num && fields[k].wire_type == wt,
    decreases fields.len() - i,
{
    if i < fields.len() && !(fields[i].field_number == num && fields[i].wire_type == wt) {
        lemma_find_field(fields, num, wt, i + 1);
    }
}

/// The payload of the first length-delimited field with number `num`.
pub open spec fn get_bytes(fields: Seq<FieldView>, num: u32) -> Option<Seq<u8>> {
    match find_field(fields, num, 2, 0) {
        Some(i) => Some(fields[i].data),
        None => None,
    }
}

/// The payloads of all length-delimited fields with number `num`, in order.
pub open spec fn get_all_bytes(fields: Seq<FieldView>, num: u32) -> Seq<Seq<u8>>
    decreases fields.len(),
{
    if fields.len() == 0 {
        Seq::empty()
    } else {
        let prefix = get_all_bytes(fields.drop_last(), num);
        let f = fields.last();
        if f.field_number == num && f.wire_type == 2 {
            prefix.push(f.data)
        } else {
            prefix
        }
    }
}

/// The value of the first varint field with number `num`, decoded from its encoded bytes
/// (absent when there is no such field or its bytes do not hold a varint).
pub open spec fn get_varint(fields: Seq<FieldView>, num: u32) -> Option<u64> {
    match find_field(fields, num, 0, 0) {
        Some(i) => match varint_spec(fields[i].data) {
            Some((v, _)) => Some(v),
            None => None,
        },
        None => None,
    }
}

/// The first length-delimited field with number `num`, decoded as UTF-8 (absent when it is not
/// valid UTF-8).
pub open spec fn get_string(fields: Seq<FieldView>, num: u32) -> Option<Seq<char>> {
    match get_bytes(fields, num) {
        Some(b) => if valid_utf8(b) {
            Some(decode_utf8(b))
        } else {
            None
        },
        None => None,
    }
}

fn find_index(fields: &[ProtoField], num: u32, wt: u8) -> (r: Option<usize>)
    ensures
        r matches Some(i) ==> find_field(views(fields@), num, wt, 0) == Some(i as int),
        r is None ==> find_field(views(fields@), num, wt, 0) is None,
        r matches Some(i) ==> i < fields@.len() && views(fields@)[i as int] == fields@[i as int]@,
{
    let ghost v = views(fields@);
    proof {
        lemma_find_field(v, num, wt, 0);
    }
    let mut i: usize = 0;
    while i < fields.len()
        invariant
            i <= fields@.len(),
            v == views(fields@),
            find_field(v, num, wt, 0) == find_field(v, num, wt, i as int),
        decreases fields@.len() - i,
    {
        if fields[i].field_number == num && fields[i].wire_type == wt {
            return Some(i);
        }
        i = i + 1;
    }
    None
}

/// Get first length-delimited field with the given number (as bytes).
pub fn proto_get_bytes(fields: &[ProtoField], num: u32) -> (r: Option<&[u8]>)
    ensures
        r matches Some(b) ==> get_bytes(views(fields@), num) == Some(b@),
        r is None ==> get_bytes(views(fields@), num) is None,
{
    match find_index(fields, num, 2) {
        Some(i) => {
            let d = fields[i].data.as_slice();
            proof {
                assert(d@ == fields@[i as int].data@);
                assert(get_bytes(views(fields@), num) == Some(views(fields@)[i as int].data));
            }
            Some(d)
        },
        None => None,
    }
}

/// Get all length-delimited fields with the given number.
pub fn proto_get_all_bytes(fields: &[ProtoField], num: u32) -> (r: Vec<&[u8]>)
    ensures
        r@.len() == get_all_bytes(views(fields@), num).len(),
        forall|k: int| 0 <= k < r@.len() ==> (#[trigger] r@[k])@ == get_all_bytes(views(fields@), num)[k],
{
    let ghost v = views(fields@);
    let mut out: Vec<&[u8]> = Vec::new();
    let mut i: usize = 0;
    while i < fields.len()
        invariant
            i <= fields@.len(),
            v == views(fields@),
            out@.len() == get_all_bytes(v.take(i as int), num).len(),
            forall|k: int| 0 <= k < out@.len() ==> (#[trigger] out@[k])@ == get_all_bytes(v.take(i as int), num)[k],
        decreases fields@.len() - i,
    {
        proof {
            assert(v.take(i + 1).drop_last() =~= v.take(i as int));
        }
        if fields[i].field_number == num && fields[i].wire_type == 2 {
            out.push(fields[i].data.as_slice());
        }
        i = i + 1;
    }
    proof {
        assert(v.take(i as int) =~= v);
    }
    out
}

/// Get first varint field with the given number, decoded.
pub fn proto_get_varint(fields: &[ProtoField], num: u32) -> (r: Option<u64>)
    ensures
        r == get_varint(views(fields@), num),
{
    match find_index(fields, num, 0) {
        Some(i) => {
            let d = fields[i].data.as_slice();
            proof {
                assert(d@ == views(fields@)[i as int].data);
            }
            match read_varint(d) {
                Some((v, _)) => Some(v),
                None => None,
            }
        },
        None => None,
    }
}

/// Get first string (length-delimited, interpreted as UTF-8) field.
pub fn proto_get_string(fields: &[ProtoField], num: u32) -> (r: Option<String>)
    ensures
        r matches Some(s) ==> get_string(views(fields@), num) == Some(s@),
        r is None ==> get_string(views(fields@), num) is None,
{
    match proto_get_bytes(fields, num) {
        Some(b) => string_from_utf8(b),
        None => None,
    }
}

/// The first of all the payloads with a field number is the one `proto_get_bytes` gives, and
/// there is none exactly when it gives none.
pub proof fn law_first_of_all_bytes(fields: Seq<FieldView>, num: u32)
    ensures
        get_all_bytes(fields, num).len() == 0 <==> get_bytes(fields, num) is None,
        get_all_bytes(fields, num).len() > 0 ==> get_bytes(fields, num) == Some(get_all_bytes(fields, num)[0]),
{
    lemma_first_field(fields, num);
}

proof fn lemma_first_field(fields: Seq<FieldView>, num: u32)
    ensures
        get_all_bytes(fields, num).len() == 0 <==> find_field(fields, num, 2, 0) is None,
        find_field(fields, num, 2, 0) matches Some(i) ==> get_all_bytes(fields, num).len() > 0
            && get_all_bytes(fields, num)[0] == fields[i].data,
    decreases fields.len(),
{
    lemma_find_field(fields, num, 2, 0);
    if fields.len() > 0 {
        let d = fields.drop_last();
        lemma_first_field(d, num);
        lemma_find_field(d, num, 2, 0);
        lemma_find_prefix(fields, num, 0);
    }
}

/// Looking in all the fields finds what looking in all but the last finds, if anything; else
/// the last field when it matches.
proof fn lemma_find_prefix(fields: Seq<FieldView>, num: u32, i: int)
    requires
        fields.len() > 0,
        0 <= i <= fields.len() - 1,
    ensures
        find_field(fields.drop_last(), num, 2, i) matches Some(k) ==> find_field(fields, num, 2, i) == Some(k),
        find_field(fields.drop_last(), num, 2, i) is None ==> find_field(fields, num, 2, i) == (if fields.last().field_number == num
            && fields.last().wire_type == 2 {
            Some(fields.len() - 1)
        } else {
            None::<int>
        }),
    decreases fields.len() - i,
{
    let d = fields.drop_last();
    if i < d.len() {
        assert(d[i] == fields[i]);
        if !(fields[i].field_number == num && fields[i].wire_type == 2) {
            lemma_find_prefix(fields, num, i + 1);
        }
    } else {
        assert(fields[i] == fields.last());
        assert(find_field(fields, num, 2, i + 1) is None);
    }
}

// ---------------------------------------------------------------------------
// Encoding round trip
// ---------------------------------------------------------------------------

/// The varint encoding of `v`: seven bits at a time, least significant group first, every byte
/// but the last with its continuation bit set.
pub open spec fn varint_encoding(v: u64) -> Seq<u8>
    decreases v,
{
    if v < 128 {
        seq![v as u8]
    } else {
        proof {
            assert(v >= 128 ==> (v >> 7u64) < v) by (bit_vector);
        }
        seq![((v & 0x7f) | 0x80) as u8] + varint_encoding(v >> 7u64)
    }
}

proof fn lemma_encoding_len(v: u64, k: u64)
    requires
        1 <= k <= 10,
        k == 10 || v < (1u64 << ((7 * k) as u64)),
    ensures
        1 <= varint_encoding(v).len() <= k,
    decreases k,
{
    if v >= 128 {
        if k == 1 {
            assert(v < (1u64 << 7u64) ==> v < 128) by (bit_vector);
        } else if k == 10 {
            assert((v >> 7u64) < (1u64 << 63u64)) by (bit_vector);
            lemma_encoding_len(v >> 7u64, 9);
        } else {
            let sh: u64 = (7 * k) as u64;
            assert(14 <= sh <= 63);
            assert((14 <= sh <= 63 && v < (1u64 << sh)) ==> (v >> 7u64) < (1u64 << ((sh - 7) as u64))) by (bit_vector);
            lemma_encoding_len(v >> 7u64, (k - 1) as u64);
        }
    }
}

proof fn lemma_encoding_bytes(v: u64)
    ensures
        forall|j: int| 0 <= j < varint_encoding(v).len() - 1 ==> #[trigger] varint_encoding(v)[j] & 0x80u8 != 0,
        varint_encoding(v)[varint_encoding(v).len() - 1] & 0x80u8 == 0,
        varint_encoding(v)[0] & 0x7fu8 == (v & 0x7f) as u8,
        varint_encoding(v).len() >= 1,
    decreases v,
{
    if v < 128 {
        let b = v as u8;
        assert(v < 128 ==> (v as u8) & 0x80u8 == 0) by (bit_vector);
        assert(v < 128 ==> (v as u8) & 0x7fu8 == (v & 0x7f) as u8) by (bit_vector);
    } else {
        assert(v >= 128 ==> (v >> 7u64) < v) by (bit_vector);
        lemma_encoding_bytes(v >> 7u64);
        let b = ((v & 0x7f) | 0x80) as u8;
        let t = varint_encoding(v >> 7u64);
        let e = seq![b] + t;
        assert(b & 0x80u8 != 0) by (bit_vector)
            requires b == ((v & 0x7f) | 0x80) as u8;
        assert(b & 0x7fu8 == (v & 0x7f) as u8) by (bit_vector)
            requires b == ((v & 0x7f) | 0x80) as u8;
        assert forall|j: int| 0 <= j < e.len() - 1 implies #[trigger] e[j] & 0x80u8 != 0 by {
            if j > 0 {
                assert(e[j] == t[j - 1]);
            }
        }
        assert(e[e.len() - 1] == t[t.len() - 1]);
    }
}

/// Where a varint ends, when its bytes are known.
proof fn lemma_end_at(data: Seq<u8>, len: int, i: int)
    requires
        1 <= len <= 10,
        len <= data.len(),
        0 <= i < len,
        forall|j: int| 0 <= j < len - 1 ==> #[trigger] data[j] & 0x80u8 != 0,
        data[len - 1] & 0x80u8 == 0,
    ensures
        varint_end(data, i) == Some(len),
    decreases len - i,
{
    if i < len - 1 {
        lemma_end_at(data, len, i + 1);
    }
}

/// The value of the first `n + 1` bytes: the first byte's group, then the value of the others
/// shifted by seven bits.
proof fn lemma_value_split(b: u8, t: Seq<u8>, n: int)
    requires
        0 <= n <= 9,
        n <= t.len(),
    ensures
        varint_value(seq![b] + t, n + 1) == ((b & 0x7fu8) as u64) | (varint_value(t, n) << 7u64),
    decreases n,
{
    let d = seq![b] + t;
    assert(d[0] == b);
    if n == 0 {
        assert(varint_value(d, 0) == 0);
        let c = (b & 0x7fu8) as u64;
        assert(0u64 | (c << 0u64) == c | (0u64 << 7u64)) by (bit_vector);
    } else {
        lemma_value_split(b, t, n - 1);
        assert(d[n] == t[n - 1]);
        let a = varint_value(t, n - 1);
        let c0 = (b & 0x7fu8) as u64;
        let c = (t[n - 1] & 0x7fu8) as u64;
        let s: u64 = (7 * (n - 1)) as u64;
        assert(s <= 56);
        assert(s <= 56 ==> (c0 | (a << 7u64)) | (c << ((s + 7) as u64)) == c0 | ((a | (c << s)) << 7u64)) by (bit_vector);
        assert(varint_value(d, n + 1) == varint_value(d, n) | (c << ((7 * n) as u64)));
        assert(varint_value(t, n) == a | (c << s));
    }
}

/// A varint encoding, followed by anything, reads back as the value, taking all its bytes.
pub proof fn lemma_varint_decodes(v: u64, rest: Seq<u8>)
    ensures
        varint_spec(varint_encoding(v) + rest) == Some((v, varint_encoding(v).len() as usize)),
        varint_encoding(v).len() <= 10,
    decreases v,
{
    let e = varint_encoding(v);
    let d = e + rest;
    lemma_encoding_len(v, 10);
    lemma_encoding_bytes(v);
    assert forall|j: int| 0 <= j < e.len() - 1 implies #[trigger] d[j] & 0x80u8 != 0 by {
        assert(d[j] == e[j]);
    }
    assert(d[e.len() - 1] == e[e.len() - 1]);
    lemma_end_at(d, e.len() as int, 0);
    if v < 128 {
        assert(d[0] == v as u8);
        assert(v < 128 ==> 0u64 | ((((v as u8) & 0x7fu8) as u64) << 0u64) == v) by (bit_vector);
        assert(varint_value(d, 1) == varint_value(d, 0) | (((d[0] & 0x7fu8) as u64) << 0u64));
    } else {
        assert(v >= 128 ==> (v >> 7u64) < v) by (bit_vector);
        let t = varint_encoding(v >> 7u64);
        lemma_varint_decodes(v >> 7u64, rest);
        let b = ((v & 0x7f) | 0x80) as u8;
        assert(e == seq![b] + t);
        assert(d =~= seq![b] + (t + rest));
        lemma_varint_end(t + rest, 0);
        lemma_value_split(b, t + rest, t.len() as int);
        assert(b & 0x7fu8 == (v & 0x7f) as u8) by (bit_vector)
            requires b == ((v & 0x7f) | 0x80) as u8;
        assert(((v & 0x7f) as u8) as u64 | ((v >> 7u64) << 7u64) == v) by (bit_vector);
    }
}

/// A number written as a varint field (its tag, then its encoding) parses back as that one
/// field, holding the encoded bytes, and `proto_get_varint` reads the number back.
pub proof fn law_varint_round_trip(num: u32, v: u64)
    requires
        1 <= num < 0x2000_0000,
    ensures
        parse_message(varint_encoding((num as u64) << 3u64) + varint_encoding(v)) == seq![
            FieldView { field_number: num, wire_type: 0, data: varint_encoding(v) },
        ],
        get_varint(parse_message(varint_encoding((num as u64) << 3u64) + varint_encoding(v)), num) == Some(v),
{
    let tag = (num as u64) << 3u64;
    let et = varint_encoding(tag);
    let ev = varint_encoding(v);
    let data = et + ev;
    lemma_varint_decodes(tag, ev);
    lemma_varint_decodes(v, Seq::empty());
    assert(ev + Seq::<u8>::empty() =~= ev);
    assert(data.skip(0) =~= data);
    let n = num as u64;
    assert(1 <= n < 0x2000_0000 ==> ((n << 3u64) >> 3u64) as u32 == n as u32 && ((n << 3u64) & 7u64) as u8 == 0u8) by (bit_vector);
    let off = et.len() as int;
    assert(data.skip(off) =~= ev);
    assert(data.subrange(off, off + ev.len()) =~= ev);
    let f = FieldView { field_number: num, wire_type: 0, data: ev };
    assert(parse_from(data, off + ev.len(), (MAX_FIELDS - 1) as nat) == Seq::<FieldView>::empty());
    assert(parse_message(data) =~= seq![f] + Seq::<FieldView>::empty());
    assert(parse_message(data) =~= seq![f]);
    assert(find_field(seq![f], num, 0, 0) == Some(0int));
}

/// The bytes a field is written as: its tag (the field number shifted past the three bits of
/// the wire type), for a length-delimited field the payload's length, then its data.
pub open spec fn field_encoding(f: FieldView) -> Seq<u8> {
    varint_encoding(((f.field_number as u64) << 3u64) | (f.wire_type as u64)) + (if f.wire_type == 2 {
        varint_encoding(f.data.len() as u64)
    } else {
        Seq::empty()
    }) + f.data
}

/// The bytes a message is written as: its fields' encodings, one after another.
pub open spec fn message_encoding(fs: Seq<FieldView>) -> Seq<u8>
    decreases fs.len(),
{
    if fs.len() == 0 {
        Seq::empty()
    } else {
        field_encoding(fs[0]) + message_encoding(fs.drop_first())
    }
}

/// A field that its encoding can carry: a field number that fits the tag, and data of the size
/// its wire type has (a varint's encoding, eight bytes, a payload, four bytes).
pub open spec fn encodable(f: FieldView) -> bool {
    &&& 1 <= f.field_number < 0x2000_0000
    &&& {
        ||| f.wire_type == 0 && exists|v: u64| f.data == #[trigger] varint_encoding(v)
        ||| f.wire_type == 1 && f.data.len() == 8
        ||| f.wire_type == 2 && f.data.len() <= usize::MAX
        ||| f.wire_type == 5 && f.data.len() == 4
    }
}

/// Reading from `p.len() + o` in `p + d` reads what reading from `o` in `d` reads.
proof fn lemma_parse_shift(p: Seq<u8>, d: Seq<u8>, o: int, fuel: nat)
    requires
        0 <= o,
    ensures
        parse_from(p + d, p.len() + o, fuel) == parse_from(d, o, fuel),
    decreases fuel,
{
    let pd = p + d;
    let base = p.len() as int;
    if fuel == 0 || o >= d.len() {
    } else {
        assert(pd.skip(base + o) =~= d.skip(o));
        lemma_varint_end(d.skip(o), 0);
        match varint_spec(d.skip(o)) {
            None => {},
            Some((tag, tl)) => {
                let off = o + tl;
                let num = #[verifier::truncate] ((tag >> 3u64) as u32);
                let wt = #[verifier::truncate] ((tag & 7u64) as u8);
                assert(pd.skip(base + off) =~= d.skip(off));
                lemma_varint_end(d.skip(off), 0);
                if num == 0 {
                } else if wt == 0 {
                    match varint_spec(d.skip(off)) {
                        None => {},
                        Some((v, vl)) => {
                            assert(pd.subrange(base + off, base + off + vl) =~= d.subrange(off, off + vl));
                            lemma_parse_shift(p, d, off + vl, (fuel - 1) as nat);
                        },
                    }
                } else if wt == 1 {
                    if off + 8 <= d.len() {
                        assert(pd.subrange(base + off, base + off + 8) =~= d.subrange(off, off + 8));
                        lemma_parse_shift(p, d, off + 8, (fuel - 1) as nat);
                    }
                } else if wt == 2 {
                    match varint_spec(d.skip(off)) {
                        None => {},
                        Some((len, ll)) => {
                            let start = off + ll;
                            let n = len as usize;
                            if start + n <= d.len() {
                                assert(pd.subrange(base + start, base + start + n) =~= d.subrange(start, start + n));
                                lemma_parse_shift(p, d, start + n, (fuel - 1) as nat);
                            }
                        },
                    }
                } else if wt == 5 {
                    if off + 4 <= d.len() {
                        assert(pd.subrange(base + off, base + off + 4) =~= d.subrange(off, off + 4));
                        lemma_parse_shift(p, d, off + 4, (fuel - 1) as nat);
                    }
                }
            },
        }
    }
}

/// A field's encoding, followed by anything, reads as that field, then as what follows it.
proof fn lemma_parse_field(f: FieldView, r: Seq<u8>, fuel: nat)
    requires
        encodable(f),
        fuel >= 1,
    ensures
        parse_from(field_encoding(f) + r, 0, fuel) == seq![f] + parse_from(
            field_encoding(f) + r,
            field_encoding(f).len() as int,
            (fuel - 1) as nat,
        ),
{
    let n = f.field_number as u64;
    let w = f.wire_type as u64;
    let tag = (n << 3u64) | w;
    let et = varint_encoding(tag);
    let mid = if f.wire_type == 2 { varint_encoding(f.data.len() as u64) } else { Seq::<u8>::empty() };
    let data = field_encoding(f) + r;
    assert(data =~= et + (mid + f.data + r));
    assert(data.skip(0) =~= data);
    lemma_varint_decodes(tag, mid + f.data + r);
    assert(1 <= n < 0x2000_0000 && w < 8 ==> ((tag >> 3u64) as u32 == n as u32 && ((tag & 7u64) as u8) == w as u8
        && (tag >> 3u64) as u32 != 0u32)) by (bit_vector)
        requires tag == (n << 3u64) | w;
    let off = et.len() as int;
    assert(data.skip(off) =~= mid + f.data + r);
    let end = field_encoding(f).len() as int;
    if f.wire_type == 0 {
        let v = choose|v: u64| f.data == #[trigger] varint_encoding(v);
        lemma_varint_decodes(v, r);
        assert(mid + f.data + r =~= f.data + r);
        assert(data.subrange(off, off + f.data.len()) =~= f.data);
    } else if f.wire_type == 1 || f.wire_type == 5 {
        assert(data.subrange(off, off + f.data.len()) =~= f.data);
    } else {
        lemma_varint_decodes(f.data.len() as u64, f.data + r);
        assert(mid + f.data + r =~= mid + (f.data + r));
        let start = off + mid.len();
        assert(data.subrange(start, start + f.data.len()) =~= f.data);
    }
}

/// The fields of a message's encoding, read with room for at least as many fields.
proof fn lemma_parse_encoding(fs: Seq<FieldView>, fuel: nat)
    requires
        forall|i: int| 0 <= i < fs.len() ==> encodable(#[trigger] fs[i]),
        fs.len() <= fuel,
    ensures
        parse_from(message_encoding(fs), 0, fuel) == fs,
    decreases fs.len(),
{
    if fs.len() == 0 {
        assert(parse_from(message_encoding(fs), 0, fuel) =~= fs);
    } else {
        let rest = fs.drop_first();
        let fe = field_encoding(fs[0]);
        assert(forall|i: int| 0 <= i < rest.len() ==> rest[i] == fs[i + 1]);
        lemma_parse_field(fs[0], message_encoding(rest), fuel);
        lemma_parse_shift(fe, message_encoding(rest), 0, (fuel - 1) as nat);
        lemma_parse_encoding(rest, (fuel - 1) as nat);
        assert(seq![fs[0]] + rest =~= fs);
    }
}

/// Writing fields out in the wire format and parsing the bytes gives the same fields back, in
/// order, for any message of at most [`MAX_FIELDS`] fields that the format can carry.
pub proof fn law_parse_inverts_encoding(fs: Seq<FieldView>)
    requires
        fs.len() <= MAX_FIELDS,
        forall|i: int| 0 <= i < fs.len() ==> encodable(#[trigger] fs[i]),
    ensures
        parse_message(message_encoding(fs)) == fs,
{
    lemma_parse_encoding(fs, MAX_FIELDS as nat);
}

} // verus!
