//! The persisted byte format.
//!
//! A database is stored as one self-describing binary blob: counts and
//! lengths as 64-bit little-endian integers, text as a byte-length prefix
//! followed by UTF-8 bytes, and every value as a one-byte tag followed by
//! its payload, so the tagged union can be reconstructed without external
//! schema. The spec-level encoders and parsers below define the format; the
//! executable writers and readers are proved against them, and parsing an
//! encoding gives back exactly what was encoded.

use crate::database::DatabaseV;
use crate::table::{Table, TableV, rows_view};
use crate::types::{DbType, DbValue, Row, ValueV, tag_of, vals_view};
use vstd::prelude::*;
use vstd::bytes::{
    lemma_auto_spec_u32_to_from_le_bytes, lemma_auto_spec_u64_to_from_le_bytes,
    spec_u32_from_le_bytes, spec_u32_to_le_bytes, spec_u64_from_le_bytes, spec_u64_to_le_bytes,
    u32_from_le_bytes, u32_to_le_bytes, u64_from_le_bytes, u64_to_le_bytes,
};
use vstd::slice::{slice_index_get, slice_subrange};
use vstd::string::StringSliceAdditionalSpecFns;
use vstd::utf8::{
    char_is_scalar, char_u32_cast, decode_utf8, encode_utf8, encode_utf8_decode_utf8,
    encode_utf8_valid_utf8, is_scalar, valid_utf8,
};

verus! {

/// Relies on `char::from_u32`: it returns `Some` exactly on Unicode scalar
/// values, giving the character with that scalar value.
pub assume_specification[ char::from_u32 ](u: u32) -> (r: Option<char>)
    ensures
        r is Some <==> is_scalar(u),
        r matches Some(c) ==> c as u32 == u,
;

#[verifier::external_type_specification]
#[verifier::external_body]
pub struct ExUtf8Error(core::str::Utf8Error);

/// Relies on `core::str::from_utf8`: it returns `Ok` exactly on well-formed
/// UTF-8, viewing those bytes as the characters they encode.
pub assume_specification[ core::str::from_utf8 ](v: &[u8]) -> (r: Result<
    &str,
    core::str::Utf8Error,
>)
    ensures
        r is Ok <==> valid_utf8(v@),
        r matches Ok(s) ==> s.spec_bytes() == v@,
;

/// Bytes of a 64-bit count or length, little-endian.
pub open spec fn enc_u64(v: u64) -> Seq<u8> {
    spec_u64_to_le_bytes(v)
}

/// Reads a 64-bit little-endian integer at `pos`.
pub open spec fn parse_u64(bytes: Seq<u8>, pos: int) -> Option<(u64, int)> {
    if 0 <= pos && pos + 8 <= bytes.len() {
        Option::Some((spec_u64_from_le_bytes(bytes.subrange(pos, pos + 8)), pos + 8))
    } else {
        Option::None
    }
}

/// A range of an already-identified encoding inside a larger buffer is the
/// matching range of the encoding itself.
proof fn lemma_sub_of_sub(bytes: Seq<u8>, pos: int, e: Seq<u8>, a: int, b: int)
    requires
        0 <= pos,
        pos + e.len() <= bytes.len(),
        bytes.subrange(pos, pos + e.len()) == e,
        0 <= a <= b <= e.len(),
    ensures
        bytes.subrange(pos + a, pos + b) == e.subrange(a, b),
{
    assert(bytes.subrange(pos + a, pos + b) =~= e.subrange(a, b));
}

pub proof fn lemma_parse_enc_u64(bytes: Seq<u8>, pos: int, v: u64)
    requires
        0 <= pos,
        pos + enc_u64(v).len() <= bytes.len(),
        bytes.subrange(pos, pos + enc_u64(v).len() as int) == enc_u64(v),
    ensures
        enc_u64(v).len() == 8,
        parse_u64(bytes, pos) == Option::Some((v, pos + 8)),
{
    lemma_auto_spec_u64_to_from_le_bytes();
}

/// Bytes of a 64-bit signed integer: its two's-complement pattern,
/// little-endian.
pub open spec fn enc_i64(v: i64) -> Seq<u8> {
    enc_u64(v as u64)
}

/// Reads a 64-bit signed integer at `pos`.
pub open spec fn parse_i64(bytes: Seq<u8>, pos: int) -> Option<(i64, int)> {
    match parse_u64(bytes, pos) {
        Option::Some((u, p)) => Option::Some((u as i64, p)),
        Option::None => Option::None,
    }
}

pub proof fn lemma_parse_enc_i64(bytes: Seq<u8>, pos: int, v: i64)
    requires
        0 <= pos,
        pos + enc_i64(v).len() <= bytes.len(),
        bytes.subrange(pos, pos + enc_i64(v).len() as int) == enc_i64(v),
    ensures
        enc_i64(v).len() == 8,
        parse_i64(bytes, pos) == Option::Some((v, pos + 8)),
{
    lemma_parse_enc_u64(bytes, pos, v as u64);
    assert((v as u64) as i64 == v) by (bit_vector);
}

/// Bytes of a 32-bit integer, little-endian; carries a character's scalar
/// value.
pub open spec fn enc_u32(v: u32) -> Seq<u8> {
    spec_u32_to_le_bytes(v)
}

/// Reads a 32-bit little-endian integer at `pos`.
pub open spec fn parse_u32(bytes: Seq<u8>, pos: int) -> Option<(u32, int)> {
    if 0 <= pos && pos + 4 <= bytes.len() {
        Option::Some((spec_u32_from_le_bytes(bytes.subrange(pos, pos + 4)), pos + 4))
    } else {
        Option::None
    }
}

pub proof fn lemma_parse_enc_u32(bytes: Seq<u8>, pos: int, v: u32)
    requires
        0 <= pos,
        pos + enc_u32(v).len() <= bytes.len(),
        bytes.subrange(pos, pos + enc_u32(v).len() as int) == enc_u32(v),
    ensures
        enc_u32(v).len() == 4,
        parse_u32(bytes, pos) == Option::Some((v, pos + 4)),
{
    lemma_auto_spec_u32_to_from_le_bytes();
}

/// Bytes of a character: its Unicode scalar value as 32 bits.
pub open spec fn enc_char(c: char) -> Seq<u8> {
    enc_u32(c as u32)
}

/// Reads a character at `pos`; bytes that are no scalar value are rejected.
pub open spec fn parse_char(bytes: Seq<u8>, pos: int) -> Option<(char, int)> {
    match parse_u32(bytes, pos) {
        Option::Some((u, p)) => if is_scalar(u) {
            Option::Some((u as char, p))
        } else {
            Option::None
        },
        Option::None => Option::None,
    }
}

pub proof fn lemma_parse_enc_char(bytes: Seq<u8>, pos: int, c: char)
    requires
        0 <= pos,
        pos + enc_char(c).len() <= bytes.len(),
        bytes.subrange(pos, pos + enc_char(c).len() as int) == enc_char(c),
    ensures
        enc_char(c).len() == 4,
        parse_char(bytes, pos) == Option::Some((c, pos + 4)),
{
    lemma_parse_enc_u32(bytes, pos, c as u32);
    char_is_scalar(c);
    char_u32_cast(c, c as u32);
}

/// Bytes of a text: the UTF-8 byte length, then the UTF-8 bytes.
pub open spec fn enc_str(s: Seq<char>) -> Seq<u8> {
    enc_u64(encode_utf8(s).len() as u64) + encode_utf8(s)
}

/// Whether a text's UTF-8 byte length fits the 64-bit length prefix; true of
/// every string a program can hold.
pub open spec fn str_fits(s: Seq<char>) -> bool {
    encode_utf8(s).len() < 0x1_0000_0000_0000_0000
}

/// Reads a text at `pos`: a byte length, then that many bytes of UTF-8.
pub open spec fn parse_str(bytes: Seq<u8>, pos: int) -> Option<(Seq<char>, int)> {
    match parse_u64(bytes, pos) {
        Option::Some((len, p)) => if p + len <= bytes.len() {
            if valid_utf8(bytes.subrange(p, p + len)) {
                Option::Some((decode_utf8(bytes.subrange(p, p + len)), p + len))
            } else {
                Option::None
            }
        } else {
            Option::None
        },
        Option::None => Option::None,
    }
}

pub proof fn lemma_parse_enc_str(bytes: Seq<u8>, pos: int, s: Seq<char>)
    requires
        0 <= pos,
        str_fits(s),
        pos + enc_str(s).len() <= bytes.len(),
        bytes.subrange(pos, pos + enc_str(s).len() as int) == enc_str(s),
    ensures
        enc_str(s).len() == 8 + encode_utf8(s).len(),
        parse_str(bytes, pos) == Option::Some((s, pos + enc_str(s).len())),
{
    let u = encode_utf8(s);
    let l = u.len() as u64;
    lemma_auto_spec_u64_to_from_le_bytes();
    assert(enc_str(s).subrange(0, 8) =~= enc_u64(l));
    assert(enc_str(s).subrange(8, enc_str(s).len() as int) =~= u);
    lemma_sub_of_sub(bytes, pos, enc_str(s), 0, 8);
    lemma_parse_enc_u64(bytes, pos, l);
    lemma_sub_of_sub(bytes, pos, enc_str(s), 8, enc_str(s).len() as int);
    assert(bytes.subrange(pos + 8, pos + 8 + u.len()) == u);
    encode_utf8_valid_utf8(s);
    encode_utf8_decode_utf8(s);
}

/// The discriminant byte that precedes each value's payload.
pub open spec fn tag_byte(t: DbType) -> u8 {
    match t {
        DbType::Int => 0,
        DbType::Real => 1,
        DbType::Char => 2,
        DbType::Text => 3,
        DbType::ComplexReal => 4,
        DbType::ComplexInt => 5,
    }
}

/// The tag a discriminant byte stands for, if any.
pub open spec fn tag_from_byte(b: u8) -> Option<DbType> {
    if b == 0 {
        Option::Some(DbType::Int)
    } else if b == 1 {
        Option::Some(DbType::Real)
    } else if b == 2 {
        Option::Some(DbType::Char)
    } else if b == 3 {
        Option::Some(DbType::Text)
    } else if b == 4 {
        Option::Some(DbType::ComplexReal)
    } else if b == 5 {
        Option::Some(DbType::ComplexInt)
    } else {
        Option::None
    }
}

/// Bytes of one value: its discriminant byte, then its payload.
pub open spec fn enc_value(v: ValueV) -> Seq<u8> {
    seq![tag_byte(tag_of(v))] + match v {
        ValueV::Int(x) => enc_i64(x),
        ValueV::Real(x) => enc_u64(x),
        ValueV::Char(c) => enc_char(c),
        ValueV::Text(s) => enc_str(s),
        ValueV::ComplexReal(p) => enc_u64(p.0) + enc_u64(p.1),
        ValueV::ComplexInt(p) => enc_i64(p.0) + enc_i64(p.1),
    }
}

/// Whether a value's encoding fits its length prefixes; true of every value
/// a program can hold.
pub open spec fn value_fits(v: ValueV) -> bool {
    match v {
        ValueV::Text(s) => str_fits(s),
        _ => true,
    }
}

/// Reads one value at `pos`: a discriminant byte, then the payload it calls
/// for. Unknown discriminants are rejected.
pub open spec fn parse_value(bytes: Seq<u8>, pos: int) -> Option<(ValueV, int)> {
    if 0 <= pos && pos + 1 <= bytes.len() {
        let b = bytes[pos];
        if b == 0 {
            match parse_i64(bytes, pos + 1) {
                Option::Some((x, p)) => Option::Some((ValueV::Int(x), p)),
                Option::None => Option::None,
            }
        } else if b == 1 {
            match parse_u64(bytes, pos + 1) {
                Option::Some((x, p)) => Option::Some((ValueV::Real(x), p)),
                Option::None => Option::None,
            }
        } else if b == 2 {
            match parse_char(bytes, pos + 1) {
                Option::Some((c, p)) => Option::Some((ValueV::Char(c), p)),
                Option::None => Option::None,
            }
        } else if b == 3 {
            match parse_str(bytes, pos + 1) {
                Option::Some((s, p)) => Option::Some((ValueV::Text(s), p)),
                Option::None => Option::None,
            }
        } else if b == 4 {
            match parse_u64(bytes, pos + 1) {
                Option::Some((re, p1)) => match parse_u64(bytes, p1) {
                    Option::Some((im, p2)) => Option::Some((ValueV::ComplexReal((re, im)), p2)),
                    Option::None => Option::None,
                },
                Option::None => Option::None,
            }
        } else if b == 5 {
            match parse_i64(bytes, pos + 1) {
                Option::Some((re, p1)) => match parse_i64(bytes, p1) {
                    Option::Some((im, p2)) => Option::Some((ValueV::ComplexInt((re, im)), p2)),
                    Option::None => Option::None,
                },
                Option::None => Option::None,
            }
        } else {
            Option::None
        }
    } else {
        Option::None
    }
}

pub proof fn lemma_parse_enc_value(bytes: Seq<u8>, pos: int, v: ValueV)
    requires
        0 <= pos,
        value_fits(v),
        pos + enc_value(v).len() <= bytes.len(),
        bytes.subrange(pos, pos + enc_value(v).len() as int) == enc_value(v),
    ensures
        enc_value(v).len() >= 1,
        parse_value(bytes, pos) == Option::Some((v, pos + enc_value(v).len())),
{
    lemma_auto_spec_u64_to_from_le_bytes();
    lemma_auto_spec_u32_to_from_le_bytes();
    let e = enc_value(v);
    assert(bytes[pos] == e[0]);
    let pay = e.subrange(1, e.len() as int);
    lemma_sub_of_sub(bytes, pos, e, 1, e.len() as int);
    match v {
        ValueV::Int(x) => {
            assert(pay =~= enc_i64(x));
            lemma_parse_enc_i64(bytes, pos + 1, x);
        },
        ValueV::Real(x) => {
            assert(pay =~= enc_u64(x));
            lemma_parse_enc_u64(bytes, pos + 1, x);
        },
        ValueV::Char(c) => {
            assert(pay =~= enc_char(c));
            lemma_parse_enc_char(bytes, pos + 1, c);
        },
        ValueV::Text(s) => {
            assert(pay =~= enc_str(s));
            lemma_parse_enc_str(bytes, pos + 1, s);
        },
        ValueV::ComplexReal(p) => {
            assert(pay =~= enc_u64(p.0) + enc_u64(p.1));
            lemma_sub_of_sub(bytes, pos + 1, pay, 0, 8);
            assert(pay.subrange(0, 8) =~= enc_u64(p.0));
            lemma_parse_enc_u64(bytes, pos + 1, p.0);
            lemma_sub_of_sub(bytes, pos + 1, pay, 8, 16);
            assert(pay.subrange(8, 16) =~= enc_u64(p.1));
            lemma_parse_enc_u64(bytes, pos + 9, p.1);
        },
        ValueV::ComplexInt(p) => {
            assert(pay =~= enc_i64(p.0) + enc_i64(p.1));
            lemma_sub_of_sub(bytes, pos + 1, pay, 0, 8);
            assert(pay.subrange(0, 8) =~= enc_i64(p.0));
            lemma_parse_enc_i64(bytes, pos + 1, p.0);
            lemma_sub_of_sub(bytes, pos + 1, pay, 8, 16);
            assert(pay.subrange(8, 16) =~= enc_i64(p.1));
            lemma_parse_enc_i64(bytes, pos + 9, p.1);
        },
    }
}

/// Bytes of a sequence of values, one after the other.
pub open spec fn enc_values(vs: Seq<ValueV>) -> Seq<u8>
    decreases vs.len(),
{
    if vs.len() == 0 {
        Seq::empty()
    } else {
        enc_value(vs[0]) + enc_values(vs.drop_first())
    }
}

/// Reads `count` values one after the other.
pub open spec fn parse_values(bytes: Seq<u8>, pos: int, count: int) -> Option<(Seq<ValueV>, int)>
    decreases count,
{
    if count <= 0 {
        Option::Some((Seq::empty(), pos))
    } else {
        match parse_value(bytes, pos) {
            Option::Some((v, p)) => match parse_values(bytes, p, count - 1) {
                Option::Some((vs, p2)) => Option::Some((seq![v] + vs, p2)),
                Option::None => Option::None,
            },
            Option::None => Option::None,
        }
    }
}

pub proof fn lemma_enc_values_push(vs: Seq<ValueV>, v: ValueV)
    ensures
        enc_values(vs.push(v)) == enc_values(vs) + enc_value(v),
    decreases vs.len(),
{
    if vs.len() == 0 {
        assert(vs.push(v)[0] == v);
        assert(vs.push(v).len() == 1);
        assert(vs.push(v).drop_first() =~= Seq::<ValueV>::empty());
        assert(enc_values(vs.push(v).drop_first()) == Seq::<u8>::empty());
        assert(enc_values(vs.push(v)) == enc_value(v) + Seq::<u8>::empty());
        assert(enc_values(vs) == Seq::<u8>::empty());
        assert(enc_value(v) + Seq::<u8>::empty() =~= Seq::<u8>::empty() + enc_value(v));
    } else {
        let tail = vs.drop_first();
        assert(vs.push(v)[0] == vs[0]);
        assert(vs.push(v).drop_first() =~= tail.push(v));
        lemma_enc_values_push(tail, v);
        assert(enc_values(vs.push(v)) == enc_value(vs[0]) + enc_values(tail.push(v)));
        assert(enc_values(vs) == enc_value(vs[0]) + enc_values(tail));
        assert(enc_value(vs[0]) + (enc_values(tail) + enc_value(v)) =~= (enc_value(vs[0])
            + enc_values(tail)) + enc_value(v));
    }
}

pub proof fn lemma_parse_enc_values(bytes: Seq<u8>, pos: int, vs: Seq<ValueV>)
    requires
        0 <= pos,
        forall|i: int| 0 <= i < vs.len() ==> value_fits(#[trigger] vs[i]),
        pos + enc_values(vs).len() <= bytes.len(),
        bytes.subrange(pos, pos + enc_values(vs).len() as int) == enc_values(vs),
    ensures
        parse_values(bytes, pos, vs.len() as int) == Option::Some(
            (vs, pos + enc_values(vs).len()),
        ),
    decreases vs.len(),
{
    if vs.len() == 0 {
        assert(vs =~= Seq::<ValueV>::empty());
    } else {
        let e = enc_values(vs);
        let head = enc_value(vs[0]);
        let rest = enc_values(vs.drop_first());
        lemma_sub_of_sub(bytes, pos, e, 0, head.len() as int);
        assert(e.subrange(0, head.len() as int) =~= head);
        lemma_parse_enc_value(bytes, pos, vs[0]);
        lemma_sub_of_sub(bytes, pos, e, head.len() as int, e.len() as int);
        assert(e.subrange(head.len() as int, e.len() as int) =~= rest);
        lemma_parse_enc_values(bytes, pos + head.len(), vs.drop_first());
        assert(seq![vs[0]] + vs.drop_first() =~= vs);
    }
}

/// Bytes of a row: how many values it has, then the values.
pub open spec fn enc_row(r: Seq<ValueV>) -> Seq<u8> {
    enc_u64(r.len() as u64) + enc_values(r)
}

/// Whether a row's encoding fits its length prefixes; true of every row a
/// program can hold.
pub open spec fn row_fits(r: Seq<ValueV>) -> bool {
    &&& r.len() < 0x1_0000_0000_0000_0000
    &&& forall|i: int| 0 <= i < r.len() ==> value_fits(#[trigger] r[i])
}

/// Reads a row at `pos`.
pub open spec fn parse_row(bytes: Seq<u8>, pos: int) -> Option<(Seq<ValueV>, int)> {
    match parse_u64(bytes, pos) {
        Option::Some((n, p)) => parse_values(bytes, p, n as int),
        Option::None => Option::None,
    }
}

pub proof fn lemma_parse_enc_row(bytes: Seq<u8>, pos: int, r: Seq<ValueV>)
    requires
        0 <= pos,
        row_fits(r),
        pos + enc_row(r).len() <= bytes.len(),
        bytes.subrange(pos, pos + enc_row(r).len() as int) == enc_row(r),
    ensures
        parse_row(bytes, pos) == Option::Some((r, pos + enc_row(r).len())),
{
    lemma_auto_spec_u64_to_from_le_bytes();
    let e = enc_row(r);
    lemma_sub_of_sub(bytes, pos, e, 0, 8);
    assert(e.subrange(0, 8) =~= enc_u64(r.len() as u64));
    lemma_parse_enc_u64(bytes, pos, r.len() as u64);
    lemma_sub_of_sub(bytes, pos, e, 8, e.len() as int);
    assert(e.subrange(8, e.len() as int) =~= enc_values(r));
    lemma_parse_enc_values(bytes, pos + 8, r);
}

/// Bytes of a sequence of rows, one after the other.
pub open spec fn enc_rows(rs: Seq<Seq<ValueV>>) -> Seq<u8>
    decreases rs.len(),
{
    if rs.len() == 0 {
        Seq::empty()
    } else {
        enc_row(rs[0]) + enc_rows(rs.drop_first())
    }
}

/// Reads `count` rows one after the other.
pub open spec fn parse_rows(bytes: Seq<u8>, pos: int, count: int) -> Option<(Seq<Seq<ValueV>>, int)>
    decreases count,
{
    if count <= 0 {
        Option::Some((Seq::empty(), pos))
    } else {
        match parse_row(bytes, pos) {
            Option::Some((r, p)) => match parse_rows(bytes, p, count - 1) {
                Option::Some((rs, p2)) => Option::Some((seq![r] + rs, p2)),
                Option::None => Option::None,
            },
            Option::None => Option::None,
        }
    }
}

pub proof fn lemma_enc_rows_push(rs: Seq<Seq<ValueV>>, r: Seq<ValueV>)
    ensures
        enc_rows(rs.push(r)) == enc_rows(rs) + enc_row(r),
    decreases rs.len(),
{
    if rs.len() == 0 {
        assert(rs.push(r)[0] == r);
        assert(rs.push(r).len() == 1);
        assert(rs.push(r).drop_first() =~= Seq::<Seq<ValueV>>::empty());
        assert(enc_rows(rs.push(r).drop_first()) == Seq::<u8>::empty());
        assert(enc_rows(rs.push(r)) == enc_row(r) + Seq::<u8>::empty());
        assert(enc_rows(rs) == Seq::<u8>::empty());
        assert(enc_row(r) + Seq::<u8>::empty() =~= Seq::<u8>::empty() + enc_row(r));
    } else {
        let tail = rs.drop_first();
        assert(rs.push(r)[0] == rs[0]);
        assert(rs.push(r).drop_first() =~= tail.push(r));
        lemma_enc_rows_push(tail, r);
        assert(enc_rows(rs.push(r)) == enc_row(rs[0]) + enc_rows(tail.push(r)));
        assert(enc_rows(rs) == enc_row(rs[0]) + enc_rows(tail));
        assert(enc_row(rs[0]) + (enc_rows(tail) + enc_row(r)) =~= (enc_row(rs[0]) + enc_rows(tail))
            + enc_row(r));
    }
}

pub proof fn lemma_parse_enc_rows(bytes: Seq<u8>, pos: int, rs: Seq<Seq<ValueV>>)
    requires
        0 <= pos,
        forall|i: int| 0 <= i < rs.len() ==> row_fits(#[trigger] rs[i]),
        pos + enc_rows(rs).len() <= bytes.len(),
        bytes.subrange(pos, pos + enc_rows(rs).len() as int) == enc_rows(rs),
    ensures
        parse_rows(bytes, pos, rs.len() as int) == Option::Some((rs, pos + enc_rows(rs).len())),
    decreases rs.len(),
{
    if rs.len() == 0 {
        assert(rs =~= Seq::<Seq<ValueV>>::empty());
    } else {
        let e = enc_rows(rs);
        let head = enc_row(rs[0]);
        let rest = enc_rows(rs.drop_first());
        lemma_sub_of_sub(bytes, pos, e, 0, head.len() as int);
        assert(e.subrange(0, head.len() as int) =~= head);
        lemma_parse_enc_row(bytes, pos, rs[0]);
        lemma_sub_of_sub(bytes, pos, e, head.len() as int, e.len() as int);
        assert(e.subrange(head.len() as int, e.len() as int) =~= rest);
        lemma_parse_enc_rows(bytes, pos + head.len(), rs.drop_first());
        assert(seq![rs[0]] + rs.drop_first() =~= rs);
    }
}

/// Bytes of a schema: one discriminant byte per column.
pub open spec fn enc_tags(s: Seq<DbType>) -> Seq<u8>
    decreases s.len(),
{
    if s.len() == 0 {
        Seq::empty()
    } else {
        seq![tag_byte(s[0])] + enc_tags(s.drop_first())
    }
}

/// Reads `count` discriminant bytes as a schema.
pub open spec fn parse_tags(bytes: Seq<u8>, pos: int, count: int) -> Option<(Seq<DbType>, int)>
    decreases count,
{
    if count <= 0 {
        Option::Some((Seq::empty(), pos))
    } else if 0 <= pos && pos + 1 <= bytes.len() {
        match tag_from_byte(bytes[pos]) {
            Option::Some(t) => match parse_tags(bytes, pos + 1, count - 1) {
                Option::Some((s, p)) => Option::Some((seq![t] + s, p)),
                Option::None => Option::None,
            },
            Option::None => Option::None,
        }
    } else {
        Option::None
    }
}

pub proof fn lemma_enc_tags_push(s: Seq<DbType>, t: DbType)
    ensures
        enc_tags(s.push(t)) == enc_tags(s) + seq![tag_byte(t)],
    decreases s.len(),
{
    if s.len() == 0 {
        assert(s.push(t)[0] == t);
        assert(s.push(t).len() == 1);
        assert(s.push(t).drop_first() =~= Seq::<DbType>::empty());
        assert(enc_tags(s.push(t).drop_first()) == Seq::<u8>::empty());
        assert(enc_tags(s.push(t)) == seq![tag_byte(t)] + Seq::<u8>::empty());
        assert(enc_tags(s) == Seq::<u8>::empty());
        assert(seq![tag_byte(t)] + Seq::<u8>::empty() =~= Seq::<u8>::empty() + seq![tag_byte(t)]);
    } else {
        let tail = s.drop_first();
        assert(s.push(t)[0] == s[0]);
        assert(s.push(t).drop_first() =~= tail.push(t));
        lemma_enc_tags_push(tail, t);
        assert(enc_tags(s.push(t)) == seq![tag_byte(s[0])] + enc_tags(tail.push(t)));
        assert(enc_tags(s) == seq![tag_byte(s[0])] + enc_tags(tail));
        assert(seq![tag_byte(s[0])] + (enc_tags(tail) + seq![tag_byte(t)]) =~= (seq![
            tag_byte(s[0]),
        ] + enc_tags(tail)) + seq![tag_byte(t)]);
    }
}

pub proof fn lemma_parse_enc_tags(bytes: Seq<u8>, pos: int, s: Seq<DbType>)
    requires
        0 <= pos,
        pos + enc_tags(s).len() <= bytes.len(),
        bytes.subrange(pos, pos + enc_tags(s).len() as int) == enc_tags(s),
    ensures
        enc_tags(s).len() == s.len(),
        parse_tags(bytes, pos, s.len() as int) == Option::Some((s, pos + s.len())),
    decreases s.len(),
{
    if s.len() == 0 {
        assert(s =~= Seq::<DbType>::empty());
    } else {
        let e = enc_tags(s);
        assert(bytes[pos] == e[0]);
        assert(e[0] == tag_byte(s[0]));
        assert(tag_from_byte(tag_byte(s[0])) == Option::Some(s[0]));
        lemma_sub_of_sub(bytes, pos, e, 1, e.len() as int);
        assert(e.subrange(1, e.len() as int) =~= enc_tags(s.drop_first()));
        lemma_parse_enc_tags(bytes, pos + 1, s.drop_first());
        assert(seq![s[0]] + s.drop_first() =~= s);
    }
}

/// Bytes of a table: its name, its schema behind a column count, then its
/// rows behind a row count.
pub open spec fn enc_table(t: TableV) -> Seq<u8> {
    enc_str(t.name) + enc_u64(t.schema.len() as u64) + enc_tags(t.schema) + enc_u64(
        t.rows.len() as u64,
    ) + enc_rows(t.rows)
}

/// Whether a table's encoding fits its length prefixes; true of every table
/// a program can hold.
pub open spec fn table_fits(t: TableV) -> bool {
    &&& str_fits(t.name)
    &&& t.schema.len() < 0x1_0000_0000_0000_0000
    &&& t.rows.len() < 0x1_0000_0000_0000_0000
    &&& forall|i: int| 0 <= i < t.rows.len() ==> row_fits(#[trigger] t.rows[i])
}

/// Reads a table at `pos`.
pub open spec fn parse_table(bytes: Seq<u8>, pos: int) -> Option<(TableV, int)> {
    match parse_str(bytes, pos) {
        Option::Some((name, p1)) => match parse_u64(bytes, p1) {
            Option::Some((sc, p2)) => match parse_tags(bytes, p2, sc as int) {
                Option::Some((schema, p3)) => match parse_u64(bytes, p3) {
                    Option::Some((rc, p4)) => match parse_rows(bytes, p4, rc as int) {
                        Option::Some((rows, p5)) => Option::Some(
                            (TableV { name, schema, rows }, p5),
                        ),
                        Option::None => Option::None,
                    },
                    Option::None => Option::None,
                },
                Option::None => Option::None,
            },
            Option::None => Option::None,
        },
        Option::None => Option::None,
    }
}

pub proof fn lemma_parse_enc_table(bytes: Seq<u8>, pos: int, t: TableV)
    requires
        0 <= pos,
        table_fits(t),
        pos + enc_table(t).len() <= bytes.len(),
        bytes.subrange(pos, pos + enc_table(t).len() as int) == enc_table(t),
    ensures
        parse_table(bytes, pos) == Option::Some((t, pos + enc_table(t).len())),
{
    lemma_auto_spec_u64_to_from_le_bytes();
    let e = enc_table(t);
    let e_name = enc_str(t.name);
    let e_sc = enc_u64(t.schema.len() as u64);
    let e_tags = enc_tags(t.schema);
    let e_rc = enc_u64(t.rows.len() as u64);
    let e_rows = enc_rows(t.rows);
    let o1 = e_name.len() as int;
    let o2 = o1 + 8;
    let o3 = o2 + e_tags.len() as int;
    let o4 = o3 + 8;
    lemma_sub_of_sub(bytes, pos, e, 0, o1);
    assert(e.subrange(0, o1) =~= e_name);
    lemma_parse_enc_str(bytes, pos, t.name);
    lemma_sub_of_sub(bytes, pos, e, o1, o2);
    assert(e.subrange(o1, o2) =~= e_sc);
    lemma_parse_enc_u64(bytes, pos + o1, t.schema.len() as u64);
    lemma_sub_of_sub(bytes, pos, e, o2, o3);
    assert(e.subrange(o2, o3) =~= e_tags);
    lemma_parse_enc_tags(bytes, pos + o2, t.schema);
    lemma_sub_of_sub(bytes, pos, e, o3, o4);
    assert(e.subrange(o3, o4) =~= e_rc);
    lemma_parse_enc_u64(bytes, pos + o3, t.rows.len() as u64);
    lemma_sub_of_sub(bytes, pos, e, o4, e.len() as int);
    assert(e.subrange(o4, e.len() as int) =~= e_rows);
    lemma_parse_enc_rows(bytes, pos + o4, t.rows);
}

/// Bytes of a sequence of tables, one after the other.
pub open spec fn enc_tables(ts: Seq<TableV>) -> Seq<u8>
    decreases ts.len(),
{
    if ts.len() == 0 {
        Seq::empty()
    } else {
        enc_table(ts[0]) + enc_tables(ts.drop_first())
    }
}

/// Reads `count` tables one after the other.
pub open spec fn parse_tables(bytes: Seq<u8>, pos: int, count: int) -> Option<(Seq<TableV>, int)>
    decreases count,
{
    if count <= 0 {
        Option::Some((Seq::empty(), pos))
    } else {
        match parse_table(bytes, pos) {
            Option::Some((t, p)) => match parse_tables(bytes, p, count - 1) {
                Option::Some((ts, p2)) => Option::Some((seq![t] + ts, p2)),
                Option::None => Option::None,
            },
            Option::None => Option::None,
        }
    }
}

pub proof fn lemma_enc_tables_push(ts: Seq<TableV>, t: TableV)
    ensures
        enc_tables(ts.push(t)) == enc_tables(ts) + enc_table(t),
    decreases ts.len(),
{
    if ts.len() == 0 {
        assert(ts.push(t)[0] == t);
        assert(ts.push(t).len() == 1);
        assert(ts.push(t).drop_first() =~= Seq::<TableV>::empty());
        assert(enc_tables(ts.push(t).drop_first()) == Seq::<u8>::empty());
        assert(enc_tables(ts.push(t)) == enc_table(t) + Seq::<u8>::empty());
        assert(enc_tables(ts) == Seq::<u8>::empty());
        assert(enc_table(t) + Seq::<u8>::empty() =~= Seq::<u8>::empty() + enc_table(t));
    } else {
        let tail = ts.drop_first();
        assert(ts.push(t)[0] == ts[0]);
        assert(ts.push(t).drop_first() =~= tail.push(t));
        lemma_enc_tables_push(tail, t);
        assert(enc_tables(ts.push(t)) == enc_table(ts[0]) + enc_tables(tail.push(t)));
        assert(enc_tables(ts) == enc_table(ts[0]) + enc_tables(tail));
        assert(enc_table(ts[0]) + (enc_tables(tail) + enc_table(t)) =~= (enc_table(ts[0])
            + enc_tables(tail)) + enc_table(t));
    }
}

pub proof fn lemma_parse_enc_tables(bytes: Seq<u8>, pos: int, ts: Seq<TableV>)
    requires
        0 <= pos,
        forall|i: int| 0 <= i < ts.len() ==> table_fits(#[trigger] ts[i]),
        pos + enc_tables(ts).len() <= bytes.len(),
        bytes.subrange(pos, pos + enc_tables(ts).len() as int) == enc_tables(ts),
    ensures
        parse_tables(bytes, pos, ts.len() as int) == Option::Some(
            (ts, pos + enc_tables(ts).len()),
        ),
    decreases ts.len(),
{
    if ts.len() == 0 {
        assert(ts =~= Seq::<TableV>::empty());
    } else {
        let e = enc_tables(ts);
        let head = enc_table(ts[0]);
        let rest = enc_tables(ts.drop_first());
        lemma_sub_of_sub(bytes, pos, e, 0, head.len() as int);
        assert(e.subrange(0, head.len() as int) =~= head);
        lemma_parse_enc_table(bytes, pos, ts[0]);
        lemma_sub_of_sub(bytes, pos, e, head.len() as int, e.len() as int);
        assert(e.subrange(head.len() as int, e.len() as int) =~= rest);
        lemma_parse_enc_tables(bytes, pos + head.len(), ts.drop_first());
        assert(seq![ts[0]] + ts.drop_first() =~= ts);
    }
}

/// Bytes of a database: its name, then its tables behind a table count.
pub open spec fn enc_db(d: DatabaseV) -> Seq<u8> {
    enc_str(d.name) + enc_u64(d.tables.len() as u64) + enc_tables(d.tables)
}

/// Whether a database's encoding fits its length prefixes; true of every
/// database a program can hold.
pub open spec fn db_fits(d: DatabaseV) -> bool {
    &&& str_fits(d.name)
    &&& d.tables.len() < 0x1_0000_0000_0000_0000
    &&& forall|i: int| 0 <= i < d.tables.len() ==> table_fits(#[trigger] d.tables[i])
}

/// Reads a whole database: the blob is exactly one database encoding, with
/// nothing left over.
pub open spec fn parse_db(bytes: Seq<u8>) -> Option<DatabaseV> {
    match parse_str(bytes, 0) {
        Option::Some((name, p1)) => match parse_u64(bytes, p1) {
            Option::Some((tc, p2)) => match parse_tables(bytes, p2, tc as int) {
                Option::Some((tables, p3)) => if p3 == bytes.len() {
                    Option::Some(DatabaseV { name, tables })
                } else {
                    Option::None
                },
                Option::None => Option::None,
            },
            Option::None => Option::None,
        },
        Option::None => Option::None,
    }
}

/// Round trip: reading back the bytes of a database gives exactly that
/// database — same name, same tables with their schemas and rows, in order.
pub proof fn lemma_parse_enc_db(d: DatabaseV)
    requires
        db_fits(d),
    ensures
        parse_db(enc_db(d)) == Option::Some(d),
{
    lemma_auto_spec_u64_to_from_le_bytes();
    let bytes = enc_db(d);
    let e_name = enc_str(d.name);
    let e_tc = enc_u64(d.tables.len() as u64);
    let e_tables = enc_tables(d.tables);
    let o1 = e_name.len() as int;
    let o2 = o1 + 8;
    assert(bytes.subrange(0, o1) =~= e_name);
    lemma_parse_enc_str(bytes, 0, d.name);
    assert(bytes.subrange(o1, o2) =~= e_tc);
    lemma_parse_enc_u64(bytes, o1, d.tables.len() as u64);
    assert(bytes.subrange(o2, bytes.len() as int) =~= e_tables);
    lemma_parse_enc_tables(bytes, o2, d.tables);
}

/// Appends the bytes of a 64-bit count or length.
pub fn write_u64(out: &mut Vec<u8>, v: u64)
    ensures
        final(out)@ == old(out)@ + enc_u64(v),
{
    let mut bs = u64_to_le_bytes(v);
    out.append(&mut bs);
}

/// Appends the bytes of a 64-bit signed integer.
pub fn write_i64(out: &mut Vec<u8>, v: i64)
    ensures
        final(out)@ == old(out)@ + enc_i64(v),
{
    write_u64(out, v as u64);
}

/// Appends the bytes of a 32-bit integer.
pub fn write_u32(out: &mut Vec<u8>, v: u32)
    ensures
        final(out)@ == old(out)@ + enc_u32(v),
{
    let mut bs = u32_to_le_bytes(v);
    out.append(&mut bs);
}

/// Appends the bytes of a character.
pub fn write_char(out: &mut Vec<u8>, c: char)
    ensures
        final(out)@ == old(out)@ + enc_char(c),
{
    write_u32(out, c as u32);
}

/// Appends the bytes of a text.
pub fn write_str(out: &mut Vec<u8>, s: &str)
    ensures
        final(out)@ == old(out)@ + enc_str(s@),
        str_fits(s@),
{
    let ghost start = out@;
    let bs = s.as_bytes();
    write_u64(out, bs.len() as u64);
    out.extend_from_slice(bs);
    proof {
        assert(final(out)@ =~= start + enc_str(s@));
    }
}

/// The discriminant byte that precedes each value's payload, computed.
pub fn tag_byte_exec(t: DbType) -> (r: u8)
    ensures
        r == tag_byte(t),
{
    match t {
        DbType::Int => 0,
        DbType::Real => 1,
        DbType::Char => 2,
        DbType::Text => 3,
        DbType::ComplexReal => 4,
        DbType::ComplexInt => 5,
    }
}

/// The tag a discriminant byte stands for, computed.
pub fn tag_of_byte_exec(b: u8) -> (r: Option<DbType>)
    ensures
        r == tag_from_byte(b),
{
    if b == 0 {
        Option::Some(DbType::Int)
    } else if b == 1 {
        Option::Some(DbType::Real)
    } else if b == 2 {
        Option::Some(DbType::Char)
    } else if b == 3 {
        Option::Some(DbType::Text)
    } else if b == 4 {
        Option::Some(DbType::ComplexReal)
    } else if b == 5 {
        Option::Some(DbType::ComplexInt)
    } else {
        Option::None
    }
}

/// Appends the bytes of one value.
pub fn write_value(out: &mut Vec<u8>, v: &DbValue)
    ensures
        final(out)@ == old(out)@ + enc_value(v@),
        value_fits(v@),
{
    let ghost start = out@;
    match v {
        DbValue::Int(x) => {
            out.push(0);
            write_i64(out, *x);
        },
        DbValue::Real(x) => {
            out.push(1);
            write_u64(out, *x);
        },
        DbValue::Char(c) => {
            out.push(2);
            write_char(out, *c);
        },
        DbValue::Text(s) => {
            out.push(3);
            write_str(out, s.as_str());
        },
        DbValue::ComplexReal(p) => {
            out.push(4);
            write_u64(out, p.0);
            write_u64(out, p.1);
        },
        DbValue::ComplexInt(p) => {
            out.push(5);
            write_i64(out, p.0);
            write_i64(out, p.1);
        },
    }
    proof {
        assert(final(out)@ =~= start + enc_value(v@));
    }
}

/// Appends the bytes of a row.
pub fn write_row(out: &mut Vec<u8>, r: &Row)
    ensures
        final(out)@ == old(out)@ + enc_row(r@),
        row_fits(r@),
{
    let ghost start = out@;
    write_u64(out, r.0.len() as u64);
    let ghost head = start + enc_u64(r@.len() as u64);
    let mut i: usize = 0;
    while i < r.0.len()
        invariant
            i <= r.0@.len(),
            head == start + enc_u64(r@.len() as u64),
            out@ == head + enc_values(r@.subrange(0, i as int)),
            forall|q: int| 0 <= q < i ==> value_fits(#[trigger] r@[q]),
        decreases r.0@.len() - i,
    {
        write_value(out, &r.0[i]);
        proof {
            assert(r@.subrange(0, i as int).push(r@[i as int]) =~= r@.subrange(0, i + 1 as int));
            lemma_enc_values_push(r@.subrange(0, i as int), r@[i as int]);
            assert((head + enc_values(r@.subrange(0, i as int))) + enc_value(r@[i as int]) =~= head
                + enc_values(r@.subrange(0, i + 1 as int)));
        }
        i = i + 1;
    }
    proof {
        assert(r@.subrange(0, r@.len() as int) =~= r@);
        assert(out@ =~= start + enc_row(r@));
    }
}

/// Appends the bytes of a table.
pub fn write_table(out: &mut Vec<u8>, t: &Table)
    ensures
        final(out)@ == old(out)@ + enc_table(t@),
        table_fits(t@),
{
    let ghost start = out@;
    write_str(out, t.get_name());
    let schema = t.schema();
    write_u64(out, schema.len() as u64);
    let ghost head = start + enc_str(t@.name) + enc_u64(t@.schema.len() as u64);
    let mut i: usize = 0;
    while i < schema.len()
        invariant
            i <= schema@.len(),
            schema@ == t@.schema,
            head == start + enc_str(t@.name) + enc_u64(t@.schema.len() as u64),
            out@ == head + enc_tags(schema@.subrange(0, i as int)),
        decreases schema@.len() - i,
    {
        out.push(tag_byte_exec(schema[i]));
        proof {
            assert(schema@.subrange(0, i as int).push(schema@[i as int]) =~= schema@.subrange(
                0,
                i + 1 as int,
            ));
            lemma_enc_tags_push(schema@.subrange(0, i as int), schema@[i as int]);
            assert((head + enc_tags(schema@.subrange(0, i as int))).push(
                tag_byte(schema@[i as int]),
            ) =~= head + enc_tags(schema@.subrange(0, i + 1 as int)));
        }
        i = i + 1;
    }
    proof {
        assert(schema@.subrange(0, schema@.len() as int) =~= schema@);
    }
    let rows = t.rows();
    write_u64(out, rows.len() as u64);
    let ghost head2 = head + enc_tags(t@.schema) + enc_u64(t@.rows.len() as u64);
    let mut j: usize = 0;
    while j < rows.len()
        invariant
            j <= rows@.len(),
            rows_view(rows@) == t@.rows,
            head2 == start + enc_str(t@.name) + enc_u64(t@.schema.len() as u64) + enc_tags(
                t@.schema,
            ) + enc_u64(t@.rows.len() as u64),
            out@ == head2 + enc_rows(t@.rows.subrange(0, j as int)),
            forall|q: int| 0 <= q < j ==> row_fits(#[trigger] t@.rows[q]),
        decreases rows@.len() - j,
    {
        write_row(out, &rows[j]);
        proof {
            assert(rows[j as int]@ == t@.rows[j as int]);
            assert(t@.rows.subrange(0, j as int).push(t@.rows[j as int]) =~= t@.rows.subrange(
                0,
                j + 1 as int,
            ));
            lemma_enc_rows_push(t@.rows.subrange(0, j as int), t@.rows[j as int]);
            assert((head2 + enc_rows(t@.rows.subrange(0, j as int))) + enc_row(t@.rows[j as int])
                =~= head2 + enc_rows(t@.rows.subrange(0, j + 1 as int)));
        }
        j = j + 1;
    }
    proof {
        assert(t@.rows.subrange(0, t@.rows.len() as int) =~= t@.rows);
        assert(out@ =~= start + enc_table(t@));
    }
}

/// Reads a 64-bit count or length.
pub fn read_u64(bytes: &[u8], pos: usize) -> (r: Option<(u64, usize)>)
    ensures
        match r {
            Option::Some((v, p)) => parse_u64(bytes@, pos as int) == Option::Some((v, p as int)),
            Option::None => parse_u64(bytes@, pos as int) is None,
        },
{
    if pos <= bytes.len() && bytes.len() - pos >= 8 {
        let v = u64_from_le_bytes(slice_subrange(bytes, pos, pos + 8));
        Option::Some((v, pos + 8))
    } else {
        Option::None
    }
}

/// Reads a 64-bit signed integer.
pub fn read_i64(bytes: &[u8], pos: usize) -> (r: Option<(i64, usize)>)
    ensures
        match r {
            Option::Some((v, p)) => parse_i64(bytes@, pos as int) == Option::Some((v, p as int)),
            Option::None => parse_i64(bytes@, pos as int) is None,
        },
{
    match read_u64(bytes, pos) {
        Option::Some((u, p)) => Option::Some((u as i64, p)),
        Option::None => Option::None,
    }
}

/// Reads a 32-bit integer.
pub fn read_u32(bytes: &[u8], pos: usize) -> (r: Option<(u32, usize)>)
    ensures
        match r {
            Option::Some((v, p)) => parse_u32(bytes@, pos as int) == Option::Some((v, p as int)),
            Option::None => parse_u32(bytes@, pos as int) is None,
        },
{
    if pos <= bytes.len() && bytes.len() - pos >= 4 {
        let v = u32_from_le_bytes(slice_subrange(bytes, pos, pos + 4));
        Option::Some((v, pos + 4))
    } else {
        Option::None
    }
}

/// Reads a character.
pub fn read_char(bytes: &[u8], pos: usize) -> (r: Option<(char, usize)>)
    ensures
        match r {
            Option::Some((c, p)) => parse_char(bytes@, pos as int) == Option::Some((c, p as int)),
            Option::None => parse_char(bytes@, pos as int) is None,
        },
{
    match read_u32(bytes, pos) {
        Option::Some((u, p)) => match char::from_u32(u) {
            Option::Some(c) => {
                proof {
                    char_u32_cast(c, u);
                }
                Option::Some((c, p))
            },
            Option::None => Option::None,
        },
        Option::None => Option::None,
    }
}

/// Reads a text.
pub fn read_str(bytes: &[u8], pos: usize) -> (r: Option<(String, usize)>)
    ensures
        match r {
            Option::Some((s, p)) => parse_str(bytes@, pos as int) == Option::Some((s@, p as int)),
            Option::None => parse_str(bytes@, pos as int) is None,
        },
{
    match read_u64(bytes, pos) {
        Option::Some((len, p)) => {
            if len <= (bytes.len() - p) as u64 {
                let end = p + (len as usize);
                let sub = slice_subrange(bytes, p, end);
                match core::str::from_utf8(sub) {
                    Result::Ok(s) => {
                        proof {
                            encode_utf8_decode_utf8(s@);
                        }
                        Option::Some((s.to_owned(), end))
                    },
                    Result::Err(_) => Option::None,
                }
            } else {
                Option::None
            }
        },
        Option::None => Option::None,
    }
}

/// Reads one value.
pub fn read_value(bytes: &[u8], pos: usize) -> (r: Option<(DbValue, usize)>)
    ensures
        match r {
            Option::Some((v, p)) => parse_value(bytes@, pos as int) == Option::Some(
                (v@, p as int),
            ),
            Option::None => parse_value(bytes@, pos as int) is None,
        },
{
    if pos >= bytes.len() {
        return Option::None;
    }
    let b = *slice_index_get(bytes, pos);
    if b == 0 {
        match read_i64(bytes, pos + 1) {
            Option::Some((x, p)) => Option::Some((DbValue::Int(x), p)),
            Option::None => Option::None,
        }
    } else if b == 1 {
        match read_u64(bytes, pos + 1) {
            Option::Some((x, p)) => Option::Some((DbValue::Real(x), p)),
            Option::None => Option::None,
        }
    } else if b == 2 {
        match read_char(bytes, pos + 1) {
            Option::Some((c, p)) => Option::Some((DbValue::Char(c), p)),
            Option::None => Option::None,
        }
    } else if b == 3 {
        match read_str(bytes, pos + 1) {
            Option::Some((s, p)) => Option::Some((DbValue::Text(s), p)),
            Option::None => Option::None,
        }
    } else if b == 4 {
        match read_u64(bytes, pos + 1) {
            Option::Some((re, p1)) => match read_u64(bytes, p1) {
                Option::Some((im, p2)) => Option::Some((DbValue::ComplexReal((re, im)), p2)),
                Option::None => Option::None,
            },
            Option::None => Option::None,
        }
    } else if b == 5 {
        match read_i64(bytes, pos + 1) {
            Option::Some((re, p1)) => match read_i64(bytes, p1) {
                Option::Some((im, p2)) => Option::Some((DbValue::ComplexInt((re, im)), p2)),
                Option::None => Option::None,
            },
            Option::None => Option::None,
        }
    } else {
        Option::None
    }
}

/// Reads `count` values one after the other.
pub fn read_values(bytes: &[u8], pos: usize, count: u64) -> (r: Option<(Vec<DbValue>, usize)>)
    ensures
        match r {
            Option::Some((vs, p)) => parse_values(bytes@, pos as int, count as int)
                == Option::Some((vals_view(vs@), p as int)),
            Option::None => parse_values(bytes@, pos as int, count as int) is None,
        },
{
    let mut acc: Vec<DbValue> = Vec::new();
    let mut cur = pos;
    let mut i: u64 = 0;
    proof {
        assert(parse_values(bytes@, pos as int, count as int) matches Option::Some((vs, p))
            ==> vals_view(acc@) + vs =~= vs);
    }
    while i < count
        invariant
            i <= count,
            parse_values(bytes@, pos as int, count as int) == (match parse_values(
                bytes@,
                cur as int,
                count - i,
            ) {
                Option::Some((vs, p)) => Option::Some((vals_view(acc@) + vs, p)),
                Option::None => Option::<(Seq<ValueV>, int)>::None,
            }),
        decreases count - i,
    {
        match read_value(bytes, cur) {
            Option::Some((v, p)) => {
                let ghost prev = acc@;
                acc.push(v);
                proof {
                    assert(vals_view(acc@) =~= vals_view(prev) + seq![v@]);
                    assert(parse_values(bytes@, p as int, count - i - 1) matches Option::Some(
                        (vs2, p2),
                    ) ==> (vals_view(prev) + seq![v@]) + vs2 =~= vals_view(prev) + (seq![v@]
                        + vs2));
                }
                cur = p;
                i = i + 1;
            },
            Option::None => {
                return Option::None;
            },
        }
    }
    proof {
        assert(vals_view(acc@) + Seq::<ValueV>::empty() =~= vals_view(acc@));
    }
    Option::Some((acc, cur))
}

/// Reads a row.
pub fn read_row(bytes: &[u8], pos: usize) -> (r: Option<(Row, usize)>)
    ensures
        match r {
            Option::Some((row, p)) => parse_row(bytes@, pos as int) == Option::Some(
                (row@, p as int),
            ),
            Option::None => parse_row(bytes@, pos as int) is None,
        },
{
    match read_u64(bytes, pos) {
        Option::Some((n, p)) => match read_values(bytes, p, n) {
            Option::Some((vs, p2)) => Option::Some((Row(vs), p2)),
            Option::None => Option::None,
        },
        Option::None => Option::None,
    }
}

/// Reads `count` rows one after the other.
pub fn read_rows(bytes: &[u8], pos: usize, count: u64) -> (r: Option<(Vec<Row>, usize)>)
    ensures
        match r {
            Option::Some((rs, p)) => parse_rows(bytes@, pos as int, count as int) == Option::Some(
                (rows_view(rs@), p as int),
            ),
            Option::None => parse_rows(bytes@, pos as int, count as int) is None,
        },
{
    let mut acc: Vec<Row> = Vec::new();
    let mut cur = pos;
    let mut i: u64 = 0;
    proof {
        assert(parse_rows(bytes@, pos as int, count as int) matches Option::Some((rs, p))
            ==> rows_view(acc@) + rs =~= rs);
    }
    while i < count
        invariant
            i <= count,
            parse_rows(bytes@, pos as int, count as int) == (match parse_rows(
                bytes@,
                cur as int,
                count - i,
            ) {
                Option::Some((rs, p)) => Option::Some((rows_view(acc@) + rs, p)),
                Option::None => Option::<(Seq<Seq<ValueV>>, int)>::None,
            }),
        decreases count - i,
    {
        match read_row(bytes, cur) {
            Option::Some((row, p)) => {
                let ghost prev = acc@;
                acc.push(row);
                proof {
                    assert(rows_view(acc@) =~= rows_view(prev) + seq![row@]);
                    assert(parse_rows(bytes@, p as int, count - i - 1) matches Option::Some(
                        (rs2, p2),
                    ) ==> (rows_view(prev) + seq![row@]) + rs2 =~= rows_view(prev) + (seq![row@]
                        + rs2));
                }
                cur = p;
                i = i + 1;
            },
            Option::None => {
                return Option::None;
            },
        }
    }
    proof {
        assert(rows_view(acc@) + Seq::<Seq<ValueV>>::empty() =~= rows_view(acc@));
    }
    Option::Some((acc, cur))
}

/// Reads `count` discriminant bytes as a schema.
pub fn read_tags(bytes: &[u8], pos: usize, count: u64) -> (r: Option<(Vec<DbType>, usize)>)
    ensures
        match r {
            Option::Some((s, p)) => parse_tags(bytes@, pos as int, count as int) == Option::Some(
                (s@, p as int),
            ),
            Option::None => parse_tags(bytes@, pos as int, count as int) is None,
        },
{
    let mut acc: Vec<DbType> = Vec::new();
    let mut cur = pos;
    let mut i: u64 = 0;
    proof {
        assert(parse_tags(bytes@, pos as int, count as int) matches Option::Some((s, p)) ==> acc@
            + s =~= s);
    }
    while i < count
        invariant
            i <= count,
            parse_tags(bytes@, pos as int, count as int) == (match parse_tags(
                bytes@,
                cur as int,
                count - i,
            ) {
                Option::Some((s, p)) => Option::Some((acc@ + s, p)),
                Option::None => Option::<(Seq<DbType>, int)>::None,
            }),
        decreases count - i,
    {
        if cur >= bytes.len() {
            return Option::None;
        }
        let b = *slice_index_get(bytes, cur);
        match tag_of_byte_exec(b) {
            Option::Some(t) => {
                let ghost prev = acc@;
                acc.push(t);
                proof {
                    assert(acc@ =~= prev + seq![t]);
                    assert(parse_tags(bytes@, cur + 1, count - i - 1) matches Option::Some(
                        (s2, p2),
                    ) ==> (prev + seq![t]) + s2 =~= prev + (seq![t] + s2));
                }
                cur = cur + 1;
                i = i + 1;
            },
            Option::None => {
                return Option::None;
            },
        }
    }
    proof {
        assert(acc@ + Seq::<DbType>::empty() =~= acc@);
    }
    Option::Some((acc, cur))
}

/// Reads a table.
pub fn read_table(bytes: &[u8], pos: usize) -> (r: Option<(Table, usize)>)
    ensures
        match r {
            Option::Some((t, p)) => parse_table(bytes@, pos as int) == Option::Some(
                (t@, p as int),
            ),
            Option::None => parse_table(bytes@, pos as int) is None,
        },
{
    match read_str(bytes, pos) {
        Option::Some((name, p1)) => match read_u64(bytes, p1) {
            Option::Some((sc, p2)) => match read_tags(bytes, p2, sc) {
                Option::Some((schema, p3)) => match read_u64(bytes, p3) {
                    Option::Some((rc, p4)) => match read_rows(bytes, p4, rc) {
                        Option::Some((rows, p5)) => {
                            let t = Table::from_parts(name, schema, rows);
                            Option::Some((t, p5))
                        },
                        Option::None => Option::None,
                    },
                    Option::None => Option::None,
                },
                Option::None => Option::None,
            },
            Option::None => Option::None,
        },
        Option::None => Option::None,
    }
}

} // verus!
