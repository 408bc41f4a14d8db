//! A total order on values, used to sort a table's rows.
//!
//! Values of different tags are ordered by tag, in the declaration order of
//! [`DbType`]. Values of the same tag compare by their payload: integers and
//! characters naturally, text lexicographically by character, floats by a
//! monotone rearrangement of their IEEE-754 bit patterns, and complex pairs
//! lexicographically on (real, imaginary).

use vstd::prelude::*;
use crate::types::{DbType, DbValue, ValueV, tag_of};

verus! {

/// Position of a tag in the cross-tag order.
pub open spec fn tag_rank(t: DbType) -> int {
    match t {
        DbType::Int => 0,
        DbType::Real => 1,
        DbType::Char => 2,
        DbType::Text => 3,
        DbType::ComplexReal => 4,
        DbType::ComplexInt => 5,
    }
}

/// Maps a 64-bit float's bit pattern to a key whose unsigned order agrees
/// with the numeric order of the floats (the sign bit is flipped for
/// non-negative patterns, and negative patterns are complemented).
pub open spec fn real_key(bits: u64) -> u64 {
    if bits >= 0x8000_0000_0000_0000 {
        !bits
    } else {
        (bits + 0x8000_0000_0000_0000) as u64
    }
}

/// Two distinct bit patterns get distinct keys.
pub proof fn lemma_real_key_inj(a: u64, b: u64)
    requires
        real_key(a) == real_key(b),
    ensures
        a == b,
{
    assert((if a >= 0x8000_0000_0000_0000u64 {
        !a
    } else {
        (a + 0x8000_0000_0000_0000u64) as u64
    }) == (if b >= 0x8000_0000_0000_0000u64 {
        !b
    } else {
        (b + 0x8000_0000_0000_0000u64) as u64
    }) ==> a == b) by (bit_vector);
}

/// Lexicographic order on character sequences.
pub open spec fn str_le(a: Seq<char>, b: Seq<char>) -> bool
    decreases a.len(),
{
    if a.len() == 0 {
        true
    } else if b.len() == 0 {
        false
    } else if a[0] != b[0] {
        (a[0] as u32) < (b[0] as u32)
    } else {
        str_le(a.drop_first(), b.drop_first())
    }
}

pub proof fn lemma_str_le_total(a: Seq<char>, b: Seq<char>)
    ensures
        str_le(a, b) || str_le(b, a),
    decreases a.len(),
{
    if a.len() == 0 || b.len() == 0 {
    } else if a[0] != b[0] {
        vstd::utf8::char_u32_cast(a[0], a[0] as u32);
        vstd::utf8::char_u32_cast(b[0], b[0] as u32);
        assert((a[0] as u32) != (b[0] as u32));
    } else {
        lemma_str_le_total(a.drop_first(), b.drop_first());
    }
}

pub proof fn lemma_str_le_antisym(a: Seq<char>, b: Seq<char>)
    requires
        str_le(a, b),
        str_le(b, a),
    ensures
        a == b,
    decreases a.len(),
{
    if a.len() == 0 {
        assert(b.len() == 0);
        assert(a =~= b);
    } else {
        assert(b.len() > 0);
        assert(a[0] == b[0]);
        lemma_str_le_antisym(a.drop_first(), b.drop_first());
        assert forall|i: int| 0 <= i < a.len() implies a[i] == b[i] by {
            if i > 0 {
                assert(a[i] == a.drop_first()[i - 1]);
                assert(b[i] == b.drop_first()[i - 1]);
            }
        }
        assert(a =~= b);
    }
}

pub proof fn lemma_str_le_trans(a: Seq<char>, b: Seq<char>, c: Seq<char>)
    requires
        str_le(a, b),
        str_le(b, c),
    ensures
        str_le(a, c),
    decreases a.len(),
{
    if a.len() == 0 {
    } else {
        assert(b.len() > 0);
        assert(c.len() > 0);
        if a[0] == b[0] && b[0] == c[0] {
            lemma_str_le_trans(a.drop_first(), b.drop_first(), c.drop_first());
        } else {
            vstd::utf8::char_u32_cast(a[0], a[0] as u32);
            vstd::utf8::char_u32_cast(b[0], b[0] as u32);
            vstd::utf8::char_u32_cast(c[0], c[0] as u32);
        }
    }
}

/// The comparator contract: `a` sorts at or before `b`.
pub open spec fn val_le(a: ValueV, b: ValueV) -> bool {
    if tag_rank(tag_of(a)) != tag_rank(tag_of(b)) {
        tag_rank(tag_of(a)) < tag_rank(tag_of(b))
    } else {
        match (a, b) {
            (ValueV::Int(x), ValueV::Int(y)) => x <= y,
            (ValueV::Real(x), ValueV::Real(y)) => real_key(x) <= real_key(y),
            (ValueV::Char(x), ValueV::Char(y)) => (x as u32) <= (y as u32),
            (ValueV::Text(x), ValueV::Text(y)) => str_le(x, y),
            (ValueV::ComplexReal(x), ValueV::ComplexReal(y)) => real_key(x.0) < real_key(y.0)
                || (real_key(x.0) == real_key(y.0) && real_key(x.1) <= real_key(y.1)),
            (ValueV::ComplexInt(x), ValueV::ComplexInt(y)) => x.0 < y.0 || (x.0 == y.0 && x.1
                <= y.1),
            _ => true,
        }
    }
}

/// Any two values are comparable.
pub proof fn lemma_val_le_total(a: ValueV, b: ValueV)
    ensures
        val_le(a, b) || val_le(b, a),
{
    if tag_rank(tag_of(a)) == tag_rank(tag_of(b)) {
        match (a, b) {
            (ValueV::Char(x), ValueV::Char(y)) => {
                vstd::utf8::char_u32_cast(x, x as u32);
                vstd::utf8::char_u32_cast(y, y as u32);
            },
            (ValueV::Text(x), ValueV::Text(y)) => {
                lemma_str_le_total(x, y);
            },
            _ => {},
        }
    }
}

/// Values that compare at-or-before each other both ways are equal.
pub proof fn lemma_val_le_antisym(a: ValueV, b: ValueV)
    requires
        val_le(a, b),
        val_le(b, a),
    ensures
        a == b,
{
    assert(tag_rank(tag_of(a)) == tag_rank(tag_of(b)));
    match (a, b) {
        (ValueV::Real(x), ValueV::Real(y)) => {
            lemma_real_key_inj(x, y);
        },
        (ValueV::Char(x), ValueV::Char(y)) => {
            vstd::utf8::char_u32_cast(x, x as u32);
            vstd::utf8::char_u32_cast(y, y as u32);
        },
        (ValueV::Text(x), ValueV::Text(y)) => {
            lemma_str_le_antisym(x, y);
        },
        (ValueV::ComplexReal(x), ValueV::ComplexReal(y)) => {
            lemma_real_key_inj(x.0, y.0);
            lemma_real_key_inj(x.1, y.1);
            assert(x.0 == y.0 && x.1 == y.1);
            assert(x =~= y);
        },
        (ValueV::ComplexInt(x), ValueV::ComplexInt(y)) => {
            assert(x =~= y);
        },
        _ => {},
    }
}

/// The order is transitive.
pub proof fn lemma_val_le_trans(a: ValueV, b: ValueV, c: ValueV)
    requires
        val_le(a, b),
        val_le(b, c),
    ensures
        val_le(a, c),
{
    let ra = tag_rank(tag_of(a));
    let rb = tag_rank(tag_of(b));
    let rc = tag_rank(tag_of(c));
    if ra == rb && rb == rc {
        match (a, b, c) {
            (ValueV::Text(x), ValueV::Text(y), ValueV::Text(z)) => {
                lemma_str_le_trans(x, y, z);
            },
            _ => {},
        }
    }
}

/// Position of a tag in the cross-tag order, computed.
pub fn tag_rank_exec(t: DbType) -> (r: u8)
    ensures
        r as int == tag_rank(t),
{
    match t {
        DbType::Int => 0,
        DbType::Real => 1,
        DbType::Char => 2,
        DbType::Text => 3,
        DbType::ComplexReal => 4,
        DbType::ComplexInt => 5,
    }
}

/// Sort key of a float's bit pattern, computed.
pub fn real_key_exec(bits: u64) -> (r: u64)
    ensures
        r == real_key(bits),
{
    if bits >= 0x8000_0000_0000_0000 {
        !bits
    } else {
        bits + 0x8000_0000_0000_0000
    }
}

/// Lexicographic comparison of two strings, character by character.
pub fn str_le_exec(a: &str, b: &str) -> (r: bool)
    ensures
        r == str_le(a@, b@),
{
    let alen = a.unicode_len();
    let blen = b.unicode_len();
    let mut i: usize = 0;
    proof {
        assert(a@.skip(0) =~= a@);
        assert(b@.skip(0) =~= b@);
    }
    loop
        invariant
            i <= alen,
            i <= blen,
            alen == a@.len(),
            blen == b@.len(),
            str_le(a@, b@) == str_le(a@.skip(i as int), b@.skip(i as int)),
        decreases alen - i,
    {
        if i >= alen {
            assert(a@.skip(i as int).len() == 0);
            return true;
        }
        if i >= blen {
            assert(b@.skip(i as int).len() == 0);
            assert(a@.skip(i as int).len() > 0);
            return false;
        }
        let ca = a.get_char(i);
        let cb = b.get_char(i);
        proof {
            assert(a@.skip(i as int)[0] == a@[i as int]);
            assert(b@.skip(i as int)[0] == b@[i as int]);
        }
        if ca != cb {
            return (ca as u32) < (cb as u32);
        }
        proof {
            assert(a@.skip(i as int).drop_first() =~= a@.skip(i as int + 1));
            assert(b@.skip(i as int).drop_first() =~= b@.skip(i as int + 1));
        }
        i = i + 1;
    }
}

/// Comparison of two values under the comparator contract.
pub fn value_le(a: &DbValue, b: &DbValue) -> (r: bool)
    ensures
        r == val_le(a@, b@),
{
    let ra = tag_rank_exec(a.get_type());
    let rb = tag_rank_exec(b.get_type());
    if ra != rb {
        return ra < rb;
    }
    match (a, b) {
        (DbValue::Int(x), DbValue::Int(y)) => *x <= *y,
        (DbValue::Real(x), DbValue::Real(y)) => real_key_exec(*x) <= real_key_exec(*y),
        (DbValue::Char(x), DbValue::Char(y)) => (*x as u32) <= (*y as u32),
        (DbValue::Text(x), DbValue::Text(y)) => str_le_exec(x.as_str(), y.as_str()),
        (DbValue::ComplexReal(x), DbValue::ComplexReal(y)) => {
            let kx0 = real_key_exec(x.0);
            let ky0 = real_key_exec(y.0);
            kx0 < ky0 || (kx0 == ky0 && real_key_exec(x.1) <= real_key_exec(y.1))
        },
        (DbValue::ComplexInt(x), DbValue::ComplexInt(y)) => {
            x.0 < y.0 || (x.0 == y.0 && x.1 <= y.1)
        },
        _ => true,
    }
}

} // verus!
