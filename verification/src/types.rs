//! The value model: type tags, tagged values, rows, and the error kinds the
//! store surfaces.

use vstd::prelude::*;
use vstd::pervasive::unreached;
use vstd::utf8::{
    encode_utf8, encode_utf8_decode_utf8, encode_utf8_valid_utf8, is_ascii_chars,
    is_ascii_chars_encode_utf8,
};

verus! {

/// Discriminant identifying which variant a [`DbValue`] holds. A table's
/// schema is an ordered sequence of these tags.
#[derive(Debug, Copy, PartialEq, Eq, Structural)]
pub enum DbType {
    Int,
    Real,
    Char,
    Text,
    ComplexReal,
    ComplexInt,
}

impl Clone for DbType {
    fn clone(&self) -> (r: Self)
        ensures
            r == *self,
    {
        *self
    }
}

/// The mathematical value of a cell: each payload as a plain value, text as
/// its character sequence. This is the type that contracts speak of.
pub enum ValueV {
    Int(i64),
    Real(u64),
    Char(char),
    Text(Seq<char>),
    ComplexReal((u64, u64)),
    ComplexInt((i64, i64)),
}

/// The tag of a value.
pub open spec fn tag_of(v: ValueV) -> DbType {
    match v {
        ValueV::Int(_) => DbType::Int,
        ValueV::Real(_) => DbType::Real,
        ValueV::Char(_) => DbType::Char,
        ValueV::Text(_) => DbType::Text,
        ValueV::ComplexReal(_) => DbType::ComplexReal,
        ValueV::ComplexInt(_) => DbType::ComplexInt,
    }
}

/// A single tagged value, one variant per [`DbType`].
///
/// `Real` carries the IEEE-754 bit pattern of a 64-bit float, and the members
/// of a `ComplexReal` pair do likewise; callers convert at the boundary with
/// `f64::to_bits` / `f64::from_bits`. Keeping the raw bits lets the store
/// order and persist such values exactly.
#[derive(Debug, PartialEq)]
pub enum DbValue {
    Int(i64),
    Real(u64),
    Char(char),
    Text(String),
    ComplexReal((u64, u64)),
    ComplexInt((i64, i64)),
}

/// A complex number with 64-bit float components, as two bit patterns.
pub type ComplexReal = (u64, u64);

/// A complex number with 64-bit integer components.
pub type ComplexInt = (i64, i64);

impl View for DbValue {
    type V = ValueV;

    open spec fn view(&self) -> ValueV {
        match self {
            DbValue::Int(x) => ValueV::Int(*x),
            DbValue::Real(x) => ValueV::Real(*x),
            DbValue::Char(x) => ValueV::Char(*x),
            DbValue::Text(s) => ValueV::Text(s@),
            DbValue::ComplexReal(p) => ValueV::ComplexReal(*p),
            DbValue::ComplexInt(p) => ValueV::ComplexInt(*p),
        }
    }
}

impl Clone for DbValue {
    fn clone(&self) -> (r: Self)
        ensures
            r@ == self@,
    {
        match self {
            DbValue::Int(x) => DbValue::Int(*x),
            DbValue::Real(x) => DbValue::Real(*x),
            DbValue::Char(x) => DbValue::Char(*x),
            DbValue::Text(s) => DbValue::Text(s.clone()),
            DbValue::ComplexReal(p) => DbValue::ComplexReal(*p),
            DbValue::ComplexInt(p) => DbValue::ComplexInt(*p),
        }
    }
}

impl DbValue {
    /// The tag of this value's variant.
    pub fn get_type(&self) -> (t: DbType)
        ensures
            t == tag_of(self@),
    {
        match self {
            DbValue::Int(_) => DbType::Int,
            DbValue::Real(_) => DbType::Real,
            DbValue::Char(_) => DbType::Char,
            DbValue::Text(_) => DbType::Text,
            DbValue::ComplexReal(_) => DbType::ComplexReal,
            DbValue::ComplexInt(_) => DbType::ComplexInt,
        }
    }

    /// The value rendered as text: integers in decimal, a character as
    /// itself, text verbatim, a complex integer as `re + imi` or
    /// `re - |im|i`. The float-carrying variants give `None`: rendering an
    /// IEEE-754 bit pattern in decimal is floating-point work, which callers
    /// do at the boundary from `f64::from_bits`.
    pub fn display_string(&self) -> (r: Option<String>)
        ensures
            match r {
                Option::Some(s) => val_display(self@) == Option::Some(s@),
                Option::None => val_display(self@) is None,
            },
    {
        match self {
            DbValue::Int(x) => Option::Some(i64_dec_string(*x)),
            DbValue::Real(_) => Option::None,
            DbValue::Char(c) => Option::Some(char_to_string(*c)),
            DbValue::Text(s) => Option::Some(s.clone()),
            DbValue::ComplexReal(_) => Option::None,
            DbValue::ComplexInt(p) => {
                let mut s = i64_dec_string(p.0);
                if p.1 >= 0 {
                    s.append(" + ");
                    let im = dec_byte_digits(p.1 as u64);
                    s.append(ascii_string(&im).as_str());
                } else {
                    s.append(" - ");
                    let im = dec_byte_digits(i64_magnitude(p.1));
                    s.append(ascii_string(&im).as_str());
                }
                s.append("i");
                proof {
                    reveal_strlit(" + ");
                    reveal_strlit(" - ");
                    reveal_strlit("i");
                    assert(" + "@ =~= seq![' ', '+', ' ']);
                    assert(" - "@ =~= seq![' ', '-', ' ']);
                    assert("i"@ =~= seq!['i']);
                    assert(s@ =~= complex_int_str(p.0 as int, p.1 as int));
                }
                Option::Some(s)
            },
        }
    }
}

/// The decimal digit `d` as a character.
pub open spec fn digit_char(d: int) -> char
    recommends
        0 <= d <= 9,
{
    ((48 + d) as u8) as char
}

/// The decimal digits of a non-negative number, most significant first.
pub open spec fn dec_digits(n: int) -> Seq<char>
    recommends
        n >= 0,
    decreases n,
{
    if n < 10 {
        seq![digit_char(n)]
    } else {
        dec_digits(n / 10).push(digit_char(n % 10))
    }
}

/// A signed number as decimal text.
pub open spec fn int_str(v: int) -> Seq<char> {
    if v < 0 {
        seq!['-'] + dec_digits(-v)
    } else {
        dec_digits(v)
    }
}

/// A complex integer as text: `re + imi` when the imaginary part is not
/// negative, else `re - |im|i`.
pub open spec fn complex_int_str(re: int, im: int) -> Seq<char> {
    if im >= 0 {
        int_str(re) + seq![' ', '+', ' '] + dec_digits(im) + seq!['i']
    } else {
        int_str(re) + seq![' ', '-', ' '] + dec_digits(-im) + seq!['i']
    }
}

/// The characters that a sequence of ASCII bytes spells.
pub open spec fn byte_chars(bs: Seq<u8>) -> Seq<char> {
    Seq::new(bs.len(), |i: int| bs[i] as char)
}

/// How a value renders as text, where rendering is exact integer, character
/// and text work. The float-carrying variants render `None`: turning an
/// IEEE-754 bit pattern into decimal text is floating-point work, which
/// callers do at the boundary from `f64::from_bits`.
pub open spec fn val_display(v: ValueV) -> Option<Seq<char>> {
    match v {
        ValueV::Int(x) => Option::Some(int_str(x as int)),
        ValueV::Real(_) => Option::None,
        ValueV::Char(c) => Option::Some(seq![c]),
        ValueV::Text(s) => Option::Some(s),
        ValueV::ComplexReal(_) => Option::None,
        ValueV::ComplexInt(p) => Option::Some(complex_int_str(p.0 as int, p.1 as int)),
    }
}

/// The ASCII digit bytes of `mag`, most significant first.
fn dec_byte_digits(mag: u64) -> (bytes: Vec<u8>)
    ensures
        byte_chars(bytes@) == dec_digits(mag as int),
        forall|i: int| 0 <= i < bytes@.len() ==> 48 <= #[trigger] bytes@[i] <= 57,
{
    let mut bytes: Vec<u8> = Vec::new();
    if mag == 0 {
        bytes.push(48);
        proof {
            assert(byte_chars(bytes@) =~= dec_digits(0));
        }
        return bytes;
    }
    let mut m = mag;
    while m > 0
        invariant
            m > 0 ==> dec_digits(mag as int) == dec_digits(m as int) + byte_chars(bytes@),
            m == 0 ==> dec_digits(mag as int) == byte_chars(bytes@),
            forall|i: int| 0 <= i < bytes@.len() ==> 48 <= #[trigger] bytes@[i] <= 57,
        decreases m,
    {
        let ghost before = bytes@;
        let ghost m0 = m as int;
        let d = (m % 10) as u8;
        bytes.insert(0, 48 + d);
        m = m / 10;
        proof {
            assert(byte_chars(bytes@) =~= seq![digit_char(m0 % 10)] + byte_chars(before));
            if m0 >= 10 {
                assert(dec_digits(m0) == dec_digits(m0 / 10).push(digit_char(m0 % 10)));
                assert(dec_digits(m0 / 10).push(digit_char(m0 % 10)) + byte_chars(before)
                    =~= dec_digits(m0 / 10) + (seq![digit_char(m0 % 10)] + byte_chars(before)));
            } else {
                assert(dec_digits(m0) == seq![digit_char(m0)]);
                assert(seq![digit_char(m0)] + byte_chars(before) =~= byte_chars(bytes@));
            }
        }
    }
    proof {
        assert(dec_digits(mag as int) =~= byte_chars(bytes@));
    }
    bytes
}

/// A string spelled from ASCII bytes.
fn ascii_string(bytes: &Vec<u8>) -> (r: String)
    requires
        forall|i: int| 0 <= i < bytes@.len() ==> #[trigger] bytes@[i] < 128,
    ensures
        r@ == byte_chars(bytes@),
{
    let ghost chars = byte_chars(bytes@);
    proof {
        assert forall|i: int| 0 <= i < chars.len() implies '\0' <= #[trigger] chars[i]
            <= '\u{7f}' by {
            assert(chars[i] == bytes@[i] as char);
        }
        assert(is_ascii_chars(chars));
        is_ascii_chars_encode_utf8(chars);
        assert(encode_utf8(chars) =~= bytes@);
        encode_utf8_valid_utf8(chars);
    }
    match core::str::from_utf8(bytes.as_slice()) {
        Result::Ok(s) => {
            proof {
                encode_utf8_decode_utf8(s@);
                encode_utf8_decode_utf8(chars);
            }
            s.to_owned()
        },
        Result::Err(_) => unreached(),
    }
}

/// Relies on char's `Display` through `ToString`: the string holding just
/// that one character.
#[verifier::external_body]
fn char_to_string(c: char) -> (r: String)
    ensures
        r@ == seq![c],
{
    c.to_string()
}

/// The magnitude of a negative number, which fits a `u64` even at the lower
/// end of the `i64` range.
fn i64_magnitude(v: i64) -> (m: u64)
    requires
        v < 0,
    ensures
        m as int == -(v as int),
{
    ((-(v + 1)) as u64) + 1
}

/// A signed number as decimal text.
fn i64_dec_string(v: i64) -> (r: String)
    ensures
        r@ == int_str(v as int),
{
    if v < 0 {
        let mut bytes = dec_byte_digits(i64_magnitude(v));
        bytes.insert(0, 45);
        proof {
            assert(byte_chars(bytes@) =~= seq!['-'] + dec_digits(-(v as int)));
        }
        ascii_string(&bytes)
    } else {
        let bytes = dec_byte_digits(v as u64);
        ascii_string(&bytes)
    }
}

/// The schema of a row: each value's tag, in order.
pub open spec fn schema_of(r: Seq<ValueV>) -> Seq<DbType> {
    r.map_values(|v: ValueV| tag_of(v))
}

/// The sequence of value models held by a sequence of values.
pub open spec fn vals_view(vs: Seq<DbValue>) -> Seq<ValueV> {
    Seq::new(vs.len(), |i: int| vs[i]@)
}

/// An ordered sequence of values.
#[derive(Debug, PartialEq)]
pub struct Row(pub Vec<DbValue>);

impl View for Row {
    type V = Seq<ValueV>;

    open spec fn view(&self) -> Seq<ValueV> {
        vals_view(self.0@)
    }
}

impl Clone for Row {
    fn clone(&self) -> (r: Self)
        ensures
            r@ == self@,
    {
        let r = Row(self.0.clone());
        proof {
            assert(r@ =~= self@);
        }
        r
    }
}

impl Row {
    /// The value at `idx`, or `IndexOutOfBounds` when `idx` is past the end.
    pub fn get(&self, idx: usize) -> (r: Result<DbValue, DbError>)
        ensures
            idx < self@.len() ==> (r matches Ok(v) && v@ == self@[idx as int]),
            idx >= self@.len() ==> (r matches Err(e) && e == DbError::IndexOutOfBounds),
    {
        if idx < self.0.len() {
            Ok(self.0[idx].clone())
        } else {
            Err(DbError::IndexOutOfBounds)
        }
    }

    /// The row's schema: the tag of each value, in order.
    pub fn schema(&self) -> (s: Vec<DbType>)
        ensures
            s@ == schema_of(self@),
    {
        let mut s: Vec<DbType> = Vec::new();
        let mut i: usize = 0;
        while i < self.0.len()
            invariant
                i <= self.0.len(),
                s@.len() == i,
                forall|q: int| 0 <= q < i ==> s@[q] == tag_of(self@[q]),
            decreases self.0.len() - i,
        {
            s.push(self.0[i].get_type());
            i = i + 1;
        }
        proof {
            assert(s@ =~= schema_of(self@));
        }
        s
    }
}

/// The error kinds the store surfaces. Structural failures leave the store
/// unchanged; `Io` and `Serde` wrap a description of what went wrong at the
/// byte or file boundary.
#[derive(Debug, PartialEq)]
pub enum DbError {
    Io(String),
    Serde(String),
    IncorrectRow,
    TableIsAlreadyPresent(String),
    TableIsMissing(String),
    InvalidTableState(String),
    IndexOutOfBounds,
}

} // verus!
