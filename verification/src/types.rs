//! Values, column types and their logical order.

use vstd::prelude::*;
use vstd::utf8::{encode_utf8, valid_utf8};

use crate::bytes::lex_lt;

verus! {

/// The type of a column.
#[derive(Clone, Copy, Debug, PartialEq, Eq, Structural)]
pub enum ColumnType {
    Bool,
    Int,
    BigInt,
    Double,
    /// Text of at most so many characters.
    Varchar(u16),
}

/// A value of a column. A double is held by its IEEE-754 bits.
#[derive(Debug, PartialEq, Eq)]
pub enum Value {
    Null,
    Bool(bool),
    Int(i32),
    BigInt(i64),
    Double(u64),
    Text(String),
}

/// What a value is.
pub ghost enum ValueView {
    Null,
    Bool(bool),
    Int(i32),
    BigInt(i64),
    Double(u64),
    Text(Seq<char>),
}

impl View for Value {
    type V = ValueView;

    open spec fn view(&self) -> ValueView {
        match self {
            Value::Null => ValueView::Null,
            Value::Bool(b) => ValueView::Bool(*b),
            Value::Int(i) => ValueView::Int(*i),
            Value::BigInt(i) => ValueView::BigInt(*i),
            Value::Double(d) => ValueView::Double(*d),
            Value::Text(s) => ValueView::Text(s@),
        }
    }
}

/// What a list of values is.
pub open spec fn views(vs: Seq<Value>) -> Seq<ValueView> {
    vs.map_values(|v: Value| v@)
}

impl Clone for Value {
    fn clone(&self) -> (v: Value)
        ensures
            v@ == self@,
    {
        match self {
            Value::Null => Value::Null,
            Value::Bool(b) => Value::Bool(*b),
            Value::Int(i) => Value::Int(*i),
            Value::BigInt(i) => Value::BigInt(*i),
            Value::Double(d) => Value::Double(*d),
            Value::Text(s) => Value::Text(s.clone()),
        }
    }
}

impl Value {
    pub fn is_null(&self) -> (r: bool)
        ensures
            r == (self@ == ValueView::Null),
    {
        match self {
            Value::Null => true,
            _ => false,
        }
    }

    /// Is this the same value as `other`?
    pub fn same(&self, other: &Value) -> (r: bool)
        ensures
            r == (self@ == other@),
    {
        match (self, other) {
            (Value::Null, Value::Null) => true,
            (Value::Bool(a), Value::Bool(b)) => *a == *b,
            (Value::Int(a), Value::Int(b)) => *a == *b,
            (Value::BigInt(a), Value::BigInt(b)) => *a == *b,
            (Value::Double(a), Value::Double(b)) => *a == *b,
            (Value::Text(a), Value::Text(b)) => *a == *b,
            _ => false,
        }
    }
}

/// A copy of a list of values.
pub fn copy_values(vs: &Vec<Value>) -> (r: Vec<Value>)
    ensures
        views(r@) == views(vs@),
{
    let mut r: Vec<Value> = Vec::new();
    let mut i: usize = 0;
    while i < vs.len()
        invariant
            i <= vs@.len(),
            views(r@) == views(vs@.take(i as int)),
        decreases vs.len() - i,
    {
        let ghost before = r@;
        let v: Value = vs[i].clone();
        r.push(v);
        proof {
            assert(vs@.take(i + 1) =~= vs@.take(i as int).push(vs@[i as int]));
            assert(views(vs@.take(i + 1)) =~= views(vs@.take(i as int)).push(vs@[i as int]@));
            assert(views(r@) =~= views(before).push(v@));
        }
        i = i + 1;
    }
    assert(vs@.take(i as int) =~= vs@);
    r
}

/// The value may stand in a column of the type: it is null or of that type.
pub open spec fn fits_type(ty: ColumnType, v: ValueView) -> bool {
    match v {
        ValueView::Null => true,
        ValueView::Bool(_) => ty == ColumnType::Bool,
        ValueView::Int(_) => ty == ColumnType::Int,
        ValueView::BigInt(_) => ty == ColumnType::BigInt,
        ValueView::Double(_) => ty == ColumnType::Double,
        ValueView::Text(_) => ty is Varchar,
    }
}

/// The rank of a double among all doubles, by its bits: negative ones below
/// positive ones, and among the negative ones greater magnitude first.
pub open spec fn double_rank(bits: u64) -> u64 {
    if bits < 0x8000_0000_0000_0000 {
        (bits + 0x8000_0000_0000_0000) as u64
    } else {
        (0xFFFF_FFFF_FFFF_FFFF - bits) as u64
    }
}

/// The double with a given rank.
pub open spec fn double_at(rank: u64) -> u64 {
    if rank >= 0x8000_0000_0000_0000 {
        (rank - 0x8000_0000_0000_0000) as u64
    } else {
        (0xFFFF_FFFF_FFFF_FFFF - rank) as u64
    }
}

/// The logical order of values of one type: null below everything, `false` below
/// `true`, numbers by size, doubles by the IEEE total order, text by its bytes.
pub open spec fn value_lt(a: ValueView, b: ValueView) -> bool {
    match (a, b) {
        (_, ValueView::Null) => false,
        (ValueView::Null, _) => true,
        (ValueView::Bool(x), ValueView::Bool(y)) => !x && y,
        (ValueView::Int(x), ValueView::Int(y)) => x < y,
        (ValueView::BigInt(x), ValueView::BigInt(y)) => x < y,
        (ValueView::Double(x), ValueView::Double(y)) => double_rank(x) < double_rank(y),
        (ValueView::Text(x), ValueView::Text(y)) => lex_lt(encode_utf8(x), encode_utf8(y)),
        _ => false,
    }
}

/// The IEEE total-order transform: an integer that orders as the double does.
pub fn f64_total_order_bits(bits: u64) -> (ordered: u64)
    ensures
        ordered == double_rank(bits),
{
    if bits & 0x8000_0000_0000_0000 != 0 {
        proof {
            assert(bits & 0x8000_0000_0000_0000 != 0 ==> bits >= 0x8000_0000_0000_0000 && !bits
                == (0xFFFF_FFFF_FFFF_FFFFu64 - bits)) by (bit_vector);
        }
        !bits
    } else {
        proof {
            assert(bits & 0x8000_0000_0000_0000 == 0 ==> bits < 0x8000_0000_0000_0000 && bits
                ^ 0x8000_0000_0000_0000 == bits + 0x8000_0000_0000_0000) by (bit_vector);
        }
        bits ^ 0x8000_0000_0000_0000
    }
}

/// Inverse of [`f64_total_order_bits`].
pub fn f64_from_total_order_bits(ordered: u64) -> (bits: u64)
    ensures
        bits == double_at(ordered),
{
    if ordered & 0x8000_0000_0000_0000 != 0 {
        proof {
            assert(ordered & 0x8000_0000_0000_0000 != 0 ==> ordered >= 0x8000_0000_0000_0000
                && ordered ^ 0x8000_0000_0000_0000 == ordered - 0x8000_0000_0000_0000)
                by (bit_vector);
        }
        ordered ^ 0x8000_0000_0000_0000
    } else {
        proof {
            assert(ordered & 0x8000_0000_0000_0000 == 0 ==> ordered < 0x8000_0000_0000_0000
                && !ordered == (0xFFFF_FFFF_FFFF_FFFFu64 - ordered)) by (bit_vector);
        }
        !ordered
    }
}

/// The transform and its inverse undo each other.
pub proof fn law_double_rank_roundtrip(x: u64)
    ensures
        double_at(double_rank(x)) == x,
        double_rank(double_at(x)) == x,
{
}

/// The bytes of a text.
pub fn text_bytes(s: &String) -> (b: &[u8])
    ensures
        b@ == encode_utf8(s@),
{
    s.as_str().as_bytes()
}

/// Calls `String::from_utf8`. Believed of it: it accepts exactly the byte strings
/// that are valid UTF-8, and the text it returns encodes to the bytes it was given.
#[verifier::external_body]
pub(crate) fn text_from_utf8(bytes: Vec<u8>) -> (r: Option<String>)
    ensures
        r is Some <==> valid_utf8(bytes@),
        r matches Some(s) ==> encode_utf8(s@) == bytes@,
{
    String::from_utf8(bytes).ok()
}

/// The double has the sign bit.
pub open spec fn is_negative(bits: u64) -> bool {
    bits >= 0x8000_0000_0000_0000
}

/// The double without its sign.
pub open spec fn magnitude(bits: u64) -> int {
    if is_negative(bits) {
        bits - 0x8000_0000_0000_0000
    } else {
        bits as int
    }
}

/// Doubles are ordered by sign and size: a negative one is below a positive one, of two
/// positive ones the smaller is below, and of two negative ones the greater.
pub proof fn law_doubles_are_ordered_by_sign_and_size(a: u64, b: u64)
    ensures
        is_negative(a) && !is_negative(b) ==> value_lt(ValueView::Double(a), ValueView::Double(b)),
        !is_negative(a) && is_negative(b) ==> !value_lt(ValueView::Double(a), ValueView::Double(b)),
        !is_negative(a) && !is_negative(b) ==> (value_lt(
            ValueView::Double(a),
            ValueView::Double(b),
        ) <==> magnitude(a) < magnitude(b)),
        is_negative(a) && is_negative(b) ==> (value_lt(ValueView::Double(a), ValueView::Double(b))
            <==> magnitude(b) < magnitude(a)),
{
}

/// Null may stand in a column of any type; any other value in columns of one type only, but
/// for texts, which are not told apart by the length of the column.
pub proof fn law_values_have_one_type(v: ValueView, a: ColumnType, b: ColumnType)
    ensures
        v == ValueView::Null ==> fits_type(a, v),
        v != ValueView::Null && fits_type(a, v) && fits_type(b, v) ==> a == b || a is Varchar
            && b is Varchar,
        v != ValueView::Null && a is Varchar && b is Varchar ==> fits_type(a, v) == fits_type(b, v),
{
}

} // verus!
