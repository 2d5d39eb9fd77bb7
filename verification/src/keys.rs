//! Normalized keys: every index key is a byte string that compares as the tuple
//! it encodes.
//!
//!   * **Presence tag**: each field is prefixed with `0x00` (NULL) or `0x01`
//!     (present), so NULL sorts below every value and composite keys parse
//!     unambiguously.
//!   * **Integers**: big-endian with the sign bit flipped, so negatives sort
//!     below positives under unsigned byte compare.
//!   * **Doubles**: the IEEE total-order transform, big-endian.
//!   * **Bool**: one byte, `0x00 < 0x01`.
//!   * **Strings**: order-preserving escape: `0x00 -> 0x00 0xFF`, terminated by
//!     `0x00 0x00`. A prefix sorts before its extensions; embedded NULs are safe.
//!   * **Composite**: concatenation. Every field encoding is fixed-width or
//!     self-terminating, so concatenation preserves tuple order and stays
//!     decodable.

use vstd::prelude::*;
use vstd::utf8::{decode_utf8, encode_utf8, valid_utf8};

use crate::bytes::{lemma_lex_common_prefix, lemma_lex_irreflexive, lex_lt};
use crate::types::{
    double_at, double_rank, f64_from_total_order_bits, f64_total_order_bits, fits_type,
    law_double_rank_roundtrip, text_bytes, text_from_utf8, value_lt, views, ColumnType, Value,
    ValueView,
};

verus! {

const TAG_NULL: u8 = 0x00;

const TAG_PRESENT: u8 = 0x01;

const STR_ESC: u8 = 0x00;

const STR_ESC_MARK: u8 = 0xFF;

const STR_TERM: u8 = 0x00;

/// The `n` low bytes of `u`, the most significant first.
pub open spec fn be(n: nat, u: nat) -> Seq<u8>
    decreases n,
{
    if n == 0 {
        Seq::empty()
    } else {
        be((n - 1) as nat, u / 256).push((u % 256) as u8)
    }
}

/// The number that `s` holds, the most significant byte first.
pub open spec fn be_value(s: Seq<u8>) -> nat
    decreases s.len(),
{
    if s.len() == 0 {
        0
    } else {
        256 * be_value(s.drop_last()) + s.last() as nat
    }
}

/// Two to the power `8 * n`.
pub open spec fn byte_range(n: nat) -> nat
    decreases n,
{
    if n == 0 {
        1
    } else {
        256 * byte_range((n - 1) as nat)
    }
}

/// Text bytes with every zero byte marked as data.
pub open spec fn escaped(s: Seq<u8>) -> Seq<u8>
    decreases s.len(),
{
    if s.len() == 0 {
        Seq::empty()
    } else if s[0] == 0 {
        seq![0u8, 0xFFu8] + escaped(s.drop_first())
    } else {
        seq![s[0]] + escaped(s.drop_first())
    }
}

/// What follows the presence tag of a value.
pub open spec fn body(v: ValueView) -> Seq<u8> {
    match v {
        ValueView::Null => Seq::empty(),
        ValueView::Bool(b) => seq![
            if b {
                1u8
            } else {
                0u8
            },
        ],
        ValueView::Int(i) => be(4, (i + 0x8000_0000) as nat),
        ValueView::BigInt(i) => be(8, (i + 0x8000_0000_0000_0000) as nat),
        ValueView::Double(d) => be(8, double_rank(d) as nat),
        ValueView::Text(s) => escaped(encode_utf8(s)) + seq![0u8, 0u8],
    }
}

/// The normalized encoding of one value.
pub open spec fn encoded(v: ValueView) -> Seq<u8> {
    if v == ValueView::Null {
        seq![0u8]
    } else {
        seq![1u8] + body(v)
    }
}

/// The normalized encoding of a tuple.
pub open spec fn encoded_key(vs: Seq<ValueView>) -> Seq<u8>
    decreases vs.len(),
{
    if vs.len() == 0 {
        Seq::empty()
    } else {
        encoded_key(vs.drop_last()) + encoded(vs.last())
    }
}

/// Each value may stand in a column of the type at its place.
pub open spec fn tuple_fits(types: Seq<ColumnType>, vs: Seq<ValueView>) -> bool {
    &&& types.len() == vs.len()
    &&& forall|i: int| 0 <= i < vs.len() ==> fits_type(types[i], #[trigger] vs[i])
}

proof fn lemma_escaped_push(s: Seq<u8>, b: u8)
    ensures
        escaped(s.push(b)) == escaped(s) + if b == 0 {
            seq![0u8, 0xFFu8]
        } else {
            seq![b]
        },
    decreases s.len(),
{
    let tail = if b == 0 {
        seq![0u8, 0xFFu8]
    } else {
        seq![b]
    };
    if s.len() == 0 {
        reveal_with_fuel(escaped, 2);
        assert(s.push(b).drop_first() =~= Seq::<u8>::empty());
        assert(escaped(s.push(b)) =~= escaped(s) + tail);
    } else {
        lemma_escaped_push(s.drop_first(), b);
        assert(s.push(b).drop_first() =~= s.drop_first().push(b));
        assert(escaped(s.push(b)) =~= escaped(s) + tail);
    }
}

fn push_be32(out: &mut Vec<u8>, u: u32)
    ensures
        final(out)@ == old(out)@ + be(4, u as nat),
{
    out.push((u / 0x100_0000) as u8);
    out.push((u / 0x1_0000 % 0x100) as u8);
    out.push((u / 0x100 % 0x100) as u8);
    out.push((u % 0x100) as u8);
    proof {
        reveal_with_fuel(be, 5);
        assert(out@ =~= old(out)@ + be(4, u as nat));
    }
}

proof fn lemma_be_split(n: nat, u: nat)
    ensures
        be(n + 4, u) == be(n, u / 0x1_0000_0000) + be(4, u % 0x1_0000_0000),
{
    reveal_with_fuel(be, 5);
    let a = u / 256;
    let b = a / 256;
    let c = b / 256;
    assert(c / 256 == u / 0x1_0000_0000);
    let w = u % 0x1_0000_0000;
    assert(w % 256 == u % 256);
    assert((w / 256) % 256 == a % 256);
    assert((w / 256 / 256) % 256 == b % 256);
    assert((w / 256 / 256 / 256) % 256 == c % 256);
    assert(be(n + 4, u) =~= be(n, u / 0x1_0000_0000) + be(4, u % 0x1_0000_0000));
}

fn push_be64(out: &mut Vec<u8>, u: u64)
    ensures
        final(out)@ == old(out)@ + be(8, u as nat),
{
    push_be32(out, (u / 0x1_0000_0000) as u32);
    push_be32(out, (u % 0x1_0000_0000) as u32);
    proof {
        lemma_be_split(4, u as nat);
        assert(out@ =~= old(out)@ + be(8, u as nat));
    }
}

/// Append a single value's normalized encoding to `out`.
pub fn encode_value_into(out: &mut Vec<u8>, ty: ColumnType, v: &Value)
    requires
        fits_type(ty, v@),
    ensures
        final(out)@ == old(out)@ + encoded(v@),
{
    match v {
        Value::Null => {
            out.push(TAG_NULL);
        },
        Value::Bool(b) => {
            out.push(TAG_PRESENT);
            out.push(
                if *b {
                    1
                } else {
                    0
                },
            );
        },
        Value::Int(i) => {
            out.push(TAG_PRESENT);
            push_be32(out, (*i as i64 + 0x8000_0000) as u32);
        },
        Value::BigInt(i) => {
            out.push(TAG_PRESENT);
            push_be64(out, (*i as i128 + 0x8000_0000_0000_0000) as u64);
        },
        Value::Double(d) => {
            out.push(TAG_PRESENT);
            push_be64(out, f64_total_order_bits(*d));
        },
        Value::Text(s) => {
            out.push(TAG_PRESENT);
            let ghost base = out@;
            let b: &[u8] = text_bytes(s);
            let n: usize = b.len();
            let mut i: usize = 0;
            assert(out@ =~= base + escaped(b@.take(0)));
            while i < n
                invariant
                    i <= n == b@.len(),
                    out@ == base + escaped(b@.take(i as int)),
                decreases n - i,
            {
                proof {
                    lemma_escaped_push(b@.take(i as int), b@[i as int]);
                    assert(b@.take(i + 1) =~= b@.take(i as int).push(b@[i as int]));
                }
                if b[i] == STR_ESC {
                    out.push(STR_ESC);
                    out.push(STR_ESC_MARK);
                } else {
                    out.push(b[i]);
                }
                assert(out@ =~= base + escaped(b@.take(i + 1)));
                i = i + 1;
            }
            assert(b@.take(n as int) =~= b@);
            out.push(STR_TERM);
            out.push(0x00);
        },
    }
    assert(out@ =~= old(out)@ + encoded(v@));
}

/// Encode a single value to its own key bytes.
pub fn encode_value(ty: ColumnType, v: &Value) -> (out: Vec<u8>)
    requires
        fits_type(ty, v@),
    ensures
        out@ == encoded(v@),
{
    let mut out: Vec<u8> = Vec::new();
    encode_value_into(&mut out, ty, v);
    out
}

/// Encode a composite key from a typed tuple.
pub fn encode_key(types: &[ColumnType], values: &[Value]) -> (out: Vec<u8>)
    requires
        tuple_fits(types@, views(values@)),
    ensures
        out@ == encoded_key(views(values@)),
{
    let mut out: Vec<u8> = Vec::new();
    let ghost vs = views(values@);
    let n: usize = types.len();
    let mut i: usize = 0;
    while i < n
        invariant
            i <= n == types@.len(),
            vs == views(values@),
            tuple_fits(types@, vs),
            out@ == encoded_key(vs.take(i as int)),
        decreases n - i,
    {
        assert(vs[i as int] == values@[i as int]@);
        assert(vs.take(i + 1).drop_last() =~= vs.take(i as int));
        encode_value_into(&mut out, types[i], &values[i]);
        i = i + 1;
    }
    assert(vs.take(n as int) =~= vs);
    out
}

/// Errors from key decoding.
#[derive(Clone, Copy, Debug, PartialEq, Eq, Structural)]
pub enum KeyError {
    Truncated,
    BadTag(u8),
    BadStringEscape,
    NotUtf8,
}


/// The text bytes at the front of `b`, unescaped, and what follows them.
pub open spec fn parse_text(b: Seq<u8>) -> Result<(Seq<u8>, Seq<u8>), KeyError>
    decreases b.len(),
{
    if b.len() == 0 {
        Err(KeyError::Truncated)
    } else if b[0] != 0 {
        prepended(seq![b[0]], parse_text(b.skip(1)))
    } else if b.len() == 1 {
        Err(KeyError::Truncated)
    } else if b[1] == 0xFF {
        prepended(seq![0u8], parse_text(b.skip(2)))
    } else if b[1] == 0 {
        Ok((Seq::empty(), b.skip(2)))
    } else {
        Err(KeyError::BadStringEscape)
    }
}

/// A parse result with more text in front.
pub open spec fn prepended(
    raw: Seq<u8>,
    r: Result<(Seq<u8>, Seq<u8>), KeyError>,
) -> Result<(Seq<u8>, Seq<u8>), KeyError> {
    match r {
        Ok((a, rest)) => Ok((raw + a, rest)),
        Err(e) => Err(e),
    }
}

/// The present value of a type at the front of `b`, and what follows it.
pub open spec fn parse_present(ty: ColumnType, b: Seq<u8>) -> Result<
    (ValueView, Seq<u8>),
    KeyError,
> {
    match ty {
        ColumnType::Bool => if b.len() < 1 {
            Err(KeyError::Truncated)
        } else {
            Ok((ValueView::Bool(b[0] != 0), b.skip(1)))
        },
        ColumnType::Int => if b.len() < 4 {
            Err(KeyError::Truncated)
        } else {
            Ok((ValueView::Int((be_value(b.take(4)) - 0x8000_0000) as i32), b.skip(4)))
        },
        ColumnType::BigInt => if b.len() < 8 {
            Err(KeyError::Truncated)
        } else {
            Ok(
                (
                    ValueView::BigInt((be_value(b.take(8)) - 0x8000_0000_0000_0000) as i64),
                    b.skip(8),
                ),
            )
        },
        ColumnType::Double => if b.len() < 8 {
            Err(KeyError::Truncated)
        } else {
            Ok((ValueView::Double(double_at(be_value(b.take(8)) as u64)), b.skip(8)))
        },
        ColumnType::Varchar(_) => match parse_text(b) {
            Err(e) => Err(e),
            Ok((raw, rest)) => if valid_utf8(raw) {
                Ok((ValueView::Text(decode_utf8(raw)), rest))
            } else {
                Err(KeyError::NotUtf8)
            },
        },
    }
}

/// The value of a type at the front of `b`, and what follows it.
pub open spec fn parse_value(ty: ColumnType, b: Seq<u8>) -> Result<
    (ValueView, Seq<u8>),
    KeyError,
> {
    if b.len() == 0 {
        Err(KeyError::Truncated)
    } else if b[0] == 0 {
        Ok((ValueView::Null, b.skip(1)))
    } else if b[0] == 1 {
        parse_present(ty, b.skip(1))
    } else {
        Err(KeyError::BadTag(b[0]))
    }
}

/// The tuple at the front of `b`; what follows it is not looked at.
pub open spec fn parse_key(types: Seq<ColumnType>, b: Seq<u8>) -> Result<Seq<ValueView>, KeyError>
    decreases types.len(),
{
    if types.len() == 0 {
        Ok(Seq::empty())
    } else {
        match parse_value(types[0], b) {
            Err(e) => Err(e),
            Ok((v, rest)) => match parse_key(types.drop_first(), rest) {
                Err(e) => Err(e),
                Ok(vs) => Ok(seq![v] + vs),
            },
        }
    }
}

fn read_be32(b: &[u8], at: usize) -> (u: u32)
    requires
        at + 4 <= b@.len(),
    ensures
        u == be_value(b@.subrange(at as int, at + 4)),
{
    let len: usize = b.len();
    let u: u32 = b[at] as u32 * 0x100_0000 + b[at + 1] as u32 * 0x1_0000 + b[at + 2] as u32 * 0x100
        + b[at + 3] as u32;
    proof {
        lemma_be_value4(b@.subrange(at as int, at + 4));
    }
    u
}

proof fn lemma_be_value4(s: Seq<u8>)
    requires
        s.len() == 4,
    ensures
        be_value(s) == s[0] * 0x100_0000 + s[1] * 0x1_0000 + s[2] * 0x100 + s[3],
{
    reveal_with_fuel(be_value, 5);
}

proof fn lemma_be_value8(s: Seq<u8>)
    requires
        s.len() == 8,
    ensures
        be_value(s) == be_value(s.take(4)) * 0x1_0000_0000 + be_value(s.skip(4)),
        be_value(s.take(4)) < 0x1_0000_0000,
        be_value(s.skip(4)) < 0x1_0000_0000,
{
    let h = s.take(4);
    lemma_be_value4(h);
    lemma_be_value4(s.skip(4));
    let s7 = s.drop_last();
    let s6 = s7.drop_last();
    let s5 = s6.drop_last();
    assert(s5.drop_last() =~= h);
    assert(be_value(s5) == 256 * be_value(h) + s[4]);
    assert(be_value(s6) == 256 * be_value(s5) + s[5]);
    assert(be_value(s7) == 256 * be_value(s6) + s[6]);
    assert(be_value(s) == 256 * be_value(s7) + s[7]);
}

fn read_be64(b: &[u8], at: usize) -> (u: u64)
    requires
        at + 8 <= b@.len(),
    ensures
        u == be_value(b@.subrange(at as int, at + 8)),
{
    let len: usize = b.len();
    let hi: u32 = read_be32(b, at);
    let lo: u32 = read_be32(b, at + 4);
    proof {
        let s = b@.subrange(at as int, at + 8);
        lemma_be_value8(s);
        assert(s.take(4) =~= b@.subrange(at as int, at + 4));
        assert(s.skip(4) =~= b@.subrange(at + 4, at + 8));
    }
    hi as u64 * 0x1_0000_0000 + lo as u64
}

/// Read text bytes from `at` on, returning them with the place after them.
fn decode_text(b: &[u8], at: usize) -> (r: Result<(Vec<u8>, usize), KeyError>)
    requires
        at <= b@.len(),
    ensures
        match r {
            Ok((raw, next)) => next <= b@.len() && parse_text(b@.skip(at as int)) == Ok::<
                (Seq<u8>, Seq<u8>),
                KeyError,
            >((raw@, b@.skip(next as int))),
            Err(e) => parse_text(b@.skip(at as int)) == Err::<(Seq<u8>, Seq<u8>), KeyError>(e),
        },
{
    let n: usize = b.len();
    let mut raw: Vec<u8> = Vec::new();
    let mut p: usize = at;
    let ghost whole = parse_text(b@.skip(at as int));
    proof {
        if let Ok((a, rest)) = whole {
            assert(raw@ + a =~= a);
        }
    }
    while p < n
        invariant
            at <= p <= n == b@.len(),
            whole == prepended(raw@, parse_text(b@.skip(p as int))),
            whole == parse_text(b@.skip(at as int)),
        decreases n - p,
    {
        let ghost here = b@.skip(p as int);
        let ghost before = raw@;
        assert(here[0] == b@[p as int]);
        assert(here.skip(1) =~= b@.skip(p + 1));
        if b[p] == STR_ESC {
            if p + 1 >= n {
                return Err(KeyError::Truncated);
            }
            assert(here[1] == b@[p + 1]);
            assert(here.skip(2) =~= b@.skip(p + 2));
            let next: u8 = b[p + 1];
            if next == STR_ESC_MARK {
                raw.push(0x00);
                proof {
                    if let Ok((a, rest)) = parse_text(b@.skip(p + 2)) {
                        assert(before + (seq![0u8] + a) =~= raw@ + a);
                    }
                }
                p = p + 2;
            } else if next == 0x00 {
                assert(raw@ + Seq::<u8>::empty() =~= raw@);
                return Ok((raw, p + 2));
            } else {
                return Err(KeyError::BadStringEscape);
            }
        } else {
            raw.push(b[p]);
            proof {
                if let Ok((a, rest)) = parse_text(b@.skip(p + 1)) {
                    assert(before + (seq![b@[p as int]] + a) =~= raw@ + a);
                }
            }
            p = p + 1;
        }
    }
    Err(KeyError::Truncated)
}

fn decode_present(b: &[u8], at: usize, ty: ColumnType) -> (r: Result<(Value, usize), KeyError>)
    requires
        at <= b@.len(),
    ensures
        match r {
            Ok((v, next)) => next <= b@.len() && parse_present(ty, b@.skip(at as int)) == Ok::<
                (ValueView, Seq<u8>),
                KeyError,
            >((v@, b@.skip(next as int))),
            Err(e) => parse_present(ty, b@.skip(at as int)) == Err::<(ValueView, Seq<u8>), KeyError>(
                e,
            ),
        },
{
    let n: usize = b.len();
    let ghost here = b@.skip(at as int);
    match ty {
        ColumnType::Bool => {
            if n - at < 1 {
                return Err(KeyError::Truncated);
            }
            assert(here.skip(1) =~= b@.skip(at + 1));
            Ok((Value::Bool(b[at] != 0), at + 1))
        },
        ColumnType::Int => {
            if n - at < 4 {
                return Err(KeyError::Truncated);
            }
            let u: u32 = read_be32(b, at);
            proof {
                assert(here.take(4) =~= b@.subrange(at as int, at + 4));
                assert(here.skip(4) =~= b@.skip(at + 4));
            }
            Ok((Value::Int((u as i64 - 0x8000_0000) as i32), at + 4))
        },
        ColumnType::BigInt => {
            if n - at < 8 {
                return Err(KeyError::Truncated);
            }
            let u: u64 = read_be64(b, at);
            proof {
                assert(here.take(8) =~= b@.subrange(at as int, at + 8));
                assert(here.skip(8) =~= b@.skip(at + 8));
            }
            Ok((Value::BigInt((u as i128 - 0x8000_0000_0000_0000) as i64), at + 8))
        },
        ColumnType::Double => {
            if n - at < 8 {
                return Err(KeyError::Truncated);
            }
            let u: u64 = read_be64(b, at);
            proof {
                assert(here.take(8) =~= b@.subrange(at as int, at + 8));
                assert(here.skip(8) =~= b@.skip(at + 8));
            }
            Ok((Value::Double(f64_from_total_order_bits(u)), at + 8))
        },
        ColumnType::Varchar(_) => match decode_text(b, at) {
            Err(e) => Err(e),
            Ok((raw, next)) => {
                let ghost bytes = raw@;
                match text_from_utf8(raw) {
                    None => Err(KeyError::NotUtf8),
                    Some(text) => {
                        proof {
                            vstd::utf8::encode_utf8_decode_utf8(text@);
                        }
                        Ok((Value::Text(text), next))
                    },
                }
            },
        },
    }
}

fn decode_value(b: &[u8], at: usize, ty: ColumnType) -> (r: Result<(Value, usize), KeyError>)
    requires
        at <= b@.len(),
    ensures
        match r {
            Ok((v, next)) => next <= b@.len() && parse_value(ty, b@.skip(at as int)) == Ok::<
                (ValueView, Seq<u8>),
                KeyError,
            >((v@, b@.skip(next as int))),
            Err(e) => parse_value(ty, b@.skip(at as int)) == Err::<(ValueView, Seq<u8>), KeyError>(
                e,
            ),
        },
{
    if at >= b.len() {
        return Err(KeyError::Truncated);
    }
    assert(b@.skip(at as int).skip(1) =~= b@.skip(at + 1));
    let tag: u8 = b[at];
    if tag == TAG_NULL {
        Ok((Value::Null, at + 1))
    } else if tag == TAG_PRESENT {
        decode_present(b, at + 1, ty)
    } else {
        Err(KeyError::BadTag(tag))
    }
}

/// Decode a composite key back into values.
pub fn decode_key(types: &[ColumnType], bytes: &[u8]) -> (r: Result<Vec<Value>, KeyError>)
    ensures
        match r {
            Ok(vs) => parse_key(types@, bytes@) == Ok::<Seq<ValueView>, KeyError>(views(vs@)),
            Err(e) => parse_key(types@, bytes@) == Err::<Seq<ValueView>, KeyError>(e),
        },
{
    let mut out: Vec<Value> = Vec::new();
    let mut at: usize = 0;
    let n: usize = types.len();
    let mut i: usize = 0;
    let ghost whole = parse_key(types@, bytes@);
    proof {
        assert(types@.skip(0) =~= types@);
        assert(bytes@.skip(0) =~= bytes@);
        if let Ok(vs) = whole {
            assert(views(out@) + vs =~= vs);
        }
    }
    while i < n
        invariant
            i <= n == types@.len(),
            at <= bytes@.len(),
            whole == parse_key(types@, bytes@),
            whole == (match parse_key(types@.skip(i as int), bytes@.skip(at as int)) {
                Ok(vs) => Ok::<Seq<ValueView>, KeyError>(views(out@) + vs),
                Err(e) => Err(e),
            }),
        decreases n - i,
    {
        let ghost before = out@;
        assert(types@.skip(i as int)[0] == types@[i as int]);
        assert(types@.skip(i as int).drop_first() =~= types@.skip(i + 1));
        match decode_value(bytes, at, types[i]) {
            Err(e) => {
                return Err(e);
            },
            Ok((v, next)) => {
                out.push(v);
                at = next;
                proof {
                    assert(views(out@) =~= views(before).push(v@));
                    if let Ok(vs) = parse_key(types@.skip(i + 1), bytes@.skip(next as int)) {
                        assert(views(before) + (seq![v@] + vs) =~= views(out@) + vs);
                    }
                }
            },
        }
        i = i + 1;
    }
    assert(types@.skip(n as int).len() == 0);
    assert(views(out@) + Seq::<ValueView>::empty() =~= views(out@));
    Ok(out)
}


proof fn lemma_be_len(n: nat, u: nat)
    ensures
        be(n, u).len() == n,
    decreases n,
{
    if n > 0 {
        lemma_be_len((n - 1) as nat, u / 256);
    }
}

proof fn lemma_be_value(n: nat, u: nat)
    requires
        u < byte_range(n),
    ensures
        be_value(be(n, u)) == u,
    decreases n,
{
    if n > 0 {
        lemma_be_value((n - 1) as nat, u / 256);
        assert(be(n, u).drop_last() =~= be((n - 1) as nat, u / 256));
    }
}

proof fn lemma_byte_ranges()
    ensures
        byte_range(4) == 0x1_0000_0000,
        byte_range(8) == 0x1_0000_0000_0000_0000,
{
    reveal_with_fuel(byte_range, 9);
}

/// One byte in front decides the order unless it is the same.
proof fn lemma_lex_head(a: u8, x: Seq<u8>, b: u8, y: Seq<u8>)
    ensures
        lex_lt(seq![a] + x, seq![b] + y) == (a < b || (a == b && lex_lt(x, y))),
{
    assert((seq![a] + x).drop_first() =~= x);
    assert((seq![b] + y).drop_first() =~= y);
}

/// Big-endian numbers of one width order as the numbers do.
proof fn lemma_be_order(n: nat, u: nat, w: nat, x: Seq<u8>, y: Seq<u8>)
    requires
        u < byte_range(n),
        w < byte_range(n),
    ensures
        lex_lt(be(n, u) + x, be(n, w) + y) == (u < w || (u == w && lex_lt(x, y))),
    decreases n,
{
    if n == 0 {
        assert(be(0, u) + x =~= x);
        assert(be(0, w) + y =~= y);
    } else {
        let m = (n - 1) as nat;
        let a = (u % 256) as u8;
        let b = (w % 256) as u8;
        assert(be(n, u) + x =~= be(m, u / 256) + (seq![a] + x));
        assert(be(n, w) + y =~= be(m, w / 256) + (seq![b] + y));
        lemma_be_order(m, u / 256, w / 256, seq![a] + x, seq![b] + y);
        lemma_lex_head(a, x, b, y);
    }
}

/// Escaped, terminated texts order as the texts do.
proof fn lemma_text_order(s: Seq<u8>, t: Seq<u8>, x: Seq<u8>, y: Seq<u8>)
    ensures
        lex_lt(escaped(s) + seq![0u8, 0u8] + x, escaped(t) + seq![0u8, 0u8] + y) == (lex_lt(s, t)
            || (s == t && lex_lt(x, y))),
    decreases s.len(),
{
    let l = escaped(s) + seq![0u8, 0u8] + x;
    let r = escaped(t) + seq![0u8, 0u8] + y;
    if s.len() == 0 && t.len() == 0 {
        assert(l =~= seq![0u8, 0u8] + x);
        assert(r =~= seq![0u8, 0u8] + y);
        lemma_lex_common_prefix(seq![0u8, 0u8], x, y);
        assert(s =~= t);
    } else if s.len() == 0 {
        assert(l =~= seq![0u8] + (seq![0u8] + x));
        if t[0] == 0 {
            let rest = escaped(t.drop_first()) + seq![0u8, 0u8] + y;
            assert(r =~= seq![0u8] + (seq![0xFFu8] + rest));
            lemma_lex_head(0, seq![0u8] + x, 0, seq![0xFFu8] + rest);
            lemma_lex_head(0, x, 0xFF, rest);
        } else {
            let rest = escaped(t.drop_first()) + seq![0u8, 0u8] + y;
            assert(r =~= seq![t[0]] + rest);
            lemma_lex_head(0, seq![0u8] + x, t[0], rest);
        }
    } else if t.len() == 0 {
        assert(r =~= seq![0u8] + (seq![0u8] + y));
        let rest = escaped(s.drop_first()) + seq![0u8, 0u8] + x;
        if s[0] == 0 {
            assert(l =~= seq![0u8] + (seq![0xFFu8] + rest));
            lemma_lex_head(0, seq![0xFFu8] + rest, 0, seq![0u8] + y);
            lemma_lex_head(0xFF, rest, 0, y);
        } else {
            assert(l =~= seq![s[0]] + rest);
            lemma_lex_head(s[0], rest, 0, seq![0u8] + y);
        }
    } else {
        let l2 = escaped(s.drop_first()) + seq![0u8, 0u8] + x;
        let r2 = escaped(t.drop_first()) + seq![0u8, 0u8] + y;
        lemma_text_order(s.drop_first(), t.drop_first(), x, y);
        assert(s =~= seq![s[0]] + s.drop_first());
        assert(t =~= seq![t[0]] + t.drop_first());
        assert((s == t) == (s[0] == t[0] && s.drop_first() == t.drop_first()));
        let a = if s[0] == 0 {
            seq![0xFFu8] + l2
        } else {
            l2
        };
        let b = if t[0] == 0 {
            seq![0xFFu8] + r2
        } else {
            r2
        };
        assert(l =~= seq![s[0]] + a);
        assert(r =~= seq![t[0]] + b);
        lemma_lex_head(s[0], a, t[0], b);
        if s[0] == 0 && t[0] == 0 {
            lemma_lex_head(0xFF, l2, 0xFF, r2);
        }
    }
}

/// Encodings order as the values do, whatever follows them: distinct values are
/// told apart before either encoding ends, and equal ones leave the decision to
/// what follows.
pub proof fn law_value_order(
    ty: ColumnType,
    a: ValueView,
    b: ValueView,
    x: Seq<u8>,
    y: Seq<u8>,
)
    requires
        fits_type(ty, a),
        fits_type(ty, b),
    ensures
        lex_lt(encoded(a) + x, encoded(b) + y) == (value_lt(a, b) || (a == b && lex_lt(x, y))),
{
    lemma_byte_ranges();
    if a == ValueView::Null || b == ValueView::Null {
        let ax = if a == ValueView::Null {
            x
        } else {
            body(a) + x
        };
        let by = if b == ValueView::Null {
            y
        } else {
            body(b) + y
        };
        let ta: u8 = if a == ValueView::Null {
            0
        } else {
            1
        };
        let tb: u8 = if b == ValueView::Null {
            0
        } else {
            1
        };
        assert(encoded(a) + x =~= seq![ta] + ax);
        assert(encoded(b) + y =~= seq![tb] + by);
        lemma_lex_head(ta, ax, tb, by);
    } else {
        assert(encoded(a) + x =~= seq![1u8] + (body(a) + x));
        assert(encoded(b) + y =~= seq![1u8] + (body(b) + y));
        lemma_lex_head(1, body(a) + x, 1, body(b) + y);
        match (a, b) {
            (ValueView::Bool(p), ValueView::Bool(q)) => {
                lemma_lex_head(body(a)[0], x, body(b)[0], y);
            },
            (ValueView::Int(p), ValueView::Int(q)) => {
                lemma_be_order(4, (p + 0x8000_0000) as nat, (q + 0x8000_0000) as nat, x, y);
            },
            (ValueView::BigInt(p), ValueView::BigInt(q)) => {
                lemma_be_order(
                    8,
                    (p + 0x8000_0000_0000_0000) as nat,
                    (q + 0x8000_0000_0000_0000) as nat,
                    x,
                    y,
                );
            },
            (ValueView::Double(p), ValueView::Double(q)) => {
                lemma_be_order(8, double_rank(p) as nat, double_rank(q) as nat, x, y);
                law_double_rank_roundtrip(p);
                law_double_rank_roundtrip(q);
            },
            (ValueView::Text(p), ValueView::Text(q)) => {
                lemma_text_order(encode_utf8(p), encode_utf8(q), x, y);
                vstd::utf8::encode_utf8_decode_utf8(p);
                vstd::utf8::encode_utf8_decode_utf8(q);
                assert(body(a) + x =~= escaped(encode_utf8(p)) + seq![0u8, 0u8] + x);
                assert(body(b) + y =~= escaped(encode_utf8(q)) + seq![0u8, 0u8] + y);
            },
            _ => {},
        }
    }
}

/// The order of tuples: the first field that differs decides.
pub open spec fn tuple_lt(a: Seq<ValueView>, b: Seq<ValueView>) -> bool
    decreases a.len(),
{
    if a.len() == 0 || b.len() == 0 {
        false
    } else if a[0] == b[0] {
        tuple_lt(a.drop_first(), b.drop_first())
    } else {
        value_lt(a[0], b[0])
    }
}

proof fn lemma_key_head(vs: Seq<ValueView>)
    requires
        vs.len() > 0,
    ensures
        encoded_key(vs) == encoded(vs[0]) + encoded_key(vs.drop_first()),
    decreases vs.len(),
{
    if vs.len() == 1 {
        assert(vs.drop_last() =~= Seq::<ValueView>::empty());
        assert(vs.drop_first() =~= Seq::<ValueView>::empty());
        assert(encoded_key(vs) =~= encoded(vs[0]) + encoded_key(vs.drop_first()));
    } else {
        lemma_key_head(vs.drop_last());
        assert(vs.drop_last().drop_first() =~= vs.drop_first().drop_last());
        assert(encoded_key(vs) =~= encoded(vs[0]) + encoded_key(vs.drop_first()));
    }
}

/// Composite keys order as the tuples they encode.
pub proof fn law_key_order(types: Seq<ColumnType>, a: Seq<ValueView>, b: Seq<ValueView>)
    requires
        tuple_fits(types, a),
        tuple_fits(types, b),
    ensures
        lex_lt(encoded_key(a), encoded_key(b)) == tuple_lt(a, b),
    decreases a.len(),
{
    if a.len() > 0 {
        let ts = types.drop_first();
        let ra = a.drop_first();
        let rb = b.drop_first();
        assert(fits_type(types[0], a[0]) && fits_type(types[0], b[0]));
        assert forall|i: int| 0 <= i < ra.len() implies fits_type(ts[i], #[trigger] ra[i]) by {
            assert(ra[i] == a[i + 1]);
        }
        assert forall|i: int| 0 <= i < rb.len() implies fits_type(ts[i], #[trigger] rb[i]) by {
            assert(rb[i] == b[i + 1]);
        }
        law_key_order(ts, ra, rb);
        lemma_key_head(a);
        lemma_key_head(b);
        law_value_order(types[0], a[0], b[0], encoded_key(ra), encoded_key(rb));
        if let ValueView::Text(t) = a[0] {
            lemma_lex_irreflexive(encode_utf8(t));
        }
    }
}

/// Keys tell tuples apart.
pub proof fn law_keys_are_injective(types: Seq<ColumnType>, a: Seq<ValueView>, b: Seq<ValueView>)
    requires
        tuple_fits(types, a),
        tuple_fits(types, b),
        encoded_key(a) == encoded_key(b),
    ensures
        a == b,
{
    law_key_roundtrip(types, a, Seq::empty());
    law_key_roundtrip(types, b, Seq::empty());
    assert(encoded_key(a) + Seq::<u8>::empty() =~= encoded_key(b) + Seq::<u8>::empty());
}

proof fn lemma_text_roundtrip(s: Seq<u8>, x: Seq<u8>)
    ensures
        parse_text(escaped(s) + seq![0u8, 0u8] + x) == Ok::<(Seq<u8>, Seq<u8>), KeyError>((s, x)),
    decreases s.len(),
{
    let l = escaped(s) + seq![0u8, 0u8] + x;
    if s.len() == 0 {
        assert(l.skip(2) =~= x);
        assert(s =~= Seq::<u8>::empty());
    } else {
        let rest = escaped(s.drop_first()) + seq![0u8, 0u8] + x;
        lemma_text_roundtrip(s.drop_first(), x);
        assert(seq![s[0]] + s.drop_first() =~= s);
        if s[0] == 0 {
            assert(l.skip(2) =~= rest);
        } else {
            assert(l.skip(1) =~= rest);
        }
    }
}

/// Decoding a value gives back what was encoded, and what followed it.
pub proof fn law_value_roundtrip(ty: ColumnType, v: ValueView, x: Seq<u8>)
    requires
        fits_type(ty, v),
    ensures
        parse_value(ty, encoded(v) + x) == Ok::<(ValueView, Seq<u8>), KeyError>((v, x)),
{
    lemma_byte_ranges();
    let b = encoded(v) + x;
    if v == ValueView::Null {
        assert(b.skip(1) =~= x);
    } else {
        assert(b.skip(1) =~= body(v) + x);
        match v {
            ValueView::Bool(p) => {
                assert((body(v) + x).skip(1) =~= x);
            },
            ValueView::Int(p) => {
                let u = (p + 0x8000_0000) as nat;
                lemma_be_len(4, u);
                lemma_be_value(4, u);
                assert((body(v) + x).take(4) =~= be(4, u));
                assert((body(v) + x).skip(4) =~= x);
            },
            ValueView::BigInt(p) => {
                let u = (p + 0x8000_0000_0000_0000) as nat;
                lemma_be_len(8, u);
                lemma_be_value(8, u);
                assert((body(v) + x).take(8) =~= be(8, u));
                assert((body(v) + x).skip(8) =~= x);
            },
            ValueView::Double(p) => {
                let u = double_rank(p) as nat;
                lemma_be_len(8, u);
                lemma_be_value(8, u);
                law_double_rank_roundtrip(p);
                assert((body(v) + x).take(8) =~= be(8, u));
                assert((body(v) + x).skip(8) =~= x);
            },
            ValueView::Text(p) => {
                lemma_text_roundtrip(encode_utf8(p), x);
                vstd::utf8::encode_utf8_decode_utf8(p);
                vstd::utf8::encode_utf8_valid_utf8(p);
            },
            _ => {},
        }
    }
}

/// Decoding a composite key gives back the tuple that was encoded.
pub proof fn law_key_roundtrip(types: Seq<ColumnType>, vs: Seq<ValueView>, x: Seq<u8>)
    requires
        tuple_fits(types, vs),
    ensures
        parse_key(types, encoded_key(vs) + x) == Ok::<Seq<ValueView>, KeyError>(vs),
    decreases vs.len(),
{
    if vs.len() == 0 {
        assert(vs =~= Seq::<ValueView>::empty());
    } else {
        let ts = types.drop_first();
        let r = vs.drop_first();
        assert(fits_type(types[0], vs[0]));
        assert forall|i: int| 0 <= i < r.len() implies fits_type(ts[i], #[trigger] r[i]) by {
            assert(r[i] == vs[i + 1]);
        }
        law_key_roundtrip(ts, r, x);
        lemma_key_head(vs);
        law_value_roundtrip(types[0], vs[0], encoded_key(r) + x);
        lemma_parse_key_step(types, encoded(vs[0]), encoded_key(r), x, vs[0], r);
        assert(seq![vs[0]] + r =~= vs);
    }
}

proof fn lemma_parse_key_step(
    types: Seq<ColumnType>,
    head: Seq<u8>,
    tail: Seq<u8>,
    x: Seq<u8>,
    v: ValueView,
    vs: Seq<ValueView>,
)
    requires
        types.len() > 0,
        parse_value(types[0], head + (tail + x)) == Ok::<(ValueView, Seq<u8>), KeyError>(
            (v, tail + x),
        ),
        parse_key(types.drop_first(), tail + x) == Ok::<Seq<ValueView>, KeyError>(vs),
    ensures
        parse_key(types, head + tail + x) == Ok::<Seq<ValueView>, KeyError>(seq![v] + vs),
{
    assert(head + tail + x =~= head + (tail + x));
}

/// What follows an unknown tag is not read.
pub proof fn law_unknown_tags_are_refused(ty: ColumnType, b: Seq<u8>)
    requires
        b.len() > 0,
        b[0] > 1,
    ensures
        parse_value(ty, b) == Err::<(ValueView, Seq<u8>), KeyError>(KeyError::BadTag(b[0])),
{
}

proof fn lemma_cut_text(s: Seq<u8>, n: int)
    requires
        0 <= n < (escaped(s) + seq![0u8, 0u8]).len(),
    ensures
        parse_text((escaped(s) + seq![0u8, 0u8]).take(n)) == Err::<(Seq<u8>, Seq<u8>), KeyError>(
            KeyError::Truncated,
        ),
    decreases s.len(),
{
    let whole = escaped(s) + seq![0u8, 0u8];
    let cut = whole.take(n);
    if n > 0 && s.len() > 0 {
        let rest = s.drop_first();
        let more = escaped(rest) + seq![0u8, 0u8];
        if s[0] == 0 {
            assert(whole =~= seq![0u8, 0xFFu8] + more);
            if n >= 2 {
                lemma_cut_text(rest, n - 2);
                assert(cut.skip(2) =~= more.take(n - 2));
            }
        } else {
            assert(whole =~= seq![s[0]] + more);
            lemma_cut_text(rest, n - 1);
            assert(cut.skip(1) =~= more.take(n - 1));
        }
    }
}

/// A key that was cut off anywhere is refused as too short.
pub proof fn law_cut_keys_are_refused(ty: ColumnType, v: ValueView, n: int)
    requires
        fits_type(ty, v),
        0 <= n < encoded(v).len(),
    ensures
        parse_value(ty, encoded(v).take(n)) == Err::<(ValueView, Seq<u8>), KeyError>(
            KeyError::Truncated,
        ),
{
    let cut = encoded(v).take(n);
    if n > 0 {
        assert(v != ValueView::Null);
        assert(cut[0] == 1);
        assert(cut.skip(1) =~= body(v).take(n - 1));
        match v {
            ValueView::Int(i) => {
                lemma_be_len(4, (i + 0x8000_0000) as nat);
            },
            ValueView::BigInt(i) => {
                lemma_be_len(8, (i + 0x8000_0000_0000_0000) as nat);
            },
            ValueView::Double(d) => {
                lemma_be_len(8, double_rank(d) as nat);
            },
            ValueView::Text(s) => {
                lemma_cut_text(encode_utf8(s), n - 1);
            },
            _ => {},
        }
    }
}

} // verus!
