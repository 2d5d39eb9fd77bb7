//! Fixed-width integers in byte strings, and the byte-string order.

use vstd::prelude::*;

verus! {

/// The bytes of `s` with `d` written over them starting at `at`.
pub open spec fn splice(s: Seq<u8>, at: int, d: Seq<u8>) -> Seq<u8> {
    Seq::new(s.len(), |i: int| if at <= i < at + d.len() { d[i - at] } else { s[i] })
}

/// The little-endian 16-bit integer at `at`.
pub open spec fn le16(s: Seq<u8>, at: int) -> int {
    s[at] + 0x100 * s[at + 1]
}

/// The little-endian 32-bit integer at `at`.
pub open spec fn le32(s: Seq<u8>, at: int) -> int {
    s[at] + 0x100 * s[at + 1] + 0x1_0000 * s[at + 2] + 0x100_0000 * s[at + 3]
}

/// The little-endian 64-bit integer at `at`.
pub open spec fn le64(s: Seq<u8>, at: int) -> int {
    le32(s, at) + 0x1_0000_0000 * le32(s, at + 4)
}

/// The two little-endian bytes of `v`.
pub open spec fn le16_bytes(v: u16) -> Seq<u8> {
    seq![(v % 0x100) as u8, (v / 0x100) as u8]
}

/// The four little-endian bytes of `v`.
pub open spec fn le32_bytes(v: u32) -> Seq<u8> {
    seq![
        (v % 0x100) as u8,
        (v / 0x100 % 0x100) as u8,
        (v / 0x1_0000 % 0x100) as u8,
        (v / 0x100_0000) as u8,
    ]
}

/// The eight little-endian bytes of `v`.
pub open spec fn le64_bytes(v: u64) -> Seq<u8> {
    le32_bytes((v % 0x1_0000_0000) as u32) + le32_bytes((v / 0x1_0000_0000) as u32)
}

/// Reading the bytes of an integer gives the integer back, wherever they stand.
pub broadcast proof fn lemma_le16_bytes(s: Seq<u8>, at: int, v: u16)
    requires
        0 <= at,
        at + 2 <= s.len(),
        s.subrange(at, at + 2) == le16_bytes(v),
    ensures
        #![trigger le16(s, at), le16_bytes(v)]
        le16(s, at) == v,
{
    assert(s.subrange(at, at + 2)[0] == s[at]);
    assert(s.subrange(at, at + 2)[1] == s[at + 1]);
}

/// The same for 32 bits.
pub broadcast proof fn lemma_le32_bytes(s: Seq<u8>, at: int, v: u32)
    requires
        0 <= at,
        at + 4 <= s.len(),
        s.subrange(at, at + 4) == le32_bytes(v),
    ensures
        #![trigger le32(s, at), le32_bytes(v)]
        le32(s, at) == v,
{
    assert(s.subrange(at, at + 4)[0] == s[at]);
    assert(s.subrange(at, at + 4)[1] == s[at + 1]);
    assert(s.subrange(at, at + 4)[2] == s[at + 2]);
    assert(s.subrange(at, at + 4)[3] == s[at + 3]);
}

/// The same for 64 bits.
pub broadcast proof fn lemma_le64_bytes(s: Seq<u8>, at: int, v: u64)
    requires
        0 <= at,
        at + 8 <= s.len(),
        s.subrange(at, at + 8) == le64_bytes(v),
    ensures
        #![trigger le64(s, at), le64_bytes(v)]
        le64(s, at) == v,
{
    let lo = (v % 0x1_0000_0000) as u32;
    let hi = (v / 0x1_0000_0000) as u32;
    assert(s.subrange(at, at + 4) =~= s.subrange(at, at + 8).subrange(0, 4));
    assert(le64_bytes(v).subrange(0, 4) =~= le32_bytes(lo));
    lemma_le32_bytes(s, at, lo);
    assert(s.subrange(at + 4, at + 8) =~= s.subrange(at, at + 8).subrange(4, 8));
    assert(le64_bytes(v).subrange(4, 8) =~= le32_bytes(hi));
    lemma_le32_bytes(s, at + 4, hi);
}

/// Read a little-endian `u16`.
pub fn rd_u16(b: &[u8], at: usize) -> (v: u16)
    requires
        at + 2 <= b@.len(),
    ensures
        v == le16(b@, at as int),
{
    b[at] as u16 + 0x100 * (b[at + 1] as u16)
}

/// Read a little-endian `u32`.
pub fn rd_u32(b: &[u8], at: usize) -> (v: u32)
    requires
        at + 4 <= b@.len(),
    ensures
        v == le32(b@, at as int),
{
    b[at] as u32 + 0x100 * (b[at + 1] as u32) + 0x1_0000 * (b[at + 2] as u32) + 0x100_0000 * (b[at
        + 3] as u32)
}

/// Read a little-endian `u64`.
pub fn rd_u64(b: &[u8], at: usize) -> (v: u64)
    requires
        at + 8 <= b@.len(),
    ensures
        v == le64(b@, at as int),
{
    let len: usize = b.len();
    assert(at + 8 <= len);
    rd_u32(b, at) as u64 + 0x1_0000_0000 * (rd_u32(b, at + 4) as u64)
}

/// Write a little-endian `u16`.
pub fn wr_u16(b: &mut [u8], at: usize, v: u16)
    requires
        at + 2 <= old(b)@.len(),
    ensures
        final(b)@ == splice(old(b)@, at as int, le16_bytes(v)),
        le16(final(b)@, at as int) == v,
{
    b[at] = (v % 0x100) as u8;
    b[at + 1] = (v / 0x100) as u8;
    assert(b@ =~= splice(old(b)@, at as int, le16_bytes(v)));
}

/// Write a little-endian `u32`.
pub fn wr_u32(b: &mut [u8], at: usize, v: u32)
    requires
        at + 4 <= old(b)@.len(),
    ensures
        final(b)@ == splice(old(b)@, at as int, le32_bytes(v)),
        le32(final(b)@, at as int) == v,
{
    b[at] = (v % 0x100) as u8;
    b[at + 1] = (v / 0x100 % 0x100) as u8;
    b[at + 2] = (v / 0x1_0000 % 0x100) as u8;
    b[at + 3] = (v / 0x100_0000) as u8;
    assert(b@ =~= splice(old(b)@, at as int, le32_bytes(v)));
}

/// Write a little-endian `u64`.
pub fn wr_u64(b: &mut [u8], at: usize, v: u64)
    requires
        at + 8 <= old(b)@.len(),
    ensures
        final(b)@ == splice(old(b)@, at as int, le64_bytes(v)),
        le64(final(b)@, at as int) == v,
{
    let lo: u32 = (v % 0x1_0000_0000) as u32;
    let hi: u32 = (v / 0x1_0000_0000) as u32;
    let len: usize = b.len();
    assert(at + 8 <= len);
    wr_u32(b, at, lo);
    wr_u32(b, at + 4, hi);
    assert(b@ =~= splice(old(b)@, at as int, le64_bytes(v)));
    assert(b@.subrange(at as int, at + 8) =~= le64_bytes(v));
    proof {
        lemma_le64_bytes(b@, at as int, v);
    }
}

/// Append the two little-endian bytes of `v`.
pub fn push_u16(out: &mut Vec<u8>, v: u16)
    ensures
        final(out)@ == old(out)@ + le16_bytes(v),
{
    out.push((v % 0x100) as u8);
    out.push((v / 0x100) as u8);
    assert(out@ =~= old(out)@ + le16_bytes(v));
}

/// Append the four little-endian bytes of `v`.
pub fn push_u32(out: &mut Vec<u8>, v: u32)
    ensures
        final(out)@ == old(out)@ + le32_bytes(v),
{
    out.push((v % 0x100) as u8);
    out.push((v / 0x100 % 0x100) as u8);
    out.push((v / 0x1_0000 % 0x100) as u8);
    out.push((v / 0x100_0000) as u8);
    assert(out@ =~= old(out)@ + le32_bytes(v));
}

/// Overwrite `b` with `d` starting at `at`.
pub fn write_bytes(b: &mut [u8], at: usize, d: &[u8])
    requires
        at + d@.len() <= old(b)@.len(),
    ensures
        final(b)@ == splice(old(b)@, at as int, d@),
{
    let n: usize = d.len();
    let len: usize = b.len();
    let mut i: usize = 0;
    assert(b@ =~= splice(old(b)@, at as int, d@.subrange(0, 0)));
    while i < n
        invariant
            i <= n == d@.len(),
            at + n <= len == b@.len(),
            b@.len() == old(b)@.len(),
            b@ == splice(old(b)@, at as int, d@.subrange(0, i as int)),
        decreases n - i,
    {
        b[at + i] = d[i];
        i = i + 1;
        assert(b@ =~= splice(old(b)@, at as int, d@.subrange(0, i as int)));
    }
    assert(d@.subrange(0, n as int) =~= d@);
}

/// A copy of a byte slice.
pub fn copy_bytes(s: &[u8]) -> (v: Vec<u8>)
    ensures
        v@ == s@,
{
    let mut v: Vec<u8> = Vec::with_capacity(s.len());
    v.extend_from_slice(s);
    assert(v@ =~= s@);
    v
}

/// Set every byte to zero.
pub fn zero_fill(b: &mut [u8])
    ensures
        final(b)@ == Seq::new(old(b)@.len(), |i: int| 0u8),
{
    let n: usize = b.len();
    let mut i: usize = 0;
    while i < n
        invariant
            i <= n == b@.len(),
            b@.len() == old(b)@.len(),
            forall|j: int| 0 <= j < i ==> b@[j] == 0u8,
        decreases n - i,
    {
        b[i] = 0;
        i = i + 1;
    }
    assert(b@ =~= Seq::new(old(b)@.len(), |i: int| 0u8));
}

/// Strict lexicographic order on byte strings, a proper prefix first.
pub open spec fn lex_lt(a: Seq<u8>, b: Seq<u8>) -> bool
    decreases a.len(),
{
    if b.len() == 0 {
        false
    } else if a.len() == 0 {
        true
    } else if a[0] != b[0] {
        a[0] < b[0]
    } else {
        lex_lt(a.drop_first(), b.drop_first())
    }
}

/// Lexicographic order, equality included.
pub open spec fn lex_le(a: Seq<u8>, b: Seq<u8>) -> bool {
    !lex_lt(b, a)
}

/// No byte string is below itself.
pub proof fn lemma_lex_irreflexive(a: Seq<u8>)
    ensures
        !lex_lt(a, a),
    decreases a.len(),
{
    if a.len() > 0 {
        lemma_lex_irreflexive(a.drop_first());
    }
}

/// The order is total: two byte strings neither of which is below the other are equal.
pub proof fn lemma_lex_total(a: Seq<u8>, b: Seq<u8>)
    ensures
        lex_lt(a, b) || lex_lt(b, a) || a == b,
        !(lex_lt(a, b) && lex_lt(b, a)),
    decreases a.len(),
{
    if a.len() == 0 || b.len() == 0 {
        if a.len() == 0 && b.len() == 0 {
            assert(a =~= b);
        }
    } else if a[0] == b[0] {
        lemma_lex_total(a.drop_first(), b.drop_first());
        if a.drop_first() == b.drop_first() {
            assert(a =~= seq![a[0]] + a.drop_first());
            assert(b =~= seq![b[0]] + b.drop_first());
        }
    }
}

/// The order is transitive.
pub proof fn lemma_lex_transitive(a: Seq<u8>, b: Seq<u8>, c: Seq<u8>)
    requires
        lex_lt(a, b),
        lex_lt(b, c),
    ensures
        lex_lt(a, c),
    decreases a.len(),
{
    if a.len() > 0 && b.len() > 0 && c.len() > 0 && a[0] == b[0] && b[0] == c[0] {
        lemma_lex_transitive(a.drop_first(), b.drop_first(), c.drop_first());
    }
}

/// A common prefix does not decide the order.
pub proof fn lemma_lex_common_prefix(p: Seq<u8>, a: Seq<u8>, b: Seq<u8>)
    ensures
        lex_lt(p + a, p + b) == lex_lt(a, b),
    decreases p.len(),
{
    if p.len() == 0 {
        assert(p + a =~= a);
        assert(p + b =~= b);
    } else {
        lemma_lex_common_prefix(p.drop_first(), a, b);
        assert((p + a).drop_first() =~= p.drop_first() + a);
        assert((p + b).drop_first() =~= p.drop_first() + b);
    }
}

/// Is `a` below `b`?
pub fn bytes_lt(a: &[u8], b: &[u8]) -> (r: bool)
    ensures
        r == lex_lt(a@, b@),
{
    let n: usize = a.len();
    let m: usize = b.len();
    let mut i: usize = 0;
    assert(a@.subrange(0, n as int) =~= a@);
    assert(b@.subrange(0, m as int) =~= b@);
    while i < n && i < m
        invariant
            i <= n == a@.len(),
            i <= m == b@.len(),
            lex_lt(a@, b@) == lex_lt(a@.subrange(i as int, n as int), b@.subrange(
                i as int,
                m as int,
            )),
        decreases n - i,
    {
        if a[i] != b[i] {
            return a[i] < b[i];
        }
        assert(a@.subrange(i as int, n as int).drop_first() =~= a@.subrange(i + 1, n as int));
        assert(b@.subrange(i as int, m as int).drop_first() =~= b@.subrange(i + 1, m as int));
        i = i + 1;
    }
    i < m
}

/// Are the two byte strings the same?
pub fn bytes_eq(a: &[u8], b: &[u8]) -> (r: bool)
    ensures
        r == (a@ == b@),
{
    if a.len() != b.len() {
        return false;
    }
    let n: usize = a.len();
    let mut i: usize = 0;
    while i < n
        invariant
            i <= n == a@.len(),
            n == b@.len(),
            forall|j: int| 0 <= j < i ==> a@[j] == b@[j],
        decreases n - i,
    {
        if a[i] != b[i] {
            return false;
        }
        i = i + 1;
    }
    assert(a@ =~= b@);
    true
}

/// `a` and `b` agree on their first `c` bytes, and there `a` ends or has the smaller byte.
pub open spec fn parts_below(a: Seq<u8>, b: Seq<u8>, c: int) -> bool {
    &&& 0 <= c <= a.len()
    &&& c < b.len()
    &&& forall|i: int| 0 <= i < c ==> #[trigger] a[i] == b[i]
    &&& c == a.len() || a[c] < b[c]
}

/// The order of byte strings is decided where they part: by the byte there, and a string
/// that ends there comes first.
pub proof fn law_byte_strings_are_ordered_where_they_part(a: Seq<u8>, b: Seq<u8>)
    ensures
        lex_lt(a, b) <==> exists|c: int| #[trigger] parts_below(a, b, c),
    decreases a.len(),
{
    if a.len() > 0 && b.len() > 0 && a[0] == b[0] {
        let x = a.drop_first();
        let y = b.drop_first();
        law_byte_strings_are_ordered_where_they_part(x, y);
        if exists|c: int| #[trigger] parts_below(x, y, c) {
            let c = choose|c: int| #[trigger] parts_below(x, y, c);
            assert forall|i: int| 0 <= i < c + 1 implies #[trigger] a[i] == b[i] by {
                if i > 0 {
                    assert(x[i - 1] == y[i - 1]);
                }
            }
            assert(parts_below(a, b, c + 1));
        }
        if exists|c: int| #[trigger] parts_below(a, b, c) {
            let c = choose|c: int| #[trigger] parts_below(a, b, c);
            assert(c > 0);
            assert forall|i: int| 0 <= i < c - 1 implies #[trigger] x[i] == y[i] by {
                assert(a[i + 1] == b[i + 1]);
            }
            assert(parts_below(x, y, c - 1));
        }
    } else {
        if lex_lt(a, b) {
            assert(parts_below(a, b, 0));
        }
        if exists|c: int| #[trigger] parts_below(a, b, c) {
            let c = choose|c: int| #[trigger] parts_below(a, b, c);
            if c > 0 {
                assert(a[0] == b[0]);
            }
        }
    }
}

} // verus!
