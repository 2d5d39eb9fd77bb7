//! How a B-tree node is stored in a page body.
//!
//! A leaf holds a count and its entries, each a key length, the key and a record
//! address. An inner node holds a count, its first child, and for each separator a
//! key length, the key and the child to its right.

use vstd::prelude::*;

use crate::buffer::PageId;
use crate::bytes::{
    bytes_eq, bytes_lt, copy_bytes, le16, le16_bytes, le32, le32_bytes, lemma_le16_bytes,
    lemma_lex_transitive, lex_le, lex_lt, splice, wr_u16, wr_u32, write_bytes,
};
use crate::heap::{rid_at, rid_bytes, Rid};

verus! {

/// No page.
pub const NIL: PageId = u32::MAX;

const RID_LEN: usize = 6;

/// A key and the address that it leads to.
pub type Entry = (Seq<u8>, Rid);

/// The sum of the first `n` sizes.
pub open spec fn sum_to(sizes: Seq<int>, n: int) -> int
    decreases n,
{
    if n <= 0 {
        0
    } else {
        sum_to(sizes, n - 1) + sizes[n - 1]
    }
}

/// The bytes that each entry takes.
pub open spec fn entry_sizes(es: Seq<Entry>) -> Seq<int> {
    Seq::new(es.len(), |i: int| 8 + es[i].0.len() as int)
}

/// The bytes that each separator takes, with the child to its right.
pub open spec fn key_sizes(ks: Seq<Seq<u8>>) -> Seq<int> {
    Seq::new(ks.len(), |i: int| 6 + ks[i].len() as int)
}

/// The bytes that a leaf takes.
pub open spec fn leaf_len(es: Seq<Entry>) -> int {
    2 + sum_to(entry_sizes(es), es.len() as int)
}

/// The bytes that an inner node takes.
pub open spec fn internal_len(ks: Seq<Seq<u8>>) -> int {
    6 + sum_to(key_sizes(ks), ks.len() as int)
}

pub proof fn lemma_sum_agrees(a: Seq<int>, b: Seq<int>, n: int)
    requires
        0 <= n <= a.len(),
        n <= b.len(),
        forall|i: int| 0 <= i < n ==> a[i] == b[i],
    ensures
        sum_to(a, n) == sum_to(b, n),
    decreases n,
{
    if n > 0 {
        lemma_sum_agrees(a, b, n - 1);
    }
}

/// Sums of sizes grow.
pub proof fn lemma_sum_grows(s: Seq<int>, m: int, n: int)
    requires
        0 <= m <= n <= s.len(),
        forall|i: int| 0 <= i < s.len() ==> (#[trigger] s[i]) >= 0,
    ensures
        0 <= sum_to(s, m) <= sum_to(s, n),
        n - m >= 1 ==> sum_to(s, m) + s[m] <= sum_to(s, n),
    decreases n,
{
    if m < n {
        lemma_sum_grows(s, m, n - 1);
    } else if m > 0 {
        lemma_sum_grows(s, m - 1, n - 1);
    }
}

/// A sum splits where its sizes are split.
pub proof fn lemma_sum_split(s: Seq<int>, at: int, n: int)
    requires
        0 <= at <= n <= s.len(),
    ensures
        sum_to(s, n) == sum_to(s, at) + sum_to(s.skip(at), n - at),
    decreases n,
{
    if n > at {
        lemma_sum_split(s, at, n - 1);
        assert(s.skip(at)[n - at - 1] == s[n - 1]);
    }
}

/// Entry `e` is stored at `pos`.
pub open spec fn entry_at(b: Seq<u8>, pos: int, e: Entry) -> bool {
    let k = e.0.len() as int;
    &&& 0 <= pos
    &&& pos + 8 + k <= b.len()
    &&& le16(b, pos) == k
    &&& b.subrange(pos + 2, pos + 2 + k) == e.0
    &&& rid_at(b, pos + 2 + k) == e.1
}

/// The body of a leaf with entries `es`.
pub open spec fn leaf_body(b: Seq<u8>, es: Seq<Entry>) -> bool {
    &&& b.len() >= 2
    &&& le16(b, 0) == es.len()
    &&& forall|i: int|
        0 <= i < es.len() ==> #[trigger] entry_at(b, 2 + sum_to(entry_sizes(es), i), es[i])
}

/// Separator `k` and the child `c` to its right are stored at `pos`.
pub open spec fn sep_at(b: Seq<u8>, pos: int, k: Seq<u8>, c: PageId) -> bool {
    let n = k.len() as int;
    &&& 0 <= pos
    &&& pos + 6 + n <= b.len()
    &&& le16(b, pos) == n
    &&& b.subrange(pos + 2, pos + 2 + n) == k
    &&& le32(b, pos + 2 + n) == c
}

/// The body of an inner node with separators `ks` and children `cs`.
pub open spec fn internal_body(b: Seq<u8>, ks: Seq<Seq<u8>>, cs: Seq<PageId>) -> bool {
    &&& b.len() >= 6
    &&& cs.len() == ks.len() + 1
    &&& le16(b, 0) == ks.len()
    &&& le32(b, 2) == cs[0]
    &&& forall|i: int|
        0 <= i < ks.len() ==> #[trigger] sep_at(
            b,
            6 + sum_to(key_sizes(ks), i),
            ks[i],
            cs[i + 1],
        )
}

/// What a leaf's body holds is determined.
pub proof fn lemma_leaf_body_unique(b: Seq<u8>, x: Seq<Entry>, y: Seq<Entry>)
    requires
        leaf_body(b, x),
        leaf_body(b, y),
    ensures
        x == y,
{
    lemma_entries_agree(b, x, y, x.len() as int);
    assert(x =~= y);
}

proof fn lemma_entries_agree(b: Seq<u8>, x: Seq<Entry>, y: Seq<Entry>, n: int)
    requires
        leaf_body(b, x),
        leaf_body(b, y),
        0 <= n <= x.len(),
    ensures
        forall|i: int| 0 <= i < n ==> x[i] == y[i],
    decreases n,
{
    if n > 0 {
        lemma_entries_agree(b, x, y, n - 1);
        lemma_sum_agrees(entry_sizes(x), entry_sizes(y), n - 1);
        assert(entry_at(b, 2 + sum_to(entry_sizes(x), n - 1), x[n - 1]));
        assert(entry_at(b, 2 + sum_to(entry_sizes(y), n - 1), y[n - 1]));
    }
}

/// What an inner node's body holds is determined.
pub proof fn lemma_internal_body_unique(
    b: Seq<u8>,
    x: Seq<Seq<u8>>,
    cx: Seq<PageId>,
    y: Seq<Seq<u8>>,
    cy: Seq<PageId>,
)
    requires
        internal_body(b, x, cx),
        internal_body(b, y, cy),
    ensures
        x == y,
        cx == cy,
{
    lemma_seps_agree(b, x, cx, y, cy, x.len() as int);
    assert(x =~= y);
    assert(cx =~= cy);
}

proof fn lemma_seps_agree(
    b: Seq<u8>,
    x: Seq<Seq<u8>>,
    cx: Seq<PageId>,
    y: Seq<Seq<u8>>,
    cy: Seq<PageId>,
    n: int,
)
    requires
        internal_body(b, x, cx),
        internal_body(b, y, cy),
        0 <= n <= x.len(),
    ensures
        forall|i: int| 0 <= i < n ==> x[i] == y[i],
        forall|i: int| 0 <= i <= n ==> cx[i] == cy[i],
    decreases n,
{
    if n > 0 {
        lemma_seps_agree(b, x, cx, y, cy, n - 1);
        lemma_sum_agrees(key_sizes(x), key_sizes(y), n - 1);
        assert(sep_at(b, 6 + sum_to(key_sizes(x), n - 1), x[n - 1], cx[(n - 1) + 1]));
        assert(sep_at(b, 6 + sum_to(key_sizes(y), n - 1), y[n - 1], cy[(n - 1) + 1]));
    }
}

/// A leaf: entries in key order, and its neighbours.
#[derive(Debug)]
pub struct Leaf {
    pub entries: Vec<(Vec<u8>, Rid)>,
    pub prev: PageId,
    pub next: PageId,
}

/// An inner node: separators, and one child more.
#[derive(Debug)]
pub struct Internal {
    pub keys: Vec<Vec<u8>>,
    pub children: Vec<PageId>,
}

pub enum Node {
    Leaf(Leaf),
    Internal(Internal),
}

/// Stored entries as plain sequences.
pub open spec fn plain(v: Seq<(Vec<u8>, Rid)>) -> Seq<Entry> {
    Seq::new(v.len(), |i: int| (v[i].0@, v[i].1))
}

/// Keys as plain sequences.
pub open spec fn plain_keys(v: Seq<Vec<u8>>) -> Seq<Seq<u8>> {
    Seq::new(v.len(), |i: int| v[i]@)
}

impl Leaf {
    pub open spec fn es(&self) -> Seq<Entry> {
        plain(self.entries@)
    }
}

impl Internal {
    pub open spec fn ks(&self) -> Seq<Seq<u8>> {
        plain_keys(self.keys@)
    }
}

pub fn leaf_ser_len(entries: &Vec<(Vec<u8>, Rid)>) -> (n: usize)
    requires
        leaf_len(plain(entries@)) <= usize::MAX,
    ensures
        n == leaf_len(plain(entries@)),
{
    let ghost s = entry_sizes(plain(entries@));
    let mut n: usize = 2;
    let mut i: usize = 0;
    while i < entries.len()
        invariant
            i <= entries@.len(),
            s == entry_sizes(plain(entries@)),
            n == 2 + sum_to(s, i as int),
            2 + sum_to(s, entries@.len() as int) <= usize::MAX,
        decreases entries@.len() - i,
    {
        proof {
            lemma_sum_grows(s, i as int, entries@.len() as int);
        }
        n = n + 2 + entries[i].0.len() + RID_LEN;
        i = i + 1;
    }
    n
}

pub fn internal_ser_len(keys: &Vec<Vec<u8>>) -> (n: usize)
    requires
        internal_len(plain_keys(keys@)) <= usize::MAX,
    ensures
        n == internal_len(plain_keys(keys@)),
{
    let ghost s = key_sizes(plain_keys(keys@));
    let mut n: usize = 6;
    let mut i: usize = 0;
    while i < keys.len()
        invariant
            i <= keys@.len(),
            s == key_sizes(plain_keys(keys@)),
            n == 6 + sum_to(s, i as int),
            6 + sum_to(s, keys@.len() as int) <= usize::MAX,
        decreases keys@.len() - i,
    {
        proof {
            lemma_sum_grows(s, i as int, keys@.len() as int);
        }
        n = n + 2 + keys[i].len() + 4;
        i = i + 1;
    }
    n
}

/// Read a little-endian `u16` as a length.
pub fn rd_u16(b: &[u8], at: usize) -> (v: usize)
    requires
        at + 2 <= b@.len(),
    ensures
        v == le16(b@, at as int),
{
    crate::bytes::rd_u16(b, at) as usize
}

/// Read a little-endian `u32`.
pub fn rd_u32(b: &[u8], at: usize) -> (v: u32)
    requires
        at + 4 <= b@.len(),
    ensures
        v == le32(b@, at as int),
{
    crate::bytes::rd_u32(b, at)
}

pub fn parse_leaf(body: &[u8], extra: u64) -> (r: Leaf)
    requires
        exists|es: Seq<Entry>| leaf_body(body@, es),
    ensures
        leaf_body(body@, r.es()),
        r.prev == extra / 0x1_0000_0000,
        r.next == extra % 0x1_0000_0000,
{
    let ghost es = choose|es: Seq<Entry>| leaf_body(body@, es);
    let len: usize = body.len();
    let count: usize = rd_u16(body, 0);
    let mut pos: usize = 2;
    let mut entries: Vec<(Vec<u8>, Rid)> = Vec::with_capacity(count);
    let mut i: usize = 0;
    while i < count
        invariant
            i <= count == es.len(),
            len == body@.len(),
            leaf_body(body@, es),
            pos == 2 + sum_to(entry_sizes(es), i as int),
            plain(entries@) =~= es.take(i as int),
        decreases count - i,
    {
        assert(entry_at(body@, 2 + sum_to(entry_sizes(es), i as int), es[i as int]));
        let klen: usize = rd_u16(body, pos);
        let key: Vec<u8> = copy_bytes(&body[pos + 2..pos + 2 + klen]);
        let rid: Rid = Rid::decode(body, pos + 2 + klen);
        let ghost before = entries@;
        entries.push((key, rid));
        assert(plain(entries@) =~= plain(before).push((key@, rid)));
        pos = pos + 2 + klen + RID_LEN;
        i = i + 1;
    }
    assert(es.take(count as int) =~= es);
    Leaf {
        entries,
        prev: (extra / 0x1_0000_0000) as u32,
        next: (extra % 0x1_0000_0000) as u32,
    }
}

pub fn parse_internal(body: &[u8]) -> (r: Internal)
    requires
        exists|ks: Seq<Seq<u8>>, cs: Seq<PageId>| internal_body(body@, ks, cs),
    ensures
        internal_body(body@, r.ks(), r.children@),
{
    let ghost (ks, cs) = choose|ks: Seq<Seq<u8>>, cs: Seq<PageId>| internal_body(body@, ks, cs);
    let len: usize = body.len();
    let count: usize = rd_u16(body, 0);
    let child0: u32 = rd_u32(body, 2);
    let mut pos: usize = 6;
    let mut children: Vec<PageId> = Vec::with_capacity(count + 1);
    let mut keys: Vec<Vec<u8>> = Vec::with_capacity(count);
    children.push(child0);
    let mut i: usize = 0;
    while i < count
        invariant
            i <= count == ks.len(),
            len == body@.len(),
            internal_body(body@, ks, cs),
            pos == 6 + sum_to(key_sizes(ks), i as int),
            plain_keys(keys@) =~= ks.take(i as int),
            children@ =~= cs.take(i + 1),
        decreases count - i,
    {
        assert(sep_at(body@, 6 + sum_to(key_sizes(ks), i as int), ks[i as int], cs[i + 1]));
        let klen: usize = rd_u16(body, pos);
        let key: Vec<u8> = copy_bytes(&body[pos + 2..pos + 2 + klen]);
        let ghost before = keys@;
        keys.push(key);
        assert(plain_keys(keys@) =~= plain_keys(before).push(key@));
        children.push(rd_u32(body, pos + 2 + klen));
        pos = pos + 2 + klen + 4;
        i = i + 1;
    }
    assert(ks.take(count as int) =~= ks);
    assert(cs.take(count + 1) =~= cs);
    Internal { keys, children }
}

/// What stands before `pos` is not touched by a write at or past `pos`.
proof fn lemma_entry_kept(b: Seq<u8>, c: Seq<u8>, pos: int, e: Entry)
    requires
        entry_at(b, pos, e),
        c.len() == b.len(),
        forall|i: int| 0 <= i < pos + 8 + e.0.len() ==> c[i] == b[i],
    ensures
        entry_at(c, pos, e),
{
    let k = e.0.len() as int;
    assert(c.subrange(pos + 2, pos + 2 + k) =~= b.subrange(pos + 2, pos + 2 + k));
}

proof fn lemma_sep_kept(b: Seq<u8>, c: Seq<u8>, pos: int, k: Seq<u8>, child: PageId)
    requires
        sep_at(b, pos, k, child),
        c.len() == b.len(),
        forall|i: int| 0 <= i < pos + 6 + k.len() ==> c[i] == b[i],
    ensures
        sep_at(c, pos, k, child),
{
    let n = k.len() as int;
    assert(c.subrange(pos + 2, pos + 2 + n) =~= b.subrange(pos + 2, pos + 2 + n));
}

pub fn put_rid(b: &mut [u8], at: usize, rid: Rid)
    requires
        at + 6 <= old(b)@.len(),
    ensures
        final(b)@ == splice(old(b)@, at as int, rid_bytes(rid)),
        rid_at(final(b)@, at as int) == rid,
{
    let len: usize = b.len();
    wr_u32(b, at, rid.page);
    wr_u16(b, at + 4, rid.slot);
    proof {
        assert(le32_bytes(rid.page).len() == 4);
        assert(le16_bytes(rid.slot).len() == 2);
        assert(b@ =~= splice(old(b)@, at as int, rid_bytes(rid)));
        assert(b@.subrange(at as int, at + 6) =~= rid_bytes(rid));
        crate::heap::law_rid_roundtrip(b@, at as int, rid);
    }
}

pub fn write_leaf(body: &mut [u8], leaf: &Leaf)
    requires
        leaf.entries@.len() <= u16::MAX,
        forall|i: int| 0 <= i < leaf.entries@.len() ==> (#[trigger] leaf.entries@[i]).0@.len() <= u16::MAX,
        leaf_len(leaf.es()) <= old(body)@.len(),
    ensures
        final(body)@.len() == old(body)@.len(),
        leaf_body(final(body)@, leaf.es()),
{
    let ghost es = leaf.es();
    let ghost s = entry_sizes(es);
    let count: usize = leaf.entries.len();
    let len: usize = body.len();
    proof {
        lemma_sum_grows(s, 0, count as int);
    }
    wr_u16(body, 0, count as u16);
    let mut pos: usize = 2;
    let mut i: usize = 0;
    while i < count
        invariant
            i <= count == es.len(),
            es == leaf.es(),
            s == entry_sizes(es),
            count <= u16::MAX,
            forall|i: int|
                0 <= i < leaf.entries@.len() ==> (#[trigger] leaf.entries@[i]).0@.len() <= u16::MAX,
            len == body@.len(),
            body@.len() == old(body)@.len(),
            2 + sum_to(s, count as int) <= len,
            pos == 2 + sum_to(s, i as int),
            pos >= 2,
            le16(body@, 0) == es.len(),
            forall|j: int| 0 <= j < i ==> #[trigger] entry_at(body@, 2 + sum_to(s, j), es[j]),
        decreases count - i,
    {
        let ghost before = body@;
        proof {
            lemma_sum_grows(s, i as int, count as int);
            lemma_sum_grows(s, i as int, i as int);
        }
        let key: &Vec<u8> = &leaf.entries[i].0;
        let klen: usize = key.len();
        assert(s[i as int] == 8 + klen);
        assert(leaf.entries@[i as int].0@.len() == klen);
        wr_u16(body, pos, klen as u16);
        write_bytes(body, pos + 2, key.as_slice());
        put_rid(body, pos + 2 + klen, leaf.entries[i].1);
        proof {
            let c = body@;
            assert(le16_bytes(klen as u16).len() == 2);
            assert(rid_bytes(leaf.entries@[i as int].1).len() == 6);
            assert(c.subrange(pos as int, pos + 2) =~= le16_bytes(klen as u16));
            lemma_le16_bytes(c, pos as int, klen as u16);
            assert(c.subrange(pos + 2, pos + 2 + klen) =~= es[i as int].0);
            assert(entry_at(c, pos as int, es[i as int]));
            assert forall|j: int| 0 <= j < i implies #[trigger] entry_at(
                c,
                2 + sum_to(s, j),
                es[j],
            ) by {
                lemma_sum_grows(s, j, i as int);
                assert(s[j] == 8 + es[j].0.len());
                lemma_entry_kept(before, c, 2 + sum_to(s, j), es[j]);
            }
            assert(c[0] == before[0] && c[1] == before[1]);
        }
        pos = pos + 2 + klen + RID_LEN;
        i = i + 1;
    }
}

pub fn write_internal(body: &mut [u8], node: &Internal)
    requires
        node.children@.len() == node.keys@.len() + 1,
        node.keys@.len() <= u16::MAX,
        forall|i: int| 0 <= i < node.keys@.len() ==> (#[trigger] node.keys@[i])@.len() <= u16::MAX,
        internal_len(node.ks()) <= old(body)@.len(),
    ensures
        final(body)@.len() == old(body)@.len(),
        internal_body(final(body)@, node.ks(), node.children@),
{
    let ghost ks = node.ks();
    let ghost cs = node.children@;
    let ghost s = key_sizes(ks);
    let count: usize = node.keys.len();
    let len: usize = body.len();
    proof {
        lemma_sum_grows(s, 0, count as int);
    }
    wr_u16(body, 0, count as u16);
    wr_u32(body, 2, node.children[0]);
    proof {
        assert(le32_bytes(cs[0]).len() == 4);
    }
    let mut pos: usize = 6;
    let mut i: usize = 0;
    while i < count
        invariant
            i <= count == ks.len(),
            ks == node.ks(),
            cs == node.children@,
            cs.len() == count + 1,
            s == key_sizes(ks),
            count <= u16::MAX,
            forall|i: int|
                0 <= i < node.keys@.len() ==> (#[trigger] node.keys@[i])@.len() <= u16::MAX,
            len == body@.len(),
            body@.len() == old(body)@.len(),
            6 + sum_to(s, count as int) <= len,
            pos == 6 + sum_to(s, i as int),
            pos >= 6,
            le16(body@, 0) == ks.len(),
            le32(body@, 2) == cs[0],
            forall|j: int|
                0 <= j < i ==> #[trigger] sep_at(body@, 6 + sum_to(s, j), ks[j], cs[j + 1]),
        decreases count - i,
    {
        let ghost before = body@;
        proof {
            lemma_sum_grows(s, i as int, count as int);
            lemma_sum_grows(s, i as int, i as int);
        }
        let key: &Vec<u8> = &node.keys[i];
        let klen: usize = key.len();
        assert(s[i as int] == 6 + klen);
        assert(node.keys@[i as int]@.len() == klen);
        wr_u16(body, pos, klen as u16);
        write_bytes(body, pos + 2, key.as_slice());
        wr_u32(body, pos + 2 + klen, node.children[i + 1]);
        proof {
            let c = body@;
            assert(le16_bytes(klen as u16).len() == 2);
            assert(le32_bytes(cs[i + 1]).len() == 4);
            assert(c.subrange(pos as int, pos + 2) =~= le16_bytes(klen as u16));
            lemma_le16_bytes(c, pos as int, klen as u16);
            assert(c.subrange(pos + 2, pos + 2 + klen) =~= ks[i as int]);
            assert(sep_at(c, pos as int, ks[i as int], cs[i + 1]));
            assert forall|j: int| 0 <= j < i implies #[trigger] sep_at(
                c,
                6 + sum_to(s, j),
                ks[j],
                cs[j + 1],
            ) by {
                lemma_sum_grows(s, j, i as int);
                assert(s[j] == 6 + ks[j].len());
                lemma_sep_kept(before, c, 6 + sum_to(s, j), ks[j], cs[j + 1]);
            }
            assert(forall|x: int| 0 <= x < 6 ==> c[x] == before[x]);
        }
        pos = pos + 2 + klen + 4;
        i = i + 1;
    }
}

/// The child that a key belongs to: past every leading separator that is not above
/// the key.
pub open spec fn child_of(ks: Seq<Seq<u8>>, key: Seq<u8>) -> int
    decreases ks.len(),
{
    if ks.len() == 0 || lex_lt(key, ks[0]) {
        0
    } else {
        1 + child_of(ks.drop_first(), key)
    }
}

pub proof fn lemma_child_of(ks: Seq<Seq<u8>>, key: Seq<u8>)
    ensures
        0 <= child_of(ks, key) <= ks.len(),
        forall|j: int| 0 <= j < child_of(ks, key) ==> lex_le(#[trigger] ks[j], key),
        child_of(ks, key) < ks.len() ==> lex_lt(key, ks[child_of(ks, key)]),
    decreases ks.len(),
{
    if ks.len() > 0 && !lex_lt(key, ks[0]) {
        let d = ks.drop_first();
        lemma_child_of(d, key);
        assert forall|j: int| 0 <= j < child_of(ks, key) implies lex_le(#[trigger] ks[j], key) by {
            if j > 0 {
                assert(d[j - 1] == ks[j]);
            }
        }
    }
}

impl Internal {
    pub fn child_index(&self, key: &[u8]) -> (r: usize)
        ensures
            r == child_of(self.ks(), key@),
    {
        let mut i: usize = 0;
        assert(self.ks().skip(0) =~= self.ks());
        while i < self.keys.len() && !bytes_lt(key, self.keys[i].as_slice())
            invariant
                i <= self.keys@.len(),
                child_of(self.ks(), key@) == i + child_of(self.ks().skip(i as int), key@),
            ensures
                i == child_of(self.ks(), key@),
            decreases self.keys@.len() - i,
        {
            assert(self.ks().skip(i as int).drop_first() =~= self.ks().skip(i + 1));
            i = i + 1;
        }
        i
    }
}

/// How many leading entries lie below a key.
pub open spec fn rank(es: Seq<Entry>, key: Seq<u8>) -> int
    decreases es.len(),
{
    if es.len() == 0 || !lex_lt(es[0].0, key) {
        0
    } else {
        1 + rank(es.drop_first(), key)
    }
}

pub proof fn lemma_rank(es: Seq<Entry>, key: Seq<u8>)
    ensures
        0 <= rank(es, key) <= es.len(),
        forall|j: int| 0 <= j < rank(es, key) ==> lex_lt((#[trigger] es[j]).0, key),
        rank(es, key) < es.len() ==> !lex_lt(es[rank(es, key)].0, key),
    decreases es.len(),
{
    if es.len() > 0 && lex_lt(es[0].0, key) {
        let d = es.drop_first();
        lemma_rank(d, key);
        assert forall|j: int| 0 <= j < rank(es, key) implies lex_lt((#[trigger] es[j]).0, key) by {
            if j > 0 {
                assert(d[j - 1] == es[j]);
            }
        }
    }
}

/// Keys ascend strictly.
pub open spec fn ascending(es: Seq<Entry>) -> bool {
    forall|i: int, j: int|
        0 <= i < j < es.len() ==> lex_lt((#[trigger] es[i]).0, (#[trigger] es[j]).0)
}

/// The entry with a key, or where it would go.
pub fn search(entries: &Vec<(Vec<u8>, Rid)>, key: &[u8]) -> (r: Result<usize, usize>)
    requires
        ascending(plain(entries@)),
    ensures
        match r {
            Ok(i) => i == rank(plain(entries@), key@) && i < entries@.len()
                && entries@[i as int].0@ == key@,
            Err(i) => i == rank(plain(entries@), key@) && (i < entries@.len() ==> plain(
                entries@,
            )[i as int].0 != key@),
        },
{
    let ghost es = plain(entries@);
    let mut lo: usize = 0;
    let mut hi: usize = entries.len();
    proof {
        lemma_rank(es, key@);
    }
    while lo < hi
        invariant
            lo <= rank(es, key@) <= hi <= entries@.len(),
            es == plain(entries@),
            ascending(es),
        decreases hi - lo,
    {
        let mid: usize = lo + (hi - lo) / 2;
        proof {
            lemma_rank(es, key@);
            assert(es[mid as int].0 == entries@[mid as int].0@);
        }
        if bytes_lt(entries[mid].0.as_slice(), key) {
            proof {
                let r = rank(es, key@);
                if r <= mid {
                    if r < mid {
                        assert(lex_lt(es[r].0, es[mid as int].0));
                        lemma_lex_transitive(es[r].0, es[mid as int].0, key@);
                    }
                    assert(false);
                }
            }
            lo = mid + 1;
        } else {
            proof {
                if rank(es, key@) > mid {
                    assert(lex_lt(es[mid as int].0, key@));
                }
            }
            hi = mid;
        }
    }
    if lo < entries.len() && bytes_eq(entries[lo].0.as_slice(), key) {
        return Ok(lo);
    }
    Err(lo)
}

/// The first position from `i` on by which half of the sizes are passed.
pub open spec fn half_from(sizes: Seq<int>, i: int) -> int
    decreases sizes.len() - i,
{
    if i >= sizes.len() {
        sizes.len() as int / 2
    } else if 2 * sum_to(sizes, i + 1) >= sum_to(sizes, sizes.len() as int) {
        i + 1
    } else {
        half_from(sizes, i + 1)
    }
}

/// Where a sequence of sizes is split: after the first element by which half is
/// passed, but leaving something on either side.
pub open spec fn split_point(sizes: Seq<int>) -> int {
    let h = half_from(sizes, 0);
    if h < 1 {
        1
    } else if h > sizes.len() - 1 {
        sizes.len() - 1
    } else {
        h
    }
}

pub fn split_at_bytes(sizes: &Vec<usize>) -> (r: usize)
    requires
        sizes@.len() >= 2,
        2 * sum_to(as_ints(sizes@), sizes@.len() as int) <= usize::MAX,
    ensures
        r == split_point(as_ints(sizes@)),
        1 <= r <= sizes@.len() - 1,
{
    let n: usize = sizes.len();
    let ghost s = as_ints(sizes@);
    let mut total: usize = 0;
    let mut i: usize = 0;
    while i < n
        invariant
            i <= n == sizes@.len(),
            s == as_ints(sizes@),
            total == sum_to(s, i as int),
            2 * sum_to(s, n as int) <= usize::MAX,
        decreases n - i,
    {
        proof {
            lemma_sum_grows(s, i as int, n as int);
        }
        total = total + sizes[i];
        i = i + 1;
    }
    let mut acc: usize = 0;
    let mut j: usize = 0;
    while j < n
        invariant
            j <= n == sizes@.len(),
            n >= 2,
            s == as_ints(sizes@),
            total == sum_to(s, n as int),
            acc == sum_to(s, j as int),
            2 * sum_to(s, n as int) <= usize::MAX,
            half_from(s, 0) == half_from(s, j as int),
        decreases n - j,
    {
        proof {
            lemma_sum_grows(s, j as int, n as int);
            lemma_sum_grows(s, j + 1, n as int);
        }
        acc = acc + sizes[j];
        if acc * 2 >= total {
            return clamp(j + 1, n - 1);
        }
        j = j + 1;
    }
    clamp(n / 2, n - 1)
}

pub open spec fn as_ints(v: Seq<usize>) -> Seq<int> {
    Seq::new(v.len(), |i: int| v[i] as int)
}

fn clamp(x: usize, hi: usize) -> (r: usize)
    requires
        hi >= 1,
    ensures
        r == if x < 1 {
            1
        } else if x > hi {
            hi
        } else {
            x
        },
{
    if x < 1 {
        1
    } else if x > hi {
        hi
    } else {
        x
    }
}

/// The key lies in `[low, high)`, a missing end being open.
pub open spec fn within(k: Seq<u8>, low: Option<Seq<u8>>, high: Option<Seq<u8>>) -> bool {
    &&& low matches Some(l) ==> lex_le(l, k)
    &&& high matches Some(h) ==> lex_lt(k, h)
}

pub fn in_bounds(k: &[u8], low: Option<&[u8]>, high: Option<&[u8]>) -> (r: bool)
    ensures
        r == within(
            k@,
            match low {
                Some(l) => Some(l@),
                None => None,
            },
            match high {
                Some(h) => Some(h@),
                None => None,
            },
        ),
{
    if let Some(l) = low {
        if bytes_lt(k, l) {
            return false;
        }
    }
    if let Some(h) = high {
        if !bytes_lt(k, h) {
            return false;
        }
    }
    true
}

} // verus!
