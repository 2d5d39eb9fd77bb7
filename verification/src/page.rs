//! The 8 KB slotted page, the unit of storage.
//!
//! Every page carries a header `{checksum, page LSN, flags, type, version,
//! slot count, free start, free end, link}` and a body organized as a slotted
//! page: a slot array growing forward from the header, tuple bytes packed from
//! the tail, a free gap between them.
//!
//!   * A slot's index never changes once assigned, compaction included. Deletes
//!     leave a tombstone; they never renumber.
//!   * A CRC32 over everything past the checksum field lets every page verify
//!     itself.

use vstd::prelude::*;

use crate::bytes::{
    copy_bytes, le16, le16_bytes, le32, le32_bytes, le64, le64_bytes, lemma_le32_bytes, rd_u16, rd_u32, rd_u64, splice, wr_u16, wr_u32, wr_u64,
    write_bytes, zero_fill,
};
use crate::page::crc::{crc32, crc_of, lemma_one_changed_byte_is_detected};

pub mod crc;
pub mod raw;

verus! {

/// Page size in bytes.
pub const PAGE_SIZE: usize = 8192;

/// Fixed page-header size. Layout (little-endian):
/// ```text
///  0..4   checksum   u32   CRC32 of bytes [4, PAGE_SIZE)
///  4..12  page_lsn   u64   LSN of the last log record that touched this page
/// 12..14  flags      u16   set by higher layers
/// 14..15  page_type  u8    Meta / Heap / BTreeLeaf / BTreeInternal / FreeList / Overflow
/// 15..16  version    u8    page format version
/// 16..18  slot_count u16   number of slots (live + tombstoned)
/// 18..20  free_start u16   end of the slot array
/// 20..22  free_end   u16   start of the tuple heap
/// 22..24  reserved   u16
/// 24..32  extra      u64   generic link
/// ```
pub const HEADER_SIZE: usize = 32;

/// Size of one slot entry: `{offset: u16, len: u16}`.
pub const SLOT_SIZE: usize = 4;

/// Current page format version.
pub const PAGE_FORMAT_VERSION: u8 = 1;

/// The largest tuple that can fit in an otherwise-empty page.
pub const MAX_TUPLE_SIZE: usize = 8156;

/// A slot index within a page.
pub type SlotId = u16;

pub const OFF_CHECKSUM: usize = 0;

pub const OFF_PAGE_LSN: usize = 4;

pub const OFF_FLAGS: usize = 12;

pub const OFF_TYPE: usize = 14;

pub const OFF_VERSION: usize = 15;

pub const OFF_SLOT_COUNT: usize = 16;

pub const OFF_FREE_START: usize = 18;

pub const OFF_FREE_END: usize = 20;

pub const OFF_EXTRA: usize = 24;

/// What a page holds.
#[derive(Clone, Copy, Debug, PartialEq, Eq, Structural)]
pub enum PageType {
    Meta,
    Heap,
    BTreeLeaf,
    BTreeInternal,
    FreeList,
    Overflow,
}

/// The page type that a header byte stands for.
pub open spec fn type_of_byte(v: u8) -> Option<PageType> {
    if v == 0 {
        Some(PageType::Meta)
    } else if v == 1 {
        Some(PageType::Heap)
    } else if v == 2 {
        Some(PageType::BTreeLeaf)
    } else if v == 3 {
        Some(PageType::BTreeInternal)
    } else if v == 4 {
        Some(PageType::FreeList)
    } else if v == 5 {
        Some(PageType::Overflow)
    } else {
        None
    }
}

impl PageType {
    /// The header byte of a page type.
    pub open spec fn byte(self) -> u8 {
        match self {
            PageType::Meta => 0,
            PageType::Heap => 1,
            PageType::BTreeLeaf => 2,
            PageType::BTreeInternal => 3,
            PageType::FreeList => 4,
            PageType::Overflow => 5,
        }
    }

    /// The page type stored as `v`, if any.
    pub fn from_u8(v: u8) -> (t: Option<PageType>)
        ensures
            t == type_of_byte(v),
            t matches Some(p) ==> p.byte() == v,
    {
        match v {
            0 => Some(PageType::Meta),
            1 => Some(PageType::Heap),
            2 => Some(PageType::BTreeLeaf),
            3 => Some(PageType::BTreeInternal),
            4 => Some(PageType::FreeList),
            5 => Some(PageType::Overflow),
            _ => None,
        }
    }

    /// The byte that stores this page type.
    pub fn to_u8(self) -> (v: u8)
        ensures
            v == self.byte(),
            type_of_byte(v) == Some(self),
    {
        match self {
            PageType::Meta => 0,
            PageType::Heap => 1,
            PageType::BTreeLeaf => 2,
            PageType::BTreeInternal => 3,
            PageType::FreeList => 4,
            PageType::Overflow => 5,
        }
    }
}

/// Errors from page operations. All are recoverable by the caller.
#[derive(Clone, Copy, Debug, PartialEq, Eq)]
pub enum PageError {
    /// Not enough room, even after compaction.
    PageFull,
    /// The tuple is larger than any page could hold.
    TupleTooLarge,
    /// The slot index is out of range or refers to a tombstone.
    BadSlot,
    /// The header is structurally impossible.
    Corrupt(&'static str),
}

/// The text of an error.
pub open spec fn error_text(e: PageError) -> Seq<char> {
    match e {
        PageError::PageFull => "page full"@,
        PageError::TupleTooLarge => "tuple too large for a page"@,
        PageError::BadSlot => "bad or dead slot"@,
        PageError::Corrupt(w) => "corrupt page: "@ + w@,
    }
}

impl PageError {
    pub fn text(&self) -> (t: String)
        ensures
            t@ == error_text(*self),
    {
        match *self {
            PageError::PageFull => "page full".to_owned(),
            PageError::TupleTooLarge => "tuple too large for a page".to_owned(),
            PageError::BadSlot => "bad or dead slot".to_owned(),
            PageError::Corrupt(w) => "corrupt page: ".to_owned().concat(w),
        }
    }
}

/// The number of slots of page `b`.
pub open spec fn count_of(b: Seq<u8>) -> int {
    le16(b, 16)
}

/// The end of the slot array as the header gives it.
pub open spec fn free_start_of(b: Seq<u8>) -> int {
    le16(b, 18)
}

/// The start of the tuple heap as the header gives it.
pub open spec fn free_end_of(b: Seq<u8>) -> int {
    le16(b, 20)
}

/// Where slot `i` says its tuple starts; zero marks a tombstone.
pub open spec fn slot_off(b: Seq<u8>, i: int) -> int {
    le16(b, 32 + 4 * i)
}

/// How long slot `i` says its tuple is.
pub open spec fn slot_len(b: Seq<u8>, i: int) -> int {
    le16(b, 34 + 4 * i)
}

/// The tuple in slot `i`, if it is live.
pub open spec fn tuple_at(b: Seq<u8>, i: int) -> Option<Seq<u8>> {
    if slot_off(b, i) == 0 {
        None
    } else {
        Some(b.subrange(slot_off(b, i), slot_off(b, i) + slot_len(b, i)))
    }
}

/// What the page holds: one entry per slot, `None` for a tombstone.
pub open spec fn tuples_of(b: Seq<u8>) -> Seq<Option<Seq<u8>>> {
    Seq::new(count_of(b) as nat, |i: int| tuple_at(b, i))
}

/// The slot array lies in the page.
pub open spec fn slots_fit(b: Seq<u8>) -> bool {
    &&& b.len() == PAGE_SIZE
    &&& 32 + 4 * count_of(b) <= PAGE_SIZE
}

/// The slot array lies in the page and every live slot's tuple does, so every
/// read is in bounds.
pub open spec fn readable(b: Seq<u8>) -> bool {
    &&& slots_fit(b)
    &&& forall|i: int|
        0 <= i < count_of(b) && slot_off(b, i) != 0 ==> #[trigger] slot_off(b, i) + slot_len(b, i)
            <= PAGE_SIZE
}

/// The bytes taken by one slot's tuple.
pub open spec fn tuple_size(t: Option<Seq<u8>>) -> nat {
    match t {
        Some(d) => d.len(),
        None => 0,
    }
}

/// The bytes taken by all live tuples.
pub open spec fn live_bytes(ts: Seq<Option<Seq<u8>>>) -> nat
    decreases ts.len(),
{
    if ts.len() == 0 {
        0
    } else {
        live_bytes(ts.drop_last()) + tuple_size(ts.last())
    }
}

/// The number of live tuples.
pub open spec fn live_tuples(ts: Seq<Option<Seq<u8>>>) -> nat
    decreases ts.len(),
{
    if ts.len() == 0 {
        0
    } else {
        live_tuples(ts.drop_last()) + if ts.last() is Some {
            1nat
        } else {
            0nat
        }
    }
}

/// The live tuples with their slots, in slot order.
pub open spec fn live_pairs(ts: Seq<Option<Seq<u8>>>) -> Seq<(SlotId, Seq<u8>)>
    decreases ts.len(),
{
    if ts.len() == 0 {
        Seq::empty()
    } else {
        match ts.last() {
            Some(d) => live_pairs(ts.drop_last()).push(((ts.len() - 1) as u16, d)),
            None => live_pairs(ts.drop_last()),
        }
    }
}

/// The tuples of slots `i` and `j` do not overlap.
pub open spec fn apart(b: Seq<u8>, i: int, j: int) -> bool {
    ||| slot_off(b, i) == 0
    ||| slot_off(b, j) == 0
    ||| slot_off(b, i) + slot_len(b, i) <= slot_off(b, j)
    ||| slot_off(b, j) + slot_len(b, j) <= slot_off(b, i)
}

/// A well-formed slotted page: the free window lies between the slot array and
/// the tuple heap, live tuples lie in the heap and do not overlap, and they take
/// no more room than the heap has.
pub open spec fn page_wf(b: Seq<u8>) -> bool {
    &&& readable(b)
    &&& free_start_of(b) == 32 + 4 * count_of(b)
    &&& free_start_of(b) <= free_end_of(b) <= PAGE_SIZE
    &&& forall|i: int|
        0 <= i < count_of(b) && slot_off(b, i) != 0 ==> #[trigger] slot_off(b, i) >= free_end_of(b)
    &&& forall|i: int, j: int|
        0 <= i < j < count_of(b) ==> #[trigger] apart(b, i, j)
    &&& live_bytes(tuples_of(b)) <= PAGE_SIZE - free_end_of(b)
}

/// Both pages carry the same checksum field, LSN, flags, type, version, reserved
/// bytes and link.
pub open spec fn same_header(a: Seq<u8>, b: Seq<u8>) -> bool {
    &&& a.len() == b.len()
    &&& forall|i: int| 0 <= i < 16 || 22 <= i < 32 ==> #[trigger] a[i] == b[i]
}

/// The free bytes a compaction leaves: what neither header, slots nor live
/// tuples take.
pub open spec fn room(ts: Seq<Option<Seq<u8>>>) -> int {
    PAGE_SIZE - HEADER_SIZE - SLOT_SIZE * ts.len() - live_bytes(ts)
}

/// The first tombstone, or the number of slots.
pub open spec fn first_dead(ts: Seq<Option<Seq<u8>>>) -> int
    decreases ts.len(),
{
    if ts.len() == 0 {
        0
    } else if first_dead(ts.drop_last()) < ts.len() - 1 {
        first_dead(ts.drop_last())
    } else if ts.last() is None {
        ts.len() - 1
    } else {
        ts.len() as int
    }
}

/// The slots with `d` in slot `s`, which may be the next new one.
pub open spec fn placed(ts: Seq<Option<Seq<u8>>>, s: int, d: Seq<u8>) -> Seq<Option<Seq<u8>>> {
    if s < ts.len() {
        ts.update(s, Some(d))
    } else {
        ts.push(Some(d))
    }
}

/// The slot entry that an insertion adds, none where it reuses a tombstone.
pub open spec fn slot_overhead(ts: Seq<Option<Seq<u8>>>) -> int {
    if first_dead(ts) < ts.len() {
        0
    } else {
        SLOT_SIZE as int
    }
}

pub proof fn lemma_live_bytes_update(ts: Seq<Option<Seq<u8>>>, i: int, t: Option<Seq<u8>>)
    requires
        0 <= i < ts.len(),
    ensures
        live_bytes(ts.update(i, t)) == live_bytes(ts) - tuple_size(ts[i]) + tuple_size(t),
    decreases ts.len(),
{
    if i == ts.len() - 1 {
        assert(ts.update(i, t).drop_last() =~= ts.drop_last());
    } else {
        lemma_live_bytes_update(ts.drop_last(), i, t);
        assert(ts.update(i, t).drop_last() =~= ts.drop_last().update(i, t));
    }
}

pub proof fn lemma_live_bytes_prefix(ts: Seq<Option<Seq<u8>>>, i: int, j: int)
    requires
        0 <= i <= j <= ts.len(),
    ensures
        live_bytes(ts.take(i)) <= live_bytes(ts.take(j)),
    decreases j,
{
    if i < j {
        lemma_live_bytes_prefix(ts, i, j - 1);
        assert(ts.take(j).drop_last() =~= ts.take(j - 1));
    }
}

pub proof fn lemma_first_dead(ts: Seq<Option<Seq<u8>>>)
    ensures
        0 <= first_dead(ts) <= ts.len(),
        forall|i: int| 0 <= i < first_dead(ts) ==> (#[trigger] ts[i]) is Some,
        first_dead(ts) < ts.len() ==> ts[first_dead(ts)] is None,
    decreases ts.len(),
{
    if ts.len() > 0 {
        lemma_first_dead(ts.drop_last());
        let d = ts.drop_last();
        assert(forall|i: int| 0 <= i < d.len() ==> d[i] == ts[i]);
    }
}

/// The page type and header of two pages with the same header agree.
pub proof fn lemma_same_header(a: Seq<u8>, b: Seq<u8>)
    requires
        same_header(a, b),
        a.len() == PAGE_SIZE,
    ensures
        le32(a, 0) == le32(b, 0),
        le64(a, 4) == le64(b, 4),
        le16(a, 12) == le16(b, 12),
        a[14] == b[14],
        a[15] == b[15],
        le64(a, 24) == le64(b, 24),
{
    assert(forall|i: int| 0 <= i < 16 || 22 <= i < 32 ==> #[trigger] b[i] == a[i]);
}

/// Placing a tuple in a tombstone or a new slot adds its size.
proof fn lemma_live_bytes_placed(ts: Seq<Option<Seq<u8>>>, s: int, d: Seq<u8>)
    requires
        0 <= s <= ts.len(),
        s < ts.len() ==> ts[s] is None,
    ensures
        live_bytes(placed(ts, s, d)) == live_bytes(ts) + d.len(),
{
    if s < ts.len() {
        lemma_live_bytes_update(ts, s, Some(d));
    } else {
        assert(ts.push(Some(d)).drop_last() =~= ts);
    }
}

/// Placing a tuple just below the tuple heap in a dead or new slot.
proof fn lemma_place(b: Seq<u8>, c: Seq<u8>, s: int, d: Seq<u8>)
    requires
        page_wf(b),
        c.len() == PAGE_SIZE,
        0 <= s <= count_of(b),
        s < count_of(b) ==> slot_off(b, s) == 0,
        count_of(c) == if s < count_of(b) {
            count_of(b)
        } else {
            count_of(b) + 1
        },
        free_start_of(c) == 32 + 4 * count_of(c),
        free_end_of(c) == free_end_of(b) - d.len(),
        free_start_of(c) <= free_end_of(c),
        forall|i: int|
            0 <= i < count_of(b) && i != s ==> #[trigger] slot_off(c, i) == slot_off(b, i)
                && slot_len(c, i) == slot_len(b, i),
        slot_off(c, s) == free_end_of(c),
        slot_len(c, s) == d.len(),
        forall|k: int| free_end_of(b) <= k < PAGE_SIZE ==> #[trigger] c[k] == b[k],
        c.subrange(free_end_of(c), free_end_of(b)) == d,
    ensures
        page_wf(c),
        tuples_of(c) == placed(tuples_of(b), s, d),
{
    let tb = tuples_of(b);
    let tc = tuples_of(c);
    assert forall|i: int| 0 <= i < count_of(b) && i != s implies #[trigger] tc[i] == tb[i] by {
        assert(slot_off(c, i) == slot_off(b, i));
        if slot_off(b, i) != 0 {
            assert(slot_off(b, i) >= free_end_of(b));
            assert(slot_off(b, i) + slot_len(b, i) <= PAGE_SIZE);
            assert(c.subrange(slot_off(b, i), slot_off(b, i) + slot_len(b, i)) =~= b.subrange(
                slot_off(b, i),
                slot_off(b, i) + slot_len(b, i),
            ));
        }
    }
    assert(tc[s] == Some(d));
    assert(tc =~= placed(tb, s, d));
    if s < count_of(b) {
        assert(tb[s] is None);
        lemma_live_bytes_update(tb, s, Some(d));
    } else {
        assert(tb.push(Some(d)).drop_last() =~= tb);
    }
    assert forall|i: int| 0 <= i < count_of(c) && slot_off(c, i) != 0 implies #[trigger] slot_off(
        c,
        i,
    ) >= free_end_of(c) && slot_off(c, i) + slot_len(c, i) <= PAGE_SIZE by {
        if i != s {
            assert(slot_off(c, i) == slot_off(b, i));
            assert(slot_off(b, i) + slot_len(b, i) <= PAGE_SIZE);
        }
    }
    assert forall|i: int, j: int| 0 <= i < j < count_of(c) implies #[trigger] apart(c, i, j) by {
        if i != s && j != s {
            assert(apart(b, i, j));
            assert(slot_off(c, i) == slot_off(b, i));
            assert(slot_off(c, j) == slot_off(b, j));
        } else if i == s {
            assert(slot_off(c, j) == slot_off(b, j));
        } else {
            assert(slot_off(c, i) == slot_off(b, i));
        }
    }
}

/// Shortening slot `s` in place, to nothing where `off` is zero.
proof fn lemma_shrink(b: Seq<u8>, c: Seq<u8>, s: int, off: int, len: int)
    requires
        page_wf(b),
        c.len() == PAGE_SIZE,
        0 <= s < count_of(b),
        count_of(c) == count_of(b),
        free_start_of(c) == free_start_of(b),
        free_end_of(c) == free_end_of(b),
        forall|i: int|
            0 <= i < count_of(b) && i != s ==> #[trigger] slot_off(c, i) == slot_off(b, i)
                && slot_len(c, i) == slot_len(b, i),
        slot_off(c, s) == off,
        slot_len(c, s) == len,
        slot_off(b, s) != 0,
        off == 0 || off == slot_off(b, s),
        0 <= len <= slot_len(b, s),
        forall|k: int|
            free_end_of(b) <= k < PAGE_SIZE && !(slot_off(b, s) <= k < slot_off(b, s) + len)
                ==> #[trigger] c[k] == b[k],
    ensures
        page_wf(c),
        tuples_of(c) == tuples_of(b).update(
            s,
            if off == 0 {
                None
            } else {
                Some(c.subrange(off, off + len))
            },
        ),
{
    let tb = tuples_of(b);
    let tc = tuples_of(c);
    let t = if off == 0 {
        None
    } else {
        Some(c.subrange(off, off + len))
    };
    assert(slot_off(b, s) + slot_len(b, s) <= PAGE_SIZE);
    assert forall|i: int| 0 <= i < count_of(b) && i != s implies #[trigger] tc[i] == tb[i] by {
        assert(slot_off(c, i) == slot_off(b, i));
        if slot_off(b, i) != 0 {
            assert(slot_off(b, i) >= free_end_of(b));
            assert(slot_off(b, i) + slot_len(b, i) <= PAGE_SIZE);
            if i < s {
                assert(apart(b, i, s));
            } else {
                assert(apart(b, s, i));
            }
            assert(c.subrange(slot_off(b, i), slot_off(b, i) + slot_len(b, i)) =~= b.subrange(
                slot_off(b, i),
                slot_off(b, i) + slot_len(b, i),
            ));
        }
    }
    assert(tc[s] == t);
    assert(tc =~= tb.update(s, t));
    lemma_live_bytes_update(tb, s, t);
    assert(tuple_size(tb[s]) == slot_len(b, s));
    assert forall|i: int| 0 <= i < count_of(c) && slot_off(c, i) != 0 implies #[trigger] slot_off(
        c,
        i,
    ) >= free_end_of(c) && slot_off(c, i) + slot_len(c, i) <= PAGE_SIZE by {
        assert(slot_off(b, i) >= free_end_of(b));
        assert(slot_off(b, i) + slot_len(b, i) <= PAGE_SIZE);
        if i != s {
            assert(slot_off(c, i) == slot_off(b, i));
        }
    }
    assert forall|i: int, j: int| 0 <= i < j < count_of(c) implies #[trigger] apart(c, i, j) by {
        assert(apart(b, i, j));
        if i != s {
            assert(slot_off(c, i) == slot_off(b, i));
        }
        if j != s {
            assert(slot_off(c, j) == slot_off(b, j));
        }
    }
}

/// Where compaction puts the tuple of slot `i`.
pub open spec fn packed_off(ts: Seq<Option<Seq<u8>>>, i: int) -> int {
    PAGE_SIZE - live_bytes(ts.take(i + 1))
}

/// Repacking every live tuple against the page tail in slot order.
proof fn lemma_pack(b: Seq<u8>, c: Seq<u8>)
    requires
        page_wf(b),
        c.len() == PAGE_SIZE,
        count_of(c) == count_of(b),
        free_start_of(c) == free_start_of(b),
        free_end_of(c) == PAGE_SIZE - live_bytes(tuples_of(b)),
        forall|i: int|
            0 <= i < count_of(b) ==> (#[trigger] slot_off(c, i) == if tuples_of(b)[i] is Some {
                packed_off(tuples_of(b), i)
            } else {
                0
            }),
        forall|i: int|
            0 <= i < count_of(b) && tuples_of(b)[i] is Some ==> {
                &&& #[trigger] slot_len(c, i) == slot_len(b, i)
                &&& c.subrange(
                    packed_off(tuples_of(b), i),
                    packed_off(tuples_of(b), i) + slot_len(b, i),
                ) == tuples_of(b)[i]->0
            },
    ensures
        page_wf(c),
        tuples_of(c) == tuples_of(b),
{
    let ts = tuples_of(b);
    let n = count_of(b);
    assert(ts.take(n) =~= ts);
    assert forall|i: int| 0 <= i < n && ts[i] is Some implies {
        &&& packed_off(ts, i) >= free_end_of(c)
        &&& packed_off(ts, i) + slot_len(b, i) == PAGE_SIZE - live_bytes(ts.take(i))
        &&& #[trigger] slot_off(c, i) != 0
        &&& slot_off(c, i) == packed_off(ts, i)
    } by {
        lemma_live_bytes_prefix(ts, i + 1, n);
        assert(ts.take(i + 1).drop_last() =~= ts.take(i));
    }
    assert forall|i: int| 0 <= i < n implies #[trigger] tuples_of(c)[i] == ts[i] by {
        assert(slot_off(c, i) == if ts[i] is Some {
            packed_off(ts, i)
        } else {
            0
        });
        if ts[i] is Some {
            assert(slot_len(c, i) == slot_len(b, i));
        }
    }
    assert(tuples_of(c) =~= ts);
    assert forall|i: int| 0 <= i < n && slot_off(c, i) != 0 implies #[trigger] slot_off(c, i)
        >= free_end_of(c) && slot_off(c, i) + slot_len(c, i) <= PAGE_SIZE by {
        assert(ts[i] is Some);
        assert(slot_len(c, i) == slot_len(b, i));
    }
    assert forall|i: int, j: int| 0 <= i < j < count_of(c) implies #[trigger] apart(c, i, j) by {
        if slot_off(c, i) != 0 && slot_off(c, j) != 0 {
            assert(ts[i] is Some && ts[j] is Some);
            assert(slot_len(c, i) == slot_len(b, i));
            assert(slot_len(c, j) == slot_len(b, j));
            lemma_live_bytes_prefix(ts, i + 1, j);
        }
    }
}

/// Two pages agree on everything but the checksum field.
pub open spec fn same_past_checksum(b: Seq<u8>, c: Seq<u8>) -> bool {
    &&& b.len() == PAGE_SIZE
    &&& c.len() == PAGE_SIZE
    &&& forall|i: int| 4 <= i < PAGE_SIZE ==> #[trigger] c[i] == b[i]
}

/// The checksum field does not matter to what a page holds.
pub proof fn lemma_same_past_checksum(b: Seq<u8>, c: Seq<u8>)
    requires
        same_past_checksum(b, c),
    ensures
        structure_ok(b) == structure_ok(c),
        page_wf(b) ==> page_wf(c) && tuples_of(c) == tuples_of(b),
        structure_ok(b) ==> tuples_of(c) == tuples_of(b),
        count_of(c) == count_of(b),
        free_start_of(c) == free_start_of(b),
        free_end_of(c) == free_end_of(b),
        le64(c, 4) == le64(b, 4),
        le64(c, 24) == le64(b, 24),
{
    if slots_fit(b) {
        assert forall|i: int| 0 <= i < count_of(b) implies #[trigger] slot_off(c, i) == slot_off(
            b,
            i,
        ) && slot_len(c, i) == slot_len(b, i) by {}
        assert forall|i: int| 0 <= i < count_of(b) implies #[trigger] slot_off(b, i) == slot_off(
            c,
            i,
        ) by {
            assert(slot_off(c, i) == slot_off(b, i));
        }
        assert forall|i: int, j: int| 0 <= i < j < count_of(b) implies #[trigger] apart(c, i, j)
            == apart(b, i, j) by {
            assert(slot_off(c, i) == slot_off(b, i) && slot_off(c, j) == slot_off(b, j));
        }
        if structure_ok(b) || page_wf(b) {
            assert forall|i: int| 0 <= i < count_of(b) implies #[trigger] tuple_at(c, i)
                == tuple_at(b, i) by {
                assert(slot_off(c, i) == slot_off(b, i));
                if slot_off(b, i) != 0 {
                    assert(slot_off(b, i) >= free_end_of(b));
                    assert(c.subrange(slot_off(b, i), slot_off(b, i) + slot_len(b, i))
                        =~= b.subrange(slot_off(b, i), slot_off(b, i) + slot_len(b, i)));
                }
            }
            assert(tuples_of(c) =~= tuples_of(b));
        }
    }
}

/// Bringing the checksum up to date changes nothing past the checksum field, and
/// the page then verifies.
pub proof fn lemma_stamped(b: Seq<u8>)
    requires
        b.len() == PAGE_SIZE,
    ensures
        stamped(b).len() == PAGE_SIZE,
        checksum_ok(stamped(b)),
        same_past_checksum(b, stamped(b)),
        structure_ok(b) == structure_ok(stamped(b)),
        page_wf(b) ==> page_wf(stamped(b)) && tuples_of(stamped(b)) == tuples_of(b),
{
    let c = stamped(b);
    let crc = crc_of(b.subrange(4, PAGE_SIZE as int));
    assert(c.subrange(4, PAGE_SIZE as int) =~= b.subrange(4, PAGE_SIZE as int));
    assert(c.subrange(0, 4) =~= le32_bytes(crc));
    lemma_le32_bytes(c, 0, crc);
    lemma_same_past_checksum(b, c);
}

/// An owned page buffer.
pub struct PageBuf {
    bytes: Vec<u8>,
}

impl View for PageBuf {
    type V = Seq<u8>;

    closed spec fn view(&self) -> Seq<u8> {
        self.bytes@
    }
}

impl Clone for PageBuf {
    fn clone(&self) -> (p: PageBuf)
        ensures
            p@ == self@,
    {
        PageBuf { bytes: copy_bytes(self.bytes.as_slice()) }
    }
}

impl PageBuf {
    /// A zeroed buffer (not a valid page until `init` or a load fills it).
    pub fn zeroed() -> (p: PageBuf)
        ensures
            p@ == Seq::new(PAGE_SIZE as nat, |i: int| 0u8),
    {
        let p: PageBuf = PageBuf { bytes: vec![0u8; PAGE_SIZE] };
        assert(p@ =~= Seq::new(PAGE_SIZE as nat, |i: int| 0u8));
        p
    }

    /// A freshly formatted page of the given type.
    pub fn new(page_type: PageType) -> (p: SlottedPage)
        ensures
            fresh_page(p@, page_type),
    {
        SlottedPage::init(PageBuf::zeroed(), page_type)
    }

    /// Wrap bytes.
    pub fn from_vec(bytes: Vec<u8>) -> (p: PageBuf)
        ensures
            p@ == bytes@,
    {
        PageBuf { bytes }
    }

    /// Give the bytes back.
    pub fn into_vec(self) -> (bytes: Vec<u8>)
        ensures
            bytes@ == self@,
    {
        self.bytes
    }

    pub fn as_ref(&self) -> (s: &[u8])
        ensures
            s@ == self@,
    {
        self.bytes.as_slice()
    }

    pub fn as_mut(&mut self) -> (s: &mut [u8])
        ensures
            s@ == old(self)@,
            final(self)@ == final(s)@,
    {
        self.bytes.as_mut_slice()
    }
}

/// The live tuples of a page one behind the other, the last first.
pub open spec fn packing(ts: Seq<Option<Seq<u8>>>) -> Seq<u8>
    decreases ts.len(),
{
    if ts.len() == 0 {
        Seq::empty()
    } else {
        match ts.last() {
            Some(d) => d + packing(ts.drop_last()),
            None => packing(ts.drop_last()),
        }
    }
}

/// Page `c` is `b` with its tuples packed against the tail; slots keep their numbers, and
/// what lies between the slots and the tuples is left as it was.
pub open spec fn compacted(b: Seq<u8>, c: Seq<u8>) -> bool {
    let ts = tuples_of(b);
    &&& same_header(b, c)
    &&& count_of(c) == count_of(b)
    &&& free_start_of(c) == free_start_of(b)
    &&& free_end_of(c) == PAGE_SIZE - live_bytes(ts)
    &&& forall|i: int| 0 <= i < count_of(b) ==> #[trigger] slot_len(c, i) == slot_len(b, i)
    &&& forall|i: int|
        0 <= i < count_of(b) ==> #[trigger] slot_off(c, i) == if ts[i] is Some {
            packed_off(ts, i)
        } else {
            0
        }
    &&& forall|k: int|
        32 + 4 * count_of(b) <= k < free_end_of(c) ==> #[trigger] c[k] == b[k]
    &&& c.subrange(free_end_of(c), PAGE_SIZE as int) == packing(ts)
}

/// A number determines its bytes.
proof fn lemma_le16_same(b: Seq<u8>, c: Seq<u8>, at: int)
    requires
        le16(b, at) == le16(c, at),
    ensures
        b[at] == c[at],
        b[at + 1] == c[at + 1],
{
}

proof fn lemma_slot_bytes_same(b: Seq<u8>, c: Seq<u8>, k: int)
    requires
        k >= 32,
        slot_off(c, (k - 32) / 4) == slot_off(b, (k - 32) / 4),
        slot_len(c, (k - 32) / 4) == slot_len(b, (k - 32) / 4),
    ensures
        c[k] == b[k],
{
    let i = (k - 32) / 4;
    lemma_le16_same(b, c, 32 + 4 * i);
    lemma_le16_same(b, c, 34 + 4 * i);
    assert(k == 32 + 4 * i || k == 33 + 4 * i || k == 34 + 4 * i || k == 35 + 4 * i);
}

/// Compacting a page that was compacted changes no byte of it.
pub proof fn law_compaction_is_idempotent(a: Seq<u8>, b: Seq<u8>, c: Seq<u8>)
    requires
        page_wf(a),
        page_wf(b),
        tuples_of(b) == tuples_of(a),
        compacted(a, b),
        compacted(b, c),
    ensures
        c == b,
{
    let n = count_of(b);
    let fe = free_end_of(b);
    lemma_le16_same(b, c, 16);
    lemma_le16_same(b, c, 18);
    lemma_le16_same(b, c, 20);
    assert forall|k: int| 32 <= k < 32 + 4 * n implies c[k] == b[k] by {
        let i = (k - 32) / 4;
        assert(0 <= i < n);
        assert(slot_off(c, i) == slot_off(b, i));
        assert(slot_len(c, i) == slot_len(b, i));
        lemma_slot_bytes_same(b, c, k);
    }
    let x = b.subrange(fe, PAGE_SIZE as int);
    let y = c.subrange(fe, PAGE_SIZE as int);
    assert(x == y);
    assert forall|k: int| fe <= k < PAGE_SIZE implies c[k] == b[k] by {
        assert(x[k - fe] == y[k - fe]);
    }
    assert forall|k: int| 0 <= k < 32 implies c[k] == b[k] by {
        assert(k < 16 || 22 <= k || k == 16 || k == 17 || k == 18 || k == 19 || k == 20 || k == 21);
    }
    assert(c =~= b);
}

/// A page as `init` leaves it: empty, of the given type, everything else zero
/// but the version, the free window and the checksum.
pub open spec fn fresh_page(b: Seq<u8>, t: PageType) -> bool {
    &&& page_wf(b)
    &&& tuples_of(b) == Seq::<Option<Seq<u8>>>::empty()
    &&& free_end_of(b) == PAGE_SIZE
    &&& b[14] == t.byte()
    &&& b[15] == PAGE_FORMAT_VERSION
    &&& le64(b, 4) == 0
    &&& le16(b, 12) == 0
    &&& le64(b, 24) == 0
    &&& b[22] == 0 && b[23] == 0
    &&& forall|i: int| 32 <= i < PAGE_SIZE ==> #[trigger] b[i] == 0
    &&& checksum_ok(b)
}

/// The stored checksum matches the bytes past it.
pub open spec fn checksum_ok(b: Seq<u8>) -> bool {
    le32(b, 0) == crc_of(b.subrange(4, b.len() as int))
}

/// The page with its checksum field brought up to date.
pub open spec fn stamped(b: Seq<u8>) -> Seq<u8> {
    splice(b, 0, le32_bytes(crc_of(b.subrange(4, b.len() as int))))
}

/// What `validate_structure` checks: header fields agree with one another and no
/// live slot points outside the tuple heap.
pub open spec fn structure_ok(b: Seq<u8>) -> bool {
    &&& free_start_of(b) == 32 + 4 * count_of(b)
    &&& free_start_of(b) <= free_end_of(b) <= PAGE_SIZE
    &&& b[15] == PAGE_FORMAT_VERSION
    &&& type_of_byte(b[14]) is Some
    &&& forall|i: int|
        0 <= i < count_of(b) && slot_off(b, i) != 0 ==> {
            &&& #[trigger] slot_off(b, i) >= free_end_of(b)
            &&& slot_off(b, i) + slot_len(b, i) <= PAGE_SIZE
        }
}

/// A slotted page over an owned buffer.
pub struct SlottedPage {
    buf: PageBuf,
}

impl View for SlottedPage {
    type V = Seq<u8>;

    closed spec fn view(&self) -> Seq<u8> {
        self.buf@
    }
}

impl Clone for SlottedPage {
    fn clone(&self) -> (p: SlottedPage)
        ensures
            p@ == self@,
    {
        SlottedPage { buf: self.buf.clone() }
    }
}

impl SlottedPage {
    /// Format a fresh, empty page of the given type: everything zero, then the
    /// header, then a valid checksum.
    pub fn init(buf: PageBuf, page_type: PageType) -> (p: SlottedPage)
        requires
            buf@.len() == PAGE_SIZE,
        ensures
            fresh_page(p@, page_type),
    {
        let mut p: SlottedPage = SlottedPage { buf };
        let b: &mut [u8] = p.buf.as_mut();
        zero_fill(b);
        b[OFF_TYPE] = page_type.to_u8();
        b[OFF_VERSION] = PAGE_FORMAT_VERSION;
        wr_u16(b, OFF_SLOT_COUNT, 0);
        wr_u16(b, OFF_FREE_START, HEADER_SIZE as u16);
        wr_u16(b, OFF_FREE_END, PAGE_SIZE as u16);
        assert(tuples_of(p@) =~= Seq::<Option<Seq<u8>>>::empty());
        proof {
            lemma_stamped(p@);
        }
        p.recompute_checksum();
        p
    }

    /// Recompute and store the page checksum.
    pub fn recompute_checksum(&mut self)
        requires
            old(self)@.len() == PAGE_SIZE,
        ensures
            final(self)@ == stamped(old(self)@),
    {
        let ck: u32 = self.computed_checksum();
        wr_u32(self.buf.as_mut(), OFF_CHECKSUM, ck);
    }

    /// Wrap an already-initialized page buffer.
    pub fn from_bytes(buf: PageBuf) -> (p: SlottedPage)
        requires
            buf@.len() == PAGE_SIZE,
        ensures
            p@ == buf@,
    {
        SlottedPage { buf }
    }

    /// Give the buffer back.
    pub fn into_bytes(self) -> (buf: PageBuf)
        ensures
            buf@ == self@,
    {
        self.buf
    }

    fn b(&self) -> (s: &[u8])
        ensures
            s@ == self@,
    {
        self.buf.as_ref()
    }

    /// LSN of the last log record that touched this page.
    pub fn page_lsn(&self) -> (v: u64)
        requires
            self@.len() == PAGE_SIZE,
        ensures
            v == le64(self@, 4),
    {
        rd_u64(self.b(), OFF_PAGE_LSN)
    }

    pub fn flags(&self) -> (v: u16)
        requires
            self@.len() == PAGE_SIZE,
        ensures
            v == le16(self@, 12),
    {
        rd_u16(self.b(), OFF_FLAGS)
    }

    /// The page type, if the header byte is one.
    pub fn page_type(&self) -> (t: Option<PageType>)
        requires
            self@.len() == PAGE_SIZE,
        ensures
            t == type_of_byte(self@[14]),
    {
        PageType::from_u8(self.b()[OFF_TYPE])
    }

    pub fn format_version(&self) -> (v: u8)
        requires
            self@.len() == PAGE_SIZE,
        ensures
            v == self@[15],
    {
        self.b()[OFF_VERSION]
    }

    pub fn slot_count(&self) -> (v: u16)
        requires
            self@.len() == PAGE_SIZE,
        ensures
            v == count_of(self@),
    {
        rd_u16(self.b(), OFF_SLOT_COUNT)
    }

    pub fn free_start(&self) -> (v: u16)
        requires
            self@.len() == PAGE_SIZE,
        ensures
            v == free_start_of(self@),
    {
        rd_u16(self.b(), OFF_FREE_START)
    }

    pub fn free_end(&self) -> (v: u16)
        requires
            self@.len() == PAGE_SIZE,
        ensures
            v == free_end_of(self@),
    {
        rd_u16(self.b(), OFF_FREE_END)
    }

    /// The generic link word.
    pub fn extra(&self) -> (v: u64)
        requires
            self@.len() == PAGE_SIZE,
        ensures
            v == le64(self@, 24),
    {
        rd_u64(self.b(), OFF_EXTRA)
    }

    pub fn stored_checksum(&self) -> (v: u32)
        requires
            self@.len() == PAGE_SIZE,
        ensures
            v == le32(self@, 0),
    {
        rd_u32(self.b(), OFF_CHECKSUM)
    }

    /// The checksum that this page's bytes imply.
    pub fn computed_checksum(&self) -> (v: u32)
        requires
            self@.len() == PAGE_SIZE,
        ensures
            v == crc_of(self@.subrange(4, PAGE_SIZE as int)),
    {
        crc32(&self.b()[OFF_PAGE_LSN..PAGE_SIZE])
    }

    /// Does the stored checksum match the body? A `false` here is how a torn
    /// write is detected on read.
    pub fn verify_checksum(&self) -> (r: bool)
        requires
            self@.len() == PAGE_SIZE,
        ensures
            r == checksum_ok(self@),
    {
        self.stored_checksum() == self.computed_checksum()
    }

    fn read_slot(&self, slot: SlotId) -> (r: (u16, u16))
        requires
            self@.len() == PAGE_SIZE,
            36 + 4 * slot <= PAGE_SIZE,
        ensures
            r.0 == slot_off(self@, slot as int),
            r.1 == slot_len(self@, slot as int),
    {
        let base: usize = HEADER_SIZE + slot as usize * SLOT_SIZE;
        (rd_u16(self.b(), base), rd_u16(self.b(), base + 2))
    }

    /// Bytes of a live tuple, or `None` if the slot is out of range or dead.
    pub fn get(&self, slot: SlotId) -> (r: Option<&[u8]>)
        requires
            readable(self@),
        ensures
            r is Some <==> slot < tuples_of(self@).len() && tuples_of(self@)[slot as int] is Some,
            r matches Some(d) ==> Some(d@) == tuples_of(self@)[slot as int],
    {
        if slot >= self.slot_count() {
            return None;
        }
        let (off, len): (u16, u16) = self.read_slot(slot);
        if off == 0 {
            return None;
        }
        assert(slot_off(self@, slot as int) + slot_len(self@, slot as int) <= PAGE_SIZE);
        Some(&self.b()[off as usize..off as usize + len as usize])
    }

    /// Is this slot a live tuple?
    pub fn is_live(&self, slot: SlotId) -> (r: bool)
        requires
            slots_fit(self@),
        ensures
            r == (slot < tuples_of(self@).len() && tuples_of(self@)[slot as int] is Some),
    {
        slot < self.slot_count() && self.read_slot(slot).0 != 0
    }

    /// Count of live (non-tombstone) tuples.
    pub fn live_count(&self) -> (r: u16)
        requires
            slots_fit(self@),
        ensures
            r == live_tuples(tuples_of(self@)),
    {
        let n: u16 = self.slot_count();
        let mut count: u16 = 0;
        let mut s: u16 = 0;
        let ghost ts = tuples_of(self@);
        while s < n
            invariant
                slots_fit(self@),
                s <= n == count_of(self@),
                ts == tuples_of(self@),
                count <= s,
                count == live_tuples(ts.take(s as int)),
            decreases n - s,
        {
            assert(ts.take(s + 1).drop_last() =~= ts.take(s as int));
            if self.read_slot(s).0 != 0 {
                count = count + 1;
            }
            s = s + 1;
        }
        assert(ts.take(n as int) =~= ts);
        count
    }

    /// Contiguous free bytes between the slot array and the tuple heap.
    pub fn free_space(&self) -> (r: usize)
        requires
            self@.len() == PAGE_SIZE,
            free_start_of(self@) <= free_end_of(self@),
        ensures
            r == free_end_of(self@) - free_start_of(self@),
    {
        self.free_end() as usize - self.free_start() as usize
    }

    /// Contiguous free bytes that would be available after a compaction.
    pub fn compactable_free(&self) -> (r: usize)
        requires
            readable(self@),
            room(tuples_of(self@)) >= 0,
        ensures
            r == room(tuples_of(self@)),
    {
        let n: u16 = self.slot_count();
        let mut sum_live: usize = 0;
        let mut s: u16 = 0;
        let ghost ts = tuples_of(self@);
        assert(ts.take(n as int) =~= ts);
        while s < n
            invariant
                readable(self@),
                s <= n == count_of(self@),
                ts == tuples_of(self@),
                ts.take(n as int) == ts,
                room(ts) >= 0,
                sum_live == live_bytes(ts.take(s as int)),
            decreases n - s,
        {
            let (off, len): (u16, u16) = self.read_slot(s);
            proof {
                assert(ts.take(s + 1).drop_last() =~= ts.take(s as int));
                lemma_live_bytes_prefix(ts, s + 1, n as int);
            }
            if off != 0 {
                assert(slot_off(self@, s as int) + slot_len(self@, s as int) <= PAGE_SIZE);
                sum_live = sum_live + len as usize;
            }
            s = s + 1;
        }
        PAGE_SIZE - HEADER_SIZE - self.slot_count() as usize * SLOT_SIZE - sum_live
    }

    /// The live tuples with their slots, in slot order.
    pub fn iter(&self) -> (r: Vec<(SlotId, Vec<u8>)>)
        requires
            readable(self@),
        ensures
            r@.map_values(|p: (SlotId, Vec<u8>)| (p.0, p.1@)) == live_pairs(tuples_of(self@)),
    {
        let n: u16 = self.slot_count();
        let mut out: Vec<(SlotId, Vec<u8>)> = Vec::new();
        let mut s: u16 = 0;
        let ghost ts = tuples_of(self@);
        let ghost pairs = |p: (SlotId, Vec<u8>)| (p.0, p.1@);
        assert(out@.map_values(pairs) =~= live_pairs(ts.take(0)));
        while s < n
            invariant
                readable(self@),
                s <= n == count_of(self@),
                ts == tuples_of(self@),
                pairs == (|p: (SlotId, Vec<u8>)| (p.0, p.1@)),
                out@.map_values(pairs) == live_pairs(ts.take(s as int)),
            decreases n - s,
        {
            assert(ts.take(s + 1).drop_last() =~= ts.take(s as int));
            match self.get(s) {
                Some(d) => {
                    let ghost before = out@;
                    let v: Vec<u8> = copy_bytes(d);
                    out.push((s, v));
                    assert(out@.map_values(pairs) =~= before.map_values(pairs).push((s, v@)));
                },
                None => {},
            }
            s = s + 1;
        }
        assert(ts.take(n as int) =~= ts);
        out
    }

    /// Structural self-check: header fields are consistent and no slot points
    /// outside the tuple heap or overlaps the slot array.
    pub fn validate_structure(&self) -> (r: Result<(), PageError>)
        requires
            self@.len() == PAGE_SIZE,
        ensures
            r is Ok <==> structure_ok(self@),
            r is Ok ==> readable(self@),
            r matches Err(e) ==> e matches PageError::Corrupt(why) && why@ == structure_fault(
                self@,
            ),
    {
        let n: usize = self.slot_count() as usize;
        let fs: usize = self.free_start() as usize;
        let fe: usize = self.free_end() as usize;
        if fs != HEADER_SIZE + n * SLOT_SIZE {
            return Err(PageError::Corrupt("free_start != end of slot array"));
        }
        if fe > PAGE_SIZE || fs > fe {
            return Err(PageError::Corrupt("free window out of range"));
        }
        if self.format_version() != PAGE_FORMAT_VERSION {
            return Err(PageError::Corrupt("unknown page format version"));
        }
        if self.page_type().is_none() {
            return Err(PageError::Corrupt("unknown page type"));
        }
        let mut s: u16 = 0;
        while (s as usize) < n
            invariant
                self@.len() == PAGE_SIZE,
                n == count_of(self@),
                s <= n,
                fs == free_start_of(self@),
                fe == free_end_of(self@),
                fs == 32 + 4 * n,
                fs <= fe <= PAGE_SIZE,
                self@[15] == PAGE_FORMAT_VERSION,
                type_of_byte(self@[14]) is Some,
                forall|i: int|
                    0 <= i < s && slot_off(self@, i) != 0 ==> {
                        &&& #[trigger] slot_off(self@, i) >= free_end_of(self@)
                        &&& slot_off(self@, i) + slot_len(self@, i) <= PAGE_SIZE
                    },
            decreases n - s,
        {
            let (off, len): (u16, u16) = self.read_slot(s);
            if off != 0 {
                let o: usize = off as usize;
                let l: usize = len as usize;
                if o < fe || o + l > PAGE_SIZE {
                    assert(slot_off(self@, s as int) != 0);
                    return Err(PageError::Corrupt("tuple outside heap region"));
                }
            }
            s = s + 1;
        }
        Ok(())
    }

    /// Record the LSN of the last log record that touched this page.
    pub fn set_page_lsn(&mut self, lsn: u64)
        requires
            old(self)@.len() == PAGE_SIZE,
        ensures
            final(self)@ == splice(old(self)@, 4, le64_bytes(lsn)),
            le64(final(self)@, 4) == lsn,
    {
        wr_u64(self.buf.as_mut(), OFF_PAGE_LSN, lsn);
    }

    pub fn set_flags(&mut self, flags: u16)
        requires
            old(self)@.len() == PAGE_SIZE,
        ensures
            final(self)@ == splice(old(self)@, 12, le16_bytes(flags)),
            le16(final(self)@, 12) == flags,
    {
        wr_u16(self.buf.as_mut(), OFF_FLAGS, flags);
    }

    /// Set the generic link word.
    pub fn set_extra(&mut self, v: u64)
        requires
            old(self)@.len() == PAGE_SIZE,
        ensures
            final(self)@ == splice(old(self)@, 24, le64_bytes(v)),
            le64(final(self)@, 24) == v,
    {
        wr_u64(self.buf.as_mut(), OFF_EXTRA, v);
    }

    fn set_slot_count(&mut self, n: u16)
        requires
            old(self)@.len() == PAGE_SIZE,
        ensures
            final(self)@ == splice(old(self)@, 16, le16_bytes(n)),
            count_of(final(self)@) == n,
    {
        wr_u16(self.buf.as_mut(), OFF_SLOT_COUNT, n);
    }

    fn set_free_start(&mut self, v: u16)
        requires
            old(self)@.len() == PAGE_SIZE,
        ensures
            final(self)@ == splice(old(self)@, 18, le16_bytes(v)),
            free_start_of(final(self)@) == v,
    {
        wr_u16(self.buf.as_mut(), OFF_FREE_START, v);
    }

    fn set_free_end(&mut self, v: u16)
        requires
            old(self)@.len() == PAGE_SIZE,
        ensures
            final(self)@ == splice(old(self)@, 20, le16_bytes(v)),
            free_end_of(final(self)@) == v,
    {
        wr_u16(self.buf.as_mut(), OFF_FREE_END, v);
    }

    fn write_slot(&mut self, slot: SlotId, off: u16, len: u16)
        requires
            old(self)@.len() == PAGE_SIZE,
            36 + 4 * slot <= PAGE_SIZE,
        ensures
            final(self)@.len() == PAGE_SIZE,
            slot_off(final(self)@, slot as int) == off,
            slot_len(final(self)@, slot as int) == len,
            forall|k: int|
                0 <= k < PAGE_SIZE && !(32 + 4 * slot <= k < 36 + 4 * slot) ==> #[trigger] final(
                self)@[k] == old(self)@[k],
            forall|i: int|
                0 <= i && 36 + 4 * i <= PAGE_SIZE && i != slot ==> #[trigger] slot_off(
                    final(self)@,
                    i,
                ) == slot_off(old(self)@, i),
            forall|i: int|
                0 <= i && 36 + 4 * i <= PAGE_SIZE && i != slot ==> #[trigger] slot_len(
                    final(self)@,
                    i,
                ) == slot_len(old(self)@, i),
    {
        let base: usize = HEADER_SIZE + slot as usize * SLOT_SIZE;
        wr_u16(self.buf.as_mut(), base, off);
        wr_u16(self.buf.as_mut(), base + 2, len);
    }

    fn first_dead_slot(&self) -> (r: Option<SlotId>)
        requires
            slots_fit(self@),
        ensures
            r is Some <==> first_dead(tuples_of(self@)) < count_of(self@),
            r matches Some(s) ==> s == first_dead(tuples_of(self@)),
            first_dead(tuples_of(self@)) <= count_of(self@),
    {
        let n: u16 = self.slot_count();
        let mut s: u16 = 0;
        let ghost ts = tuples_of(self@);
        while s < n
            invariant
                slots_fit(self@),
                s <= n == count_of(self@),
                ts == tuples_of(self@),
                forall|i: int| 0 <= i < s ==> #[trigger] ts[i] is Some,
            decreases n - s,
        {
            if self.read_slot(s).0 == 0 {
                assert(ts[s as int] is None);
                proof {
                    lemma_first_dead(ts);
                }
                return Some(s);
            }
            assert(ts[s as int] is Some);
            s = s + 1;
        }
        proof {
            lemma_first_dead(ts);
        }
        None
    }

    /// Put `data` just below the tuple heap and point `slot` at it; `slot` is a
    /// tombstone or the next new slot.
    fn place(&mut self, slot: SlotId, data: &[u8])
        requires
            page_wf(old(self)@),
            slot <= count_of(old(self)@),
            slot < count_of(old(self)@) ==> tuples_of(old(self)@)[slot as int] is None,
            free_end_of(old(self)@) - free_start_of(old(self)@) >= data@.len() + if slot < count_of(
                old(self)@,
            ) {
                0int
            } else {
                SLOT_SIZE as int
            },
        ensures
            page_wf(final(self)@),
            tuples_of(final(self)@) == placed(tuples_of(old(self)@), slot as int, data@),
            same_header(old(self)@, final(self)@),
            free_end_of(final(self)@) == free_end_of(old(self)@) - data@.len(),
    {
        let ghost b = self@;
        let len: usize = data.len();
        let off: usize = self.free_end() as usize - len;
        write_bytes(self.buf.as_mut(), off, data);
        self.set_free_end(off as u16);
        if slot >= self.slot_count() {
            let n: u16 = self.slot_count();
            self.set_slot_count(n + 1);
            let fs: u16 = self.free_start() + SLOT_SIZE as u16;
            self.set_free_start(fs);
        }
        self.write_slot(slot, off as u16, len as u16);
        proof {
            let c = self@;
            assert(c.subrange(off as int, off + len) =~= data@);
            assert forall|i: int| 0 <= i < count_of(b) && i != slot implies #[trigger] slot_off(
                c,
                i,
            ) == slot_off(b, i) && slot_len(c, i) == slot_len(b, i) by {}
            lemma_place(b, c, slot as int, data@);
        }
    }

    /// Insert a tuple, returning its (stable) slot id. Reuses a tombstoned slot
    /// when one exists, so slots are recycled without growing the slot array.
    /// A refused insert may still have compacted the page.
    pub fn insert(&mut self, data: &[u8]) -> (r: Result<SlotId, PageError>)
        requires
            page_wf(old(self)@),
        ensures
            page_wf(final(self)@),
            same_header(old(self)@, final(self)@),
            r == insert_result(tuples_of(old(self)@), data@.len() as int),
            match r {
                Ok(s) => {
                    &&& tuples_of(final(self)@) == placed(
                        tuples_of(old(self)@),
                        s as int,
                        data@,
                    )
                    &&& free_end_of(final(self)@) == if free_end_of(old(self)@) - free_start_of(
                        old(self)@,
                    ) >= data@.len() + slot_overhead(tuples_of(old(self)@)) {
                        free_end_of(old(self)@) - data@.len()
                    } else {
                        PAGE_SIZE - live_bytes(tuples_of(final(self)@))
                    }
                },
                Err(PageError::TupleTooLarge) => final(self)@ == old(self)@,
                Err(_) => {
                    &&& tuples_of(final(self)@) == tuples_of(old(self)@)
                    &&& free_end_of(final(self)@) == PAGE_SIZE - live_bytes(tuples_of(old(self)@))
                },
            },
    {
        if data.len() > MAX_TUPLE_SIZE {
            return Err(PageError::TupleTooLarge);
        }
        let ghost ts = tuples_of(self@);
        let reuse: Option<SlotId> = self.first_dead_slot();
        let overhead: usize = if reuse.is_some() {
            0
        } else {
            SLOT_SIZE
        };
        if self.free_space() < data.len() + overhead {
            self.compact();
            if self.free_space() < data.len() + overhead {
                return Err(PageError::PageFull);
            }
        }
        let slot: SlotId = match reuse {
            Some(s) => s,
            None => self.slot_count(),
        };
        proof {
            lemma_first_dead(ts);
            lemma_live_bytes_placed(ts, slot as int, data@);
        }
        self.place(slot, data);
        Ok(slot)
    }

    /// Replace the contents of a live slot. Shrinks in place; grows by
    /// relocation, and is transactional on failure: if the new value doesn't
    /// fit even after compaction, the old value is left intact and `PageFull`
    /// is returned so the caller can forward the tuple to another page.
    pub fn set(&mut self, slot: SlotId, data: &[u8]) -> (r: Result<(), PageError>)
        requires
            page_wf(old(self)@),
        ensures
            page_wf(final(self)@),
            same_header(old(self)@, final(self)@),
            r == set_result(tuples_of(old(self)@), slot as int, data@.len() as int),
            match r {
                Ok(()) => {
                    &&& tuples_of(final(self)@) == tuples_of(old(self)@).update(
                        slot as int,
                        Some(data@),
                    )
                    &&& free_end_of(final(self)@) == if data@.len() <= tuple_size(
                        tuples_of(old(self)@)[slot as int],
                    ) {
                        free_end_of(old(self)@)
                    } else {
                        PAGE_SIZE - live_bytes(tuples_of(final(self)@))
                    }
                },
                Err(PageError::PageFull) => {
                    &&& tuples_of(final(self)@) == tuples_of(old(self)@)
                    &&& free_end_of(final(self)@) == PAGE_SIZE - live_bytes(tuples_of(old(self)@))
                },
                Err(_) => final(self)@ == old(self)@,
            },
    {
        if data.len() > MAX_TUPLE_SIZE {
            return Err(PageError::TupleTooLarge);
        }
        if slot >= self.slot_count() {
            return Err(PageError::BadSlot);
        }
        let (off, len): (u16, u16) = self.read_slot(slot);
        if off == 0 {
            return Err(PageError::BadSlot);
        }
        let ghost b = self@;
        let ghost ts = tuples_of(b);
        let ghost s = slot as int;
        proof {
            assert(slot_off(b, s) + slot_len(b, s) <= PAGE_SIZE);
            assert(tuple_size(ts[s]) == len);
        }
        if data.len() <= len as usize {
            write_bytes(self.buf.as_mut(), off as usize, data);
            self.write_slot(slot, off, data.len() as u16);
            proof {
                let c = self@;
                assert(c.subrange(off as int, off + data@.len()) =~= data@);
                assert forall|i: int| 0 <= i < count_of(b) && i != s implies #[trigger] slot_off(
                    c,
                    i,
                ) == slot_off(b, i) && slot_len(c, i) == slot_len(b, i) by {}
                lemma_shrink(b, c, s, off as int, data@.len() as int);
            }
            return Ok(());
        }
        self.relocate(slot, data)
    }

    /// Give a live slot a longer tuple, or leave its tuple as it was if the page
    /// has no room for it.
    fn relocate(&mut self, slot: SlotId, data: &[u8]) -> (r: Result<(), PageError>)
        requires
            page_wf(old(self)@),
            slot < tuples_of(old(self)@).len(),
            tuples_of(old(self)@)[slot as int] is Some,
            tuple_size(tuples_of(old(self)@)[slot as int]) < data@.len() <= MAX_TUPLE_SIZE,
        ensures
            page_wf(final(self)@),
            same_header(old(self)@, final(self)@),
            r == set_result(tuples_of(old(self)@), slot as int, data@.len() as int),
            tuples_of(final(self)@) == if r is Ok {
                tuples_of(old(self)@).update(slot as int, Some(data@))
            } else {
                tuples_of(old(self)@)
            },
            free_end_of(final(self)@) == PAGE_SIZE - live_bytes(tuples_of(final(self)@)),
    {
        let ghost b = self@;
        let ghost ts = tuples_of(b);
        let ghost s = slot as int;
        let old: Vec<u8> = match self.get(slot) {
            Some(d) => copy_bytes(d),
            None => Vec::new(),
        };
        self.write_slot(slot, 0, 0);
        let ghost dead = tuples_of(self@);
        proof {
            let c = self@;
            assert forall|i: int| 0 <= i < count_of(b) && i != s implies #[trigger] slot_off(c, i)
                == slot_off(b, i) && slot_len(c, i) == slot_len(b, i) by {}
            lemma_shrink(b, c, s, 0, 0);
            assert forall|i: int| 0 <= i < 16 || 22 <= i < 32 implies #[trigger] b[i] == c[i] by {
                assert(c[i] == b[i]);
            }
            assert(same_header(b, c));
            lemma_live_bytes_update(ts, s, None);
            lemma_live_bytes_update(dead, s, Some(data@));
            lemma_live_bytes_update(dead, s, Some(old@));
            assert(dead.update(s, Some(data@)) =~= ts.update(s, Some(data@)));
            assert(dead.update(s, Some(old@)) =~= ts);
        }
        self.compact();
        if self.free_space() >= data.len() {
            self.place(slot, data);
            Ok(())
        } else {
            self.place(slot, old.as_slice());
            Err(PageError::PageFull)
        }
    }

    /// Tombstone a slot. The tuple bytes are reclaimed on the next compaction.
    /// Returns whether a live tuple was there.
    pub fn delete(&mut self, slot: SlotId) -> (r: bool)
        requires
            page_wf(old(self)@),
        ensures
            page_wf(final(self)@),
            same_header(old(self)@, final(self)@),
            free_end_of(final(self)@) == free_end_of(old(self)@),
            r == (slot < tuples_of(old(self)@).len() && tuples_of(
                old(self)@,
            )[slot as int] is Some),
            r ==> tuples_of(final(self)@) == tuples_of(old(self)@).update(slot as int, None),
            !r ==> final(self)@ == old(self)@,
    {
        if slot >= self.slot_count() {
            return false;
        }
        if self.read_slot(slot).0 == 0 {
            return false;
        }
        let ghost b = self@;
        self.write_slot(slot, 0, 0);
        proof {
            let c = self@;
            assert forall|i: int| 0 <= i < count_of(b) && i != slot implies #[trigger] slot_off(
                c,
                i,
            ) == slot_off(b, i) && slot_len(c, i) == slot_len(b, i) by {}
            lemma_shrink(b, c, slot as int, 0, 0);
        }
        true
    }

    /// Reclaim dead space by repacking live tuples against the page tail. Slot
    /// indices are preserved; tombstones remain tombstones.
    #[verifier::rlimit(60)]
    #[verifier::spinoff_prover]
    pub fn compact(&mut self)
        requires
            page_wf(old(self)@),
        ensures
            page_wf(final(self)@),
            same_header(old(self)@, final(self)@),
            tuples_of(final(self)@) == tuples_of(old(self)@),
            compacted(old(self)@, final(self)@),
    {
        let ghost b = self@;
        let ghost ts = tuples_of(b);
        let n: u16 = self.slot_count();
        let mut scratch: Vec<u8> = vec![0u8; PAGE_SIZE];
        let mut write_end: usize = PAGE_SIZE;
        let mut s: u16 = 0;
        assert(ts.take(n as int) =~= ts);
        assert(scratch@.subrange(PAGE_SIZE as int, PAGE_SIZE as int) =~= packing(ts.take(0)));
        while s < n
            invariant
                page_wf(b),
                self@ == b,
                ts == tuples_of(b),
                ts.take(n as int) == ts,
                s <= n == count_of(b),
                scratch@.len() == PAGE_SIZE,
                write_end == PAGE_SIZE - live_bytes(ts.take(s as int)),
                scratch@.subrange(write_end as int, PAGE_SIZE as int) == packing(
                    ts.take(s as int),
                ),
                forall|i: int|
                    0 <= i < s && #[trigger] ts[i] is Some ==> packed_off(ts, i) >= write_end
                        && packed_off(ts, i) + slot_len(b, i) <= PAGE_SIZE && scratch@.subrange(
                        packed_off(ts, i),
                        packed_off(ts, i) + slot_len(b, i),
                    ) == ts[i]->0,
            decreases n - s,
        {
            let (off, len): (u16, u16) = self.read_slot(s);
            proof {
                assert(ts.take(s + 1).drop_last() =~= ts.take(s as int));
                lemma_live_bytes_prefix(ts, s + 1, n as int);
            }
            if off != 0 {
                let l: usize = len as usize;
                assert(slot_off(b, s as int) + slot_len(b, s as int) <= PAGE_SIZE);
                assert(ts[s as int] is Some);
                assert(tuple_size(ts[s as int]) == l);
                let new_off: usize = write_end - l;
                let ghost before = scratch@;
                write_bytes(
                    scratch.as_mut_slice(),
                    new_off,
                    &self.b()[off as usize..off as usize + l],
                );
                assert(scratch@.subrange(new_off as int, new_off + l) =~= ts[s as int]->0);
                assert(scratch@.subrange(new_off as int, PAGE_SIZE as int) =~= ts[s as int]->0
                    + before.subrange(write_end as int, PAGE_SIZE as int));
                assert forall|i: int| 0 <= i < s && #[trigger] ts[i] is Some implies scratch@.subrange(
                    packed_off(ts, i),
                    packed_off(ts, i) + slot_len(b, i),
                ) == ts[i]->0 by {
                    assert(scratch@.subrange(
                        packed_off(ts, i),
                        packed_off(ts, i) + slot_len(b, i),
                    ) =~= before.subrange(
                        packed_off(ts, i),
                        packed_off(ts, i) + slot_len(b, i),
                    ));
                }
                write_end = new_off;
            }
            s = s + 1;
        }
        write_bytes(self.buf.as_mut(), write_end, &scratch.as_slice()[write_end..PAGE_SIZE]);
        let ghost tail = self@;
        assert forall|k: int| write_end <= k < PAGE_SIZE implies #[trigger] tail[k] == scratch@[k] by {}
        let mut end: usize = PAGE_SIZE;
        s = 0;
        while s < n
            invariant
                page_wf(b),
                ts == tuples_of(b),
                ts.take(n as int) == ts,
                s <= n == count_of(b),
                self@.len() == PAGE_SIZE,
                32 + 4 * n <= write_end <= PAGE_SIZE,
                end == PAGE_SIZE - live_bytes(ts.take(s as int)),
                forall|k: int| 0 <= k < 32 ==> #[trigger] self@[k] == b[k],
                forall|k: int| 32 + 4 * n <= k < write_end ==> #[trigger] self@[k] == b[k],
                forall|k: int| write_end <= k < PAGE_SIZE ==> #[trigger] self@[k] == tail[k],
                forall|i: int|
                    0 <= i < s ==> (#[trigger] slot_off(self@, i) == if ts[i] is Some {
                        packed_off(ts, i)
                    } else {
                        0
                    }),
                forall|i: int|
                    0 <= i < s ==> #[trigger] slot_len(self@, i) == slot_len(b, i),
                forall|i: int| s <= i < n ==> #[trigger] slot_off(self@, i) == slot_off(b, i),
                forall|i: int| s <= i < n ==> #[trigger] slot_len(self@, i) == slot_len(b, i),
            decreases n - s,
        {
            let (off, len): (u16, u16) = self.read_slot(s);
            proof {
                assert(slot_off(self@, s as int) == slot_off(b, s as int));
                assert(slot_len(self@, s as int) == slot_len(b, s as int));
                assert(ts.take(s + 1).drop_last() =~= ts.take(s as int));
                lemma_live_bytes_prefix(ts, s + 1, n as int);
            }
            if off != 0 {
                assert(slot_off(b, s as int) + slot_len(b, s as int) <= PAGE_SIZE);
                assert(tuple_size(ts[s as int]) == len);
                end = end - len as usize;
                self.write_slot(s, end as u16, len);
            }
            s = s + 1;
        }
        let ghost filled = self@;
        self.set_free_end(write_end as u16);
        proof {
            let c = self@;
            assert forall|i: int| 0 <= i < n implies #[trigger] slot_off(c, i) == slot_off(filled, i)
                && slot_len(c, i) == slot_len(filled, i) by {}
            assert(ts == tuples_of(b) && n == count_of(b));
            assert forall|i: int| 0 <= i < count_of(b) && tuples_of(b)[i] is Some implies {
                &&& #[trigger] slot_len(c, i) == slot_len(b, i)
                &&& c.subrange(
                    packed_off(tuples_of(b), i),
                    packed_off(tuples_of(b), i) + slot_len(b, i),
                ) == tuples_of(b)[i]->0
            } by {
                assert(slot_len(filled, i) == slot_len(b, i));
                assert(slot_off(c, i) == slot_off(filled, i));
                assert(ts[i] is Some);
                assert(c.subrange(packed_off(ts, i), packed_off(ts, i) + slot_len(b, i))
                    =~= scratch@.subrange(packed_off(ts, i), packed_off(ts, i) + slot_len(b, i)));
            }
            lemma_pack(b, c);
            assert(c.subrange(write_end as int, PAGE_SIZE as int) =~= scratch@.subrange(
                write_end as int,
                PAGE_SIZE as int,
            ));
        }
    }

    /// Borrow the raw bytes for writing.
    pub fn as_bytes_mut(&mut self) -> (s: &mut [u8])
        ensures
            s@ == old(self)@,
            final(self)@ == final(s)@,
    {
        self.buf.as_mut()
    }

    /// Borrow the raw bytes.
    pub fn as_bytes(&self) -> (s: &[u8])
        ensures
            s@ == self@,
    {
        self.b()
    }
}

/// What inserting a tuple of `len` bytes returns on a page with slots `ts`.
pub open spec fn insert_result(ts: Seq<Option<Seq<u8>>>, len: int) -> Result<SlotId, PageError> {
    if len > MAX_TUPLE_SIZE {
        Err(PageError::TupleTooLarge)
    } else if room(ts) < len + slot_overhead(ts) {
        Err(PageError::PageFull)
    } else {
        Ok(first_dead(ts) as u16)
    }
}

/// What replacing slot `s` by `len` bytes returns on a page with slots `ts`.
pub open spec fn set_result(ts: Seq<Option<Seq<u8>>>, s: int, len: int) -> Result<(), PageError> {
    if len > MAX_TUPLE_SIZE {
        Err(PageError::TupleTooLarge)
    } else if s >= ts.len() || ts[s] is None {
        Err(PageError::BadSlot)
    } else if len > tuple_size(ts[s]) && room(ts) + tuple_size(ts[s]) < len {
        Err(PageError::PageFull)
    } else {
        Ok(())
    }
}

/// The first rule of `structure_ok` that page `b` breaks.
pub open spec fn structure_fault(b: Seq<u8>) -> Seq<char> {
    if free_start_of(b) != 32 + 4 * count_of(b) {
        "free_start != end of slot array"@
    } else if !(free_start_of(b) <= free_end_of(b) <= PAGE_SIZE) {
        "free window out of range"@
    } else if b[15] != PAGE_FORMAT_VERSION {
        "unknown page format version"@
    } else if type_of_byte(b[14]) is None {
        "unknown page type"@
    } else {
        "tuple outside heap region"@
    }
}

/// A page that verifies fails to verify after any one byte past the checksum
/// field has changed.
pub proof fn law_checksum_catches_a_changed_byte(b: Seq<u8>, at: int, v: u8)
    requires
        b.len() == PAGE_SIZE,
        checksum_ok(b),
        4 <= at < PAGE_SIZE,
        b[at] != v,
    ensures
        !checksum_ok(b.update(at, v)),
{
    let c = b.update(at, v);
    let body = b.subrange(4, PAGE_SIZE as int);
    assert(c.subrange(4, PAGE_SIZE as int) =~= body.update(at - 4, v));
    lemma_one_changed_byte_is_detected(body, at - 4, v);
}

/// Operations that keep a page well formed keep it valid: a well-formed page of
/// the current version and a known type passes the structural check.
pub proof fn law_well_formed_pages_validate(b: Seq<u8>)
    requires
        page_wf(b),
        b[15] == PAGE_FORMAT_VERSION,
        type_of_byte(b[14]) is Some,
    ensures
        structure_ok(b),
{
}

/// Deleting a slot on a page without other tombstones makes the next insertion
/// that succeeds use that slot again.
pub proof fn law_deleted_slot_is_reused(ts: Seq<Option<Seq<u8>>>, s: int, len: int)
    requires
        0 <= s < ts.len(),
        HEADER_SIZE + SLOT_SIZE * ts.len() <= PAGE_SIZE,
        forall|i: int| 0 <= i < ts.len() ==> (#[trigger] ts[i]) is Some,
    ensures
        insert_result(ts.update(s, None), len) matches Ok(r) ==> r == s,
{
    let dead = ts.update(s, None);
    lemma_first_dead(dead);
    assert(dead[s] is None);
    assert(forall|i: int| 0 <= i < ts.len() && i != s ==> (#[trigger] dead[i]) == ts[i]);
}

/// Slot numbers are stable: what an insertion does to one slot it does to no
/// other slot, and it never shortens the slot array.
pub proof fn law_insertion_keeps_other_slots(ts: Seq<Option<Seq<u8>>>, s: int, d: Seq<u8>, i: int)
    requires
        0 <= s <= ts.len(),
        0 <= i < ts.len(),
        s < ts.len() ==> ts[s] is None,
    ensures
        placed(ts, s, d).len() >= ts.len(),
        placed(ts, s, d)[s] == Some(d),
        ts[i] is Some ==> placed(ts, s, d)[i] == ts[i],
{
}

} // verus!
