//! A heap of records addressed by `(page, slot)`.
//!
//! A record keeps its address for life. An update that no longer fits its page
//! moves the record and leaves a forward stub, never more than one hop long.

use vstd::prelude::*;

use crate::buffer::{body_of, buffer_error_text, BufferError, PageId};
use crate::bytes::{copy_bytes, le16, le16_bytes, le32, le32_bytes, push_u16, push_u32, rd_u16, rd_u32};
use crate::page::{
    insert_result, lemma_first_dead, lemma_same_header, lemma_same_past_checksum, page_wf, placed,
    room, same_header, same_past_checksum, set_result, tuples_of, PageBuf, PageError, PageType, SlotId, SlottedPage,
    MAX_TUPLE_SIZE, PAGE_FORMAT_VERSION, PAGE_SIZE, SLOT_SIZE,
};
use crate::pager::{fresh_body, full, holds_out, kept, lemma_full, page_swapped, Pager};
use crate::text::{around, decimal, decimal_text};

verus! {

const TAG_TUPLE: u8 = 0;

const TAG_FORWARD: u8 = 1;

const TAG_FORWARD_TARGET: u8 = 2;

const RID_BYTES: usize = 6;

const TAG_BYTES: usize = 1;

/// The longest record.
pub const MAX_RECORD: usize = 8155;

/// What a stored record is, by its tag.
#[derive(Clone, Copy, Debug, PartialEq, Eq, Structural)]
pub enum RecordKind {
    Tuple,
    Forward(Rid),
    ForwardTarget,
}

/// The kind of a stored record, or the tag that is none (`0xFF` where there is no
/// tag at all).
pub open spec fn record_kind(b: Seq<u8>) -> Result<RecordKind, u8> {
    if b.len() == 0 {
        Err(0xFF)
    } else if b[0] == 0 {
        Ok(RecordKind::Tuple)
    } else if b[0] == 1 && b.len() > 6 {
        Ok(RecordKind::Forward(rid_at(b, 1)))
    } else if b[0] == 2 {
        Ok(RecordKind::ForwardTarget)
    } else {
        Err(b[0])
    }
}

pub fn classify_record(bytes: &[u8]) -> (r: Result<RecordKind, u8>)
    ensures
        r == record_kind(bytes@),
{
    let n: usize = bytes.len();
    if n == 0 {
        return Err(u8::MAX);
    }
    let tag: u8 = bytes[0];
    if tag == TAG_TUPLE {
        Ok(RecordKind::Tuple)
    } else if tag == TAG_FORWARD && n > RID_BYTES {
        Ok(RecordKind::Forward(Rid::decode(bytes, 1)))
    } else if tag == TAG_FORWARD_TARGET {
        Ok(RecordKind::ForwardTarget)
    } else {
        Err(tag)
    }
}

/// The address of a record.
#[derive(Clone, Copy, Debug, PartialEq, Eq, Hash, PartialOrd, Ord, Structural)]
pub struct Rid {
    pub page: PageId,
    pub slot: SlotId,
}

/// The address stored at `at`.
pub open spec fn rid_at(b: Seq<u8>, at: int) -> Rid {
    Rid { page: le32(b, at) as u32, slot: le16(b, at + 4) as u16 }
}

/// How an address is stored.
pub open spec fn rid_bytes(r: Rid) -> Seq<u8> {
    le32_bytes(r.page) + le16_bytes(r.slot)
}

/// Reading an address back gives the one that was stored.
pub proof fn law_rid_roundtrip(b: Seq<u8>, at: int, r: Rid)
    requires
        0 <= at,
        at + 6 <= b.len(),
        b.subrange(at, at + 6) == rid_bytes(r),
    ensures
        rid_at(b, at) == r,
{
    let s = b.subrange(at, at + 6);
    assert(b.subrange(at, at + 4) =~= s.subrange(0, 4));
    assert(s.subrange(0, 4) =~= le32_bytes(r.page));
    assert(b.subrange(at + 4, at + 6) =~= s.subrange(4, 6));
    assert(s.subrange(4, 6) =~= le16_bytes(r.slot));
    crate::bytes::lemma_le32_bytes(b, at, r.page);
    crate::bytes::lemma_le16_bytes(b, at + 4, r.slot);
}

impl Rid {
    pub fn new(page: PageId, slot: SlotId) -> (r: Rid)
        ensures
            r == (Rid { page, slot }),
    {
        Rid { page, slot }
    }

    /// Append the stored form.
    pub fn encode_into(self, out: &mut Vec<u8>)
        ensures
            final(out)@ == old(out)@ + rid_bytes(self),
    {
        push_u32(out, self.page);
        push_u16(out, self.slot);
        assert(out@ =~= old(out)@ + rid_bytes(self));
    }

    /// Read the stored form.
    pub fn decode(b: &[u8], at: usize) -> (r: Rid)
        requires
            at + 6 <= b@.len(),
        ensures
            r == rid_at(b@, at as int),
    {
        let len: usize = b.len();
        Rid { page: rd_u32(b, at), slot: rd_u16(b, at + 4) }
    }
}

#[derive(Clone, Copy, Debug, PartialEq, Eq, Structural)]
pub struct HeapStats {
    pub inserts: u64,
    pub gets: u64,
    pub updates: u64,
    pub deletes: u64,
    pub forward_hops: u64,
    pub forwards_created: u64,
    pub new_pages: u64,
}

impl HeapStats {
    /// Only the count of new pages may differ.
    pub open spec fn same_but_pages(&self, o: &HeapStats) -> bool {
        *self == (HeapStats { new_pages: self.new_pages, ..*o })
    }
}

impl Default for HeapStats {
    fn default() -> (s: HeapStats)
        ensures
            s == no_stats(),
    {
        HeapStats {
            inserts: 0,
            gets: 0,
            updates: 0,
            deletes: 0,
            forward_hops: 0,
            forwards_created: 0,
            new_pages: 0,
        }
    }
}

#[derive(Clone, Copy, Debug, PartialEq, Eq, Structural)]
pub enum HeapError {
    Buffer(BufferError),
    RecordTooLarge,
    DanglingForward(Rid),
    BadTag(u8),
    ForwardWontFit(Rid),
}

/// An address as text.
pub open spec fn rid_text(r: Rid) -> Seq<char> {
    "Rid { page: "@ + decimal(r.page as nat) + ", slot: "@ + decimal(r.slot as nat) + " }"@
}

/// The text of an error, where `io` is what the file says of its own failure.
pub open spec fn heap_error_text(e: HeapError, io: Seq<char>) -> Seq<char> {
    match e {
        HeapError::Buffer(b) => buffer_error_text(b, io),
        HeapError::RecordTooLarge => "record too large for a page"@,
        HeapError::DanglingForward(r) => "dangling forward to "@ + rid_text(r),
        HeapError::BadTag(t) => "bad heap record tag "@ + decimal(t as nat),
        HeapError::ForwardWontFit(r) => "forward stub won't fit at "@ + rid_text(r),
    }
}

fn show_rid(r: Rid) -> (t: String)
    ensures
        t@ == rid_text(r),
{
    around("Rid { page: ", r.page, ", slot: ").concat(decimal_text(r.slot as u64).as_str()).concat(
        " }",
    )
}

impl HeapError {
    /// The text of the error, where `io` is what the file says of its own failure.
    pub fn text(&self, io: &str) -> (t: String)
        ensures
            t@ == heap_error_text(*self, io@),
    {
        match self {
            HeapError::Buffer(b) => b.text(io),
            HeapError::RecordTooLarge => "record too large for a page".to_owned(),
            HeapError::DanglingForward(r) => "dangling forward to ".to_owned().concat(
                show_rid(*r).as_str(),
            ),
            HeapError::BadTag(t) => "bad heap record tag ".to_owned().concat(
                decimal_text(*t as u64).as_str(),
            ),
            HeapError::ForwardWontFit(r) => "forward stub won't fit at ".to_owned().concat(
                show_rid(*r).as_str(),
            ),
        }
    }
}

/// What the pages of a file hold.
pub type Pages = Map<PageId, Seq<u8>>;

/// Page `p` is one of the heap's.
pub open spec fn is_heap(pages: Pages, p: PageId) -> bool {
    pages.dom().contains(p) && full(pages[p])[14] == PageType::Heap.byte()
}

/// What is stored in a slot of a heap page.
pub open spec fn cell(pages: Pages, r: Rid) -> Option<Seq<u8>> {
    if is_heap(pages, r.page) && r.slot < tuples_of(full(pages[r.page])).len() {
        tuples_of(full(pages[r.page]))[r.slot as int]
    } else {
        None
    }
}

/// Every page that was handed out can be had.
pub open spec fn solid(pages: Pages, count: PageId) -> bool {
    &&& forall|p: PageId| #[trigger] pages.dom().contains(p) <==> p < count
    &&& forall|p: PageId| #[trigger] pages.dom().contains(p) ==> pages[p].len() == PAGE_SIZE - 4
}

/// Every page that was handed out can be had, or is known to be lost.
pub open spec fn told<P: Pager>(bp: &P) -> bool {
    forall|p: PageId|
        p < bp.count() ==> #[trigger] bp.pages().dom().contains(p) || bp.lost(p)
}

/// The first page that cannot be had.
pub open spec fn first_lost<P: Pager>(bp: &P, p: PageId) -> bool {
    &&& p < bp.count() && bp.lost(p)
    &&& forall|q: PageId| q < p ==> #[trigger] bp.pages().dom().contains(q)
}

/// The slot holds a forward stub.
pub open spec fn is_stub(pages: Pages, r: Rid) -> bool {
    cell(pages, r) matches Some(d) && d.len() > 0 && d[0] == 1
}

/// The slot holds a record that a stub leads to.
pub open spec fn is_moved(pages: Pages, r: Rid) -> bool {
    cell(pages, r) matches Some(d) && d.len() > 0 && d[0] == 2
}

/// Where a stub leads.
pub open spec fn target(pages: Pages, r: Rid) -> Rid {
    rid_at(cell(pages, r)->0, 1)
}

/// Every heap page is well formed, and every stub is whole and leads to no page of
/// another kind.
pub open spec fn tidy(pages: Pages, count: PageId) -> bool {
    &&& solid(pages, count)
    &&& heap_wf(pages)
    &&& forall|r: Rid| #[trigger] is_stub(pages, r) ==> whole_stub(pages, r)
}

/// Every stub is whole.
pub open spec fn whole_stubs(pages: Pages) -> bool {
    forall|r: Rid| #[trigger] is_stub(pages, r) ==> whole_stub(pages, r)
}

/// A stub holds an address, and what page it names is one of the heap's or none.
pub open spec fn whole_stub(pages: Pages, r: Rid) -> bool {
    &&& cell(pages, r)->0.len() >= 7
    &&& pages.dom().contains(target(pages, r).page) ==> is_heap(pages, target(pages, r).page)
}

/// Two stubs lead to the same place.
pub open spec fn share_target(pages: Pages, a: Rid, b: Rid) -> bool {
    is_stub(pages, a) && is_stub(pages, b) && target(pages, a) == target(pages, b)
}

/// Every stored record has a known tag, and every stub leads to a record of its
/// own that is marked as moved.
pub open spec fn sound(pages: Pages) -> bool {
    &&& forall|r: Rid|
        (#[trigger] cell(pages, r)) matches Some(d) ==> d.len() > 0 && (d[0] == 0 || d[0] == 1
            || d[0] == 2)
    &&& forall|r: Rid| #[trigger] is_stub(pages, r) ==> is_moved(pages, target(pages, r))
    &&& forall|a: Rid, b: Rid| #[trigger] share_target(pages, a, b) ==> a == b
}

/// The record at `r`: a stored tuple, or what its stub leads to.
pub open spec fn record(pages: Pages, r: Rid) -> Option<Seq<u8>> {
    match cell(pages, r) {
        Some(d) => if d[0] == 0 {
            Some(d.skip(1))
        } else if d[0] == 1 {
            Some(cell(pages, target(pages, r))->0.skip(1))
        } else {
            None
        },
        None => None,
    }
}

/// What the heap holds.
pub open spec fn records(pages: Pages) -> Map<Rid, Seq<u8>> {
    Map::new(|r: Rid| record(pages, r) is Some, |r: Rid| record(pages, r)->0)
}

/// The page is of the current version.
pub open spec fn versioned(pages: Pages, p: PageId) -> bool {
    full(pages[p])[15] == PAGE_FORMAT_VERSION
}

/// Slot `r` was set to `v`, and no other slot changed; only the page of `r` may be
/// a new heap page.
pub open spec fn cell_set(a: Pages, b: Pages, r: Rid, v: Option<Seq<u8>>) -> bool {
    &&& forall|p: PageId| #[trigger]
        a.dom().contains(p) ==> b.dom().contains(p) && (is_heap(a, p) == is_heap(b, p)) && (!is_heap(
            a,
            p,
        ) ==> b[p] == a[p]) && (versioned(a, p) ==> versioned(b, p))
    &&& forall|p: PageId| #[trigger]
        b.dom().contains(p) && !a.dom().contains(p) ==> p == r.page && versioned(b, p)
    &&& is_heap(b, r.page)
    &&& forall|x: Rid| #[trigger]
        cell(b, x) == if x == r {
            v
        } else {
            cell(a, x)
        }
}

/// What a lookup returns.
pub open spec fn get_result(pages: Pages, r: Rid) -> Result<Option<Seq<u8>>, HeapError> {
    match cell(pages, r) {
        None => Ok(None),
        Some(d) => if d.len() == 0 {
            Ok(None)
        } else if d[0] == 0 {
            Ok(Some(d.skip(1)))
        } else if d[0] == 1 {
            match cell(pages, target(pages, r)) {
                Some(t) => if t.len() > 0 && (t[0] == 0 || t[0] == 2) {
                    Ok(Some(t.skip(1)))
                } else {
                    Err(HeapError::DanglingForward(target(pages, r)))
                },
                None => Err(HeapError::DanglingForward(target(pages, r))),
            }
        } else if d[0] == 2 {
            Ok(None)
        } else {
            Err(HeapError::BadTag(d[0]))
        },
    }
}

/// In a sound heap a lookup returns the record, if there is one.
pub proof fn law_get_returns_the_record(pages: Pages, r: Rid)
    requires
        sound(pages),
    ensures
        get_result(pages, r) == Ok::<Option<Seq<u8>>, HeapError>(record(pages, r)),
{
    if is_stub(pages, r) {
        assert(cell(pages, target(pages, r)) is Some);
    }
}

/// What lookups give.
#[verifier::opaque]
pub open spec fn readings(pages: Pages) -> Map<Rid, Seq<u8>> {
    Map::new(
        |r: Rid| get_result(pages, r) is Ok && get_result(pages, r)->Ok_0 is Some,
        |r: Rid| get_result(pages, r)->Ok_0->0,
    )
}

/// No lookup fails.
#[verifier::opaque]
pub open spec fn faultless(pages: Pages) -> bool {
    forall|r: Rid| (#[trigger] get_result(pages, r)) is Ok
}

/// In a sound heap no lookup fails, and lookups give what the heap holds.
pub proof fn law_sound_heap_reads_its_records(pages: Pages)
    requires
        sound(pages),
    ensures
        faultless(pages),
        readings(pages) == records(pages),
{
    reveal(readings);
    reveal(faultless);
    assert forall|r: Rid| (#[trigger] get_result(pages, r)) is Ok && readings(pages).dom().contains(r)
        == records(pages).dom().contains(r) && (records(pages).dom().contains(r) ==> readings(pages)[r]
        == records(pages)[r]) by {
        law_get_returns_the_record(pages, r);
    }
    assert forall|r: Rid| readings(pages).dom().contains(r) == records(pages).dom().contains(r) by {
        assert(get_result(pages, r) is Ok);
    }
    assert forall|r: Rid| #[trigger] records(pages).dom().contains(r) implies readings(pages)[r]
        == records(pages)[r] by {
        assert(get_result(pages, r) is Ok);
    }
    assert(readings(pages) =~= records(pages));
}

/// The heap's own bookkeeping: a free-space map and a cursor into it.
pub struct HeapFile {
    pub fsm: Vec<u16>,
    pub cursor: usize,
    pub stats: HeapStats,
}

impl HeapFile {
    /// Only heap pages are offered for insertion.
    pub open spec fn fits(&self, pages: Pages) -> bool {
        forall|p: int|
            0 <= p < self.fsm@.len() && (#[trigger] self.fsm@[p]) > 0 ==> p <= u32::MAX && is_heap(
                pages,
                p as u32,
            )
    }
}

proof fn lemma_solid_kept<P: Pager>(a: Pages, b: &P, count: PageId)
    requires
        solid(a, count),
        b.pager_ok(),
        b.count() == count,
        kept(a, b.pages()),
    ensures
        b.pages() == a,
{
    b.lemma_pages();
    assert(b.pages() =~= a) by {
        assert forall|p: PageId| b.pages().dom().contains(p) <==> a.dom().contains(p) by {}
    }
}

/// Reading leaves the pages as they are.
proof fn lemma_told_kept<P: Pager>(a: &P, b: &P)
    requires
        a.pager_ok(),
        told(a),
        b.pager_ok(),
        b.count() == a.count(),
        kept(a.pages(), b.pages()),
        forall|p: PageId| #[trigger] a.lost(p) ==> b.lost(p),
    ensures
        b.pages() == a.pages(),
        told(b),
{
    a.lemma_pages();
    b.lemma_pages();
    assert forall|p: PageId| b.pages().dom().contains(p) <==> a.pages().dom().contains(p) by {
        if b.pages().dom().contains(p) && !a.pages().dom().contains(p) {
            assert(p < a.count());
            assert(a.lost(p));
            assert(b.lost(p));
        }
    }
    assert(b.pages() =~= a.pages());
    assert forall|p: PageId| p < b.count() implies #[trigger] b.pages().dom().contains(p) || b.lost(
        p,
    ) by {
        assert(a.pages().dom().contains(p) || a.lost(p));
    }
}

/// A copy of a slotted page.
fn load<P: Pager>(bp: &mut P, pid: PageId) -> (r: Result<SlottedPage, HeapError>)
    requires
        old(bp).pager_ok(),
        told(old(bp)),
    ensures
        final(bp).pager_ok(),
        told(final(bp)),
        final(bp).pages() == old(bp).pages(),
        final(bp).count() == old(bp).count(),
        final(bp).reach() == old(bp).reach(),
        forall|p: PageId| #[trigger] old(bp).lost(p) ==> final(bp).lost(p),
        match r {
            Ok(p) => {
                &&& old(bp).pages().dom().contains(pid)
                &&& pid < old(bp).count()
                &&& p@.len() == PAGE_SIZE
                &&& same_past_checksum(full(old(bp).pages()[pid]), p@)
                &&& body_of(p@) == old(bp).pages()[pid]
            },
            Err(e) => {
                &&& e is Buffer
                &&& holds_out(old(bp), 0) && pid < old(bp).count() ==> {
                    &&& e == HeapError::Buffer(BufferError::Corrupt(pid))
                    &&& old(bp).lost(pid)
                    &&& !old(bp).pages().dom().contains(pid)
                }
            },
        },
{
    let ghost a = *bp;
    proof {
        a.lemma_pages();
        assert(pid < a.count() ==> a.pages().dom().contains(pid) || a.lost(pid));
    }
    match bp.read_page(pid) {
        Ok(b) => {
            proof {
                lemma_told_kept(&a, bp);
                bp.lemma_pages();
                lemma_full(b@);
            }
            Ok(SlottedPage::from_bytes(PageBuf::from_vec(b)))
        },
        Err(e) => {
            proof {
                lemma_told_kept(&a, bp);
            }
            Err(HeapError::Buffer(e))
        },
    }
}

/// Page `pid` held `b` and holds `c`; no other page changed.
spec fn edited(before: Pages, after: Pages, pid: PageId, b: Seq<u8>, c: Seq<u8>) -> bool {
    &&& b.len() == PAGE_SIZE
    &&& body_of(b) == before[pid]
    &&& after == before.insert(pid, body_of(c))
}

/// Hand a page to `f` and put what it makes of it in its place.
fn edit<P: Pager, T, G: FnOnce(Vec<u8>) -> (Vec<u8>, T)>(bp: &mut P, pid: PageId, f: G) -> (r:
    Result<T, HeapError>)
    requires
        old(bp).pager_ok(),
        solid(old(bp).pages(), old(bp).count()),
        forall|b: Vec<u8>|
            pid < old(bp).count() && b@.len() == PAGE_SIZE && body_of(b@) == old(bp).pages()[pid]
                ==> #[trigger] f.requires((b,)),
        forall|b: Vec<u8>, c: Vec<u8>, t: T| #[trigger]
            f.ensures((b,), (c, t)) ==> c@.len() == PAGE_SIZE,
    ensures
        final(bp).pager_ok(),
        final(bp).count() == old(bp).count(),
        final(bp).reach() == old(bp).reach(),
        solid(final(bp).pages(), final(bp).count()),
        match r {
            Ok(t) => pid < old(bp).count() && exists|b: Vec<u8>, c: Vec<u8>| #[trigger]
                edited(old(bp).pages(), final(bp).pages(), pid, b@, c@) && f.ensures((b,), (c, t)),
            Err(e) => e is Buffer && !(holds_out(old(bp), 0) && pid < old(bp).count()) && final(
                bp).pages() == old(bp).pages(),
        },
{
    let ghost a = bp.pages();
    proof {
        bp.lemma_pages();
        assert(a.dom().contains(pid) <==> pid < bp.count());
    }
    match bp.with_page_mut(pid, f) {
        Ok(t) => {
            proof {
                let (b, c): (Vec<u8>, Vec<u8>) = choose|b: Vec<u8>, c: Vec<u8>|
                    #[trigger] page_swapped(a, bp.pages(), pid, b@, c@) && f.ensures((b,), (c, t));
                lemma_full(c@);
                let want = a.insert(pid, body_of(c@));
                assert(solid(want, bp.count()));
                lemma_solid_kept(want, bp, bp.count());
                assert(edited(a, bp.pages(), pid, b@, c@));
            }
            Ok(t)
        },
        Err(e) => {
            proof {
                lemma_solid_kept(a, bp, bp.count());
            }
            Err(HeapError::Buffer(e))
        },
    }
}

/// What inserting into a heap page does to it.
spec fn page_placed(
    b: Seq<u8>,
    data: Seq<u8>,
    c: Seq<u8>,
    res: Result<SlotId, PageError>,
    free: usize,
) -> bool {
    &&& page_wf(c)
    &&& same_header(b, c)
    &&& res == insert_result(tuples_of(b), data.len() as int)
    &&& tuples_of(c) == match res {
        Ok(slot) => placed(tuples_of(b), slot as int, data),
        Err(_) => tuples_of(b),
    }
    &&& free == room(tuples_of(c))
}

fn place_in(b: Vec<u8>, data: &Vec<u8>) -> (o: (Vec<u8>, (Result<SlotId, PageError>, usize)))
    requires
        page_wf(b@),
    ensures
        page_placed(b@, data@, o.0@, o.1.0, o.1.1),
{
    let mut page: SlottedPage = SlottedPage::from_bytes(PageBuf::from_vec(b));
    let res: Result<SlotId, PageError> = page.insert(data.as_slice());
    let free: usize = page.compactable_free();
    (page.into_bytes().into_vec(), (res, free))
}

/// What replacing a tuple of a heap page does to it.
spec fn page_replaced(
    b: Seq<u8>,
    slot: SlotId,
    data: Seq<u8>,
    c: Seq<u8>,
    fitted: bool,
    free: usize,
) -> bool {
    &&& page_wf(c)
    &&& same_header(b, c)
    &&& fitted == set_result(tuples_of(b), slot as int, data.len() as int) is Ok
    &&& tuples_of(c) == if fitted {
        tuples_of(b).update(slot as int, Some(data))
    } else {
        tuples_of(b)
    }
    &&& free == room(tuples_of(c))
}

fn replace_in(b: Vec<u8>, slot: SlotId, data: &Vec<u8>) -> (o: (Vec<u8>, (bool, usize)))
    requires
        page_wf(b@),
    ensures
        page_replaced(b@, slot, data@, o.0@, o.1.0, o.1.1),
{
    let mut page: SlottedPage = SlottedPage::from_bytes(PageBuf::from_vec(b));
    let res: Result<(), PageError> = page.set(slot, data.as_slice());
    let free: usize = page.compactable_free();
    (page.into_bytes().into_vec(), (res.is_ok(), free))
}

/// What deleting from a heap page does to it.
spec fn page_erased(b: Seq<u8>, slot: SlotId, c: Seq<u8>, existed: bool, free: usize) -> bool {
    &&& page_wf(c)
    &&& same_header(b, c)
    &&& existed == (slot < tuples_of(b).len() && tuples_of(b)[slot as int] is Some)
    &&& tuples_of(c) == if existed {
        tuples_of(b).update(slot as int, None)
    } else {
        tuples_of(b)
    }
    &&& free == room(tuples_of(c))
}

fn erase_in(b: Vec<u8>, slot: SlotId) -> (o: (Vec<u8>, (bool, usize)))
    requires
        page_wf(b@),
    ensures
        page_erased(b@, slot, o.0@, o.1.0, o.1.1),
{
    let mut page: SlottedPage = SlottedPage::from_bytes(PageBuf::from_vec(b));
    let existed: bool = page.delete(slot);
    let free: usize = page.compactable_free();
    (page.into_bytes().into_vec(), (existed, free))
}

/// Replacing one heap page by another that differs in one slot.
proof fn lemma_page_replaced(a: Pages, pid: PageId, page: Seq<u8>, slot: SlotId, v: Option<Seq<u8>>)
    requires
        is_heap(a, pid),
        a[pid].len() == PAGE_SIZE - 4,
        page_wf(page),
        page[14] == PageType::Heap.byte(),
        page[15] == full(a[pid])[15],
        ({
            let ts = tuples_of(full(a[pid]));
            let us = tuples_of(page);
            &&& us.len() >= ts.len()
            &&& us.len() <= ts.len() + 1
            &&& us.len() > ts.len() ==> slot == ts.len()
            &&& forall|i: int| 0 <= i < ts.len() && i != slot ==> us[i] == ts[i]
            &&& slot < us.len() ==> us[slot as int] == v
            &&& slot >= us.len() ==> v is None
        }),
    ensures
        cell_set(a, a.insert(pid, body_of(page)), Rid { page: pid, slot }, v),
        is_heap(a.insert(pid, body_of(page)), pid),
        page_wf(full(body_of(page))),
        tuples_of(full(body_of(page))) == tuples_of(page),
{
    let b = a.insert(pid, body_of(page));
    lemma_full(page);
    lemma_same_past_checksum(page, full(body_of(page)));
    assert(full(body_of(page))[14] == page[14]);
    assert(full(body_of(page))[15] == page[15]);
    let r = Rid { page: pid, slot };
    assert forall|x: Rid| #[trigger] cell(b, x) == if x == r {
        v
    } else {
        cell(a, x)
    } by {
        if x.page == pid {
            assert(is_heap(b, pid));
        } else {
            assert(is_heap(b, x.page) == is_heap(a, x.page));
        }
    }
    assert forall|p: PageId| #[trigger] a.dom().contains(p) implies b.dom().contains(p) && (is_heap(
        a,
        p,
    ) == is_heap(b, p)) && (!is_heap(a, p) ==> b[p] == a[p]) by {}
}


/// Every heap page is well formed.
pub open spec fn heap_wf(pages: Pages) -> bool {
    forall|p: PageId| #[trigger] is_heap(pages, p) ==> page_wf(full(pages[p]))
}

/// Whatever was stored still is.
pub open spec fn heap_kept(a: Pages, b: Pages) -> bool {
    forall|x: Rid| (#[trigger] cell(a, x)) is Some ==> cell(b, x) == cell(a, x)
}

/// No slot changed; at most page `p` is new.
pub open spec fn neutral(a: Pages, b: Pages, p: PageId) -> bool {
    &&& forall|q: PageId| #[trigger]
        a.dom().contains(q) ==> b.dom().contains(q) && (is_heap(a, q) == is_heap(b, q)) && (!is_heap(
            a,
            q,
        ) ==> b[q] == a[q]) && (versioned(a, q) ==> versioned(b, q))
    &&& forall|q: PageId| #[trigger]
        b.dom().contains(q) && !a.dom().contains(q) ==> q == p && versioned(b, q)
    &&& forall|x: Rid| #[trigger] cell(b, x) == cell(a, x)
}

proof fn lemma_neutral_then_set(a: Pages, m: Pages, b: Pages, p: PageId, r: Rid, v: Option<Seq<u8>>)
    requires
        neutral(a, m, p),
        cell_set(m, b, r, v),
        m.dom() =~= a.dom() || p == r.page,
    ensures
        cell_set(a, b, r, v),
{
    assert forall|x: PageId| #[trigger] a.dom().contains(x) implies b.dom().contains(x) && (is_heap(
        a,
        x,
    ) == is_heap(b, x)) && (!is_heap(a, x) ==> b[x] == a[x]) && (versioned(a, x) ==> versioned(
        b,
        x,
    )) by {
        assert(m.dom().contains(x));
    }
    assert forall|x: PageId| #[trigger] b.dom().contains(x) && !a.dom().contains(x) implies x
        == r.page && versioned(b, x) by {
        if m.dom().contains(x) {
            assert(m.dom().contains(x) && !a.dom().contains(x));
        }
    }
    assert forall|x: Rid| #[trigger] cell(b, x) == if x == r {
        v
    } else {
        cell(a, x)
    } by {
        assert(cell(m, x) == cell(a, x));
    }
}

/// Setting a slot to what it holds changes nothing.
proof fn lemma_set_same(a: Pages, b: Pages, r: Rid)
    requires
        cell_set(a, b, r, cell(a, r)),
    ensures
        neutral(a, b, r.page),
{
    assert forall|x: Rid| #[trigger] cell(b, x) == cell(a, x) by {}
}

/// A replaced heap page keeps the heap well formed.
proof fn lemma_heap_wf_replaced(a: Pages, pid: PageId, page: Seq<u8>)
    requires
        heap_wf(a),
        page_wf(full(body_of(page))),
    ensures
        heap_wf(a.insert(pid, body_of(page))),
{
    let b = a.insert(pid, body_of(page));
    assert forall|p: PageId| #[trigger] is_heap(b, p) implies page_wf(full(b[p])) by {
        if p != pid {
            assert(is_heap(a, p));
        }
    }
}

/// A fresh heap page holds nothing.
proof fn lemma_fresh_heap_page(a: Pages, pid: PageId, body: Seq<u8>)
    requires
        heap_wf(a),
        !a.dom().contains(pid),
        fresh_body(body, PageType::Heap),
    ensures
        neutral(a, a.insert(pid, body), pid),
        heap_wf(a.insert(pid, body)),
        is_heap(a.insert(pid, body), pid),
{
    let b = a.insert(pid, body);
    assert forall|x: Rid| #[trigger] cell(b, x) == cell(a, x) by {
        if x.page != pid {
            assert(is_heap(b, x.page) == is_heap(a, x.page));
        }
    }
    assert forall|p: PageId| #[trigger] is_heap(b, p) implies page_wf(full(b[p])) by {
        if p != pid {
            assert(is_heap(a, p));
        }
    }
}

/// Pages that hold what `m` holds keep what is stored.
proof fn lemma_kept_after(a: Pages, m: Pages, w: Pages)
    requires
        forall|x: Rid| #[trigger] cell(m, x) == cell(a, x),
        kept(m, w),
    ensures
        heap_kept(a, w),
{
    assert forall|x: Rid| (#[trigger] cell(a, x)) is Some implies cell(w, x) == cell(a, x) by {
        assert(cell(m, x) == cell(a, x));
        assert(m.dom().contains(x.page));
    }
}

/// Exactly one page was added.
proof fn lemma_alloc_solid<P: Pager>(m: Pages, bp: &P, pid: PageId)
    requires
        solid(m, pid),
        bp.pager_ok(),
        bp.count() == pid + 1,
        kept(m, bp.pages()),
        bp.pages().dom().contains(pid),
    ensures
        bp.pages() == m.insert(pid, bp.pages()[pid]),
        solid(bp.pages(), bp.count()),
{
    bp.lemma_pages();
    let w = m.insert(pid, bp.pages()[pid]);
    assert forall|p: PageId| bp.pages().dom().contains(p) <==> w.dom().contains(p) by {
        if bp.pages().dom().contains(p) {
            assert(p < bp.count());
            assert(p == pid || m.dom().contains(p));
        }
        if w.dom().contains(p) && p != pid {
            assert(m.dom().contains(p));
        }
    }
    assert(bp.pages() =~= w);
}

proof fn lemma_fits_on(h: &HeapFile, a: Pages, b: Pages)
    requires
        h.fits(a),
        forall|p: PageId| #[trigger] is_heap(a, p) ==> is_heap(b, p),
    ensures
        h.fits(b),
{
}

/// Nothing but slots of heap pages changed, and no page is new.
pub open spec fn same_shape(a: Pages, b: Pages) -> bool {
    &&& a.dom() =~= b.dom()
    &&& forall|p: PageId| #[trigger] is_heap(b, p) == is_heap(a, p)
}

/// Every page but `p` is as it was.
pub open spec fn pages_same_but(a: Pages, b: Pages, p: PageId) -> bool {
    forall|q: PageId| #[trigger] a.dom().contains(q) && q != p ==> b.dom().contains(q) && b[q] == a[q]
}

/// A heap page as it is read is well formed.
proof fn lemma_pages_like(a: Pages, pid: PageId)
    requires
        heap_wf(a),
        is_heap(a, pid),
    ensures
        forall|b: Vec<u8>|
            b@.len() == PAGE_SIZE && body_of(#[trigger] b@) == a[pid] ==> page_wf(b@),
{
    assert forall|b: Vec<u8>| b@.len() == PAGE_SIZE && body_of(#[trigger] b@) == a[pid] implies page_wf(
        b@,
    ) by {
        lemma_full(b@);
        lemma_same_past_checksum(full(a[pid]), b@);
    }
}

/// Insert into a heap page: the slot taken, none where there was no room, and the
/// space left.
fn place<P: Pager>(bp: &mut P, pid: PageId, data: &Vec<u8>) -> (r: Result<
    (Option<SlotId>, usize),
    HeapError,
>)
    requires
        old(bp).pager_ok(),
        solid(old(bp).pages(), old(bp).count()),
        heap_wf(old(bp).pages()),
        is_heap(old(bp).pages(), pid),
        data@.len() <= MAX_TUPLE_SIZE,
    ensures
        final(bp).pager_ok(),
        final(bp).count() == old(bp).count(),
        final(bp).reach() == old(bp).reach(),
        solid(final(bp).pages(), final(bp).count()),
        heap_wf(final(bp).pages()),
        same_shape(old(bp).pages(), final(bp).pages()),
        match r {
            Ok((Some(slot), _)) => {
                &&& cell(old(bp).pages(), Rid { page: pid, slot }) is None
                &&& cell_set(
                    old(bp).pages(),
                    final(bp).pages(),
                    Rid { page: pid, slot },
                    Some(data@),
                )
                &&& insert_result(
                    tuples_of(full(old(bp).pages()[pid])),
                    data@.len() as int,
                ) == Ok::<SlotId, PageError>(slot)
            },
            Ok((None, _)) => {
                &&& neutral(old(bp).pages(), final(bp).pages(), pid)
                &&& insert_result(
                    tuples_of(full(old(bp).pages()[pid])),
                    data@.len() as int,
                ) is Err
            },
            Err(e) => e is Buffer && !holds_out(old(bp), 0) && final(bp).pages() == old(bp).pages(),
        },
        r matches Ok((_, free)) ==> free == room(tuples_of(full(final(bp).pages()[pid]))),
        r matches Ok((None, _)) ==> tuples_of(full(final(bp).pages()[pid])) == tuples_of(
            full(old(bp).pages()[pid]),
        ),
        pages_same_but(old(bp).pages(), final(bp).pages(), pid),
{
    let ghost a = bp.pages();
    let f = |b: Vec<u8>| -> (o: (Vec<u8>, (Result<SlotId, PageError>, usize)))
        requires
            page_wf(b@),
        ensures
            page_placed(b@, data@, o.0@, o.1.0, o.1.1),
        { place_in(b, data) };
    proof {
        assert(a.dom().contains(pid));
        lemma_pages_like(a, pid);
    }
    match edit(bp, pid, f) {
        Ok((res, free)) => {
            proof {
                let (was, page): (Vec<u8>, Vec<u8>) = choose|b: Vec<u8>, c: Vec<u8>|
                    #[trigger] edited(a, bp.pages(), pid, b@, c@) && f.ensures(
                        (b,),
                        (c, (res, free)),
                    );
                lemma_full(was@);
                lemma_same_past_checksum(full(a[pid]), was@);
                lemma_first_dead(tuples_of(was@));
                lemma_same_header(was@, page@);
                let b = a.insert(pid, body_of(page@));
                match res {
                    Ok(slot) => {
                        lemma_page_replaced(a, pid, page@, slot, Some(data@));
                        assert(cell(a, Rid { page: pid, slot }) is None);
                    },
                    Err(_) => {
                        let r = Rid { page: pid, slot: 0 };
                        lemma_page_replaced(a, pid, page@, 0, cell(a, r));
                        lemma_set_same(a, b, r);
                    },
                }
                lemma_heap_wf_replaced(a, pid, page@);
                assert(same_shape(a, b));
            }
            match res {
                Ok(slot) => Ok((Some(slot), free)),
                Err(_) => Ok((None, free)),
            }
        },
        Err(e) => Err(e),
    }
}

/// Replace what a slot of a heap page holds: whether there was room, and the space
/// left.
fn replace<P: Pager>(bp: &mut P, rid: Rid, data: &Vec<u8>) -> (r: Result<(bool, usize), HeapError>)
    requires
        old(bp).pager_ok(),
        solid(old(bp).pages(), old(bp).count()),
        heap_wf(old(bp).pages()),
        cell(old(bp).pages(), rid) is Some,
        data@.len() <= MAX_TUPLE_SIZE,
    ensures
        final(bp).pager_ok(),
        final(bp).count() == old(bp).count(),
        final(bp).reach() == old(bp).reach(),
        solid(final(bp).pages(), final(bp).count()),
        heap_wf(final(bp).pages()),
        same_shape(old(bp).pages(), final(bp).pages()),
        match r {
            Ok((fitted, free)) => {
                &&& pages_same_but(old(bp).pages(), final(bp).pages(), rid.page)
                &&& !fitted ==> tuples_of(full(final(bp).pages()[rid.page])) == tuples_of(
                    full(old(bp).pages()[rid.page]),
                )
                &&& fitted == can_hold(old(bp).pages(), rid, data@.len() as int)
                &&& cell_set(
                    old(bp).pages(),
                    final(bp).pages(),
                    rid,
                    if fitted {
                        Some(data@)
                    } else {
                        cell(old(bp).pages(), rid)
                    },
                )
                &&& free == room(tuples_of(full(final(bp).pages()[rid.page])))
            },
            Err(e) => e is Buffer && !holds_out(old(bp), 0) && final(bp).pages() == old(bp).pages(),
        },
{
    let ghost a = bp.pages();
    let slot: SlotId = rid.slot;
    let f = |b: Vec<u8>| -> (o: (Vec<u8>, (bool, usize)))
        requires
            page_wf(b@),
        ensures
            page_replaced(b@, slot, data@, o.0@, o.1.0, o.1.1),
        { replace_in(b, slot, data) };
    proof {
        assert(is_heap(a, rid.page));
        lemma_pages_like(a, rid.page);
    }
    match edit(bp, rid.page, f) {
        Ok((fitted, free)) => {
            proof {
                let (was, page): (Vec<u8>, Vec<u8>) = choose|b: Vec<u8>, c: Vec<u8>|
                    #[trigger] edited(a, bp.pages(), rid.page, b@, c@) && f.ensures(
                        (b,),
                        (c, (fitted, free)),
                    );
                lemma_full(was@);
                lemma_same_past_checksum(full(a[rid.page]), was@);
                lemma_same_header(was@, page@);
                let b = a.insert(rid.page, body_of(page@));
                lemma_page_replaced(
                    a,
                    rid.page,
                    page@,
                    rid.slot,
                    if fitted {
                        Some(data@)
                    } else {
                        cell(a, rid)
                    },
                );
                lemma_heap_wf_replaced(a, rid.page, page@);
                assert(same_shape(a, b));
            }
            Ok((fitted, free))
        },
        Err(e) => Err(e),
    }
}

/// The slot's page has room to hold `len` bytes in that slot.
pub open spec fn can_hold(pages: Pages, r: Rid, len: int) -> bool {
    set_result(tuples_of(full(pages[r.page])), r.slot as int, len) is Ok
}

/// Empty a slot of a heap page: whether it held anything, and the space left.
fn erase<P: Pager>(bp: &mut P, rid: Rid) -> (r: Result<(bool, usize), HeapError>)
    requires
        old(bp).pager_ok(),
        solid(old(bp).pages(), old(bp).count()),
        heap_wf(old(bp).pages()),
        old(bp).pages().dom().contains(rid.page) ==> is_heap(old(bp).pages(), rid.page),
    ensures
        final(bp).pager_ok(),
        final(bp).count() == old(bp).count(),
        final(bp).reach() == old(bp).reach(),
        solid(final(bp).pages(), final(bp).count()),
        heap_wf(final(bp).pages()),
        same_shape(old(bp).pages(), final(bp).pages()),
        match r {
            Ok((existed, free)) => {
                &&& is_heap(old(bp).pages(), rid.page)
                &&& pages_same_but(old(bp).pages(), final(bp).pages(), rid.page)
                &&& existed == cell(old(bp).pages(), rid) is Some
                &&& cell_set(old(bp).pages(), final(bp).pages(), rid, None)
                &&& free == room(tuples_of(full(final(bp).pages()[rid.page])))
            },
            Err(e) => {
                &&& e is Buffer
                &&& !(holds_out(old(bp), 0) && is_heap(old(bp).pages(), rid.page))
                &&& final(bp).pages() == old(bp).pages()
            },
        },
{
    let ghost a = bp.pages();
    let slot: SlotId = rid.slot;
    let f = |b: Vec<u8>| -> (o: (Vec<u8>, (bool, usize)))
        requires
            page_wf(b@),
        ensures
            page_erased(b@, slot, o.0@, o.1.0, o.1.1),
        { erase_in(b, slot) };
    proof {
        if rid.page < bp.count() {
            assert(a.dom().contains(rid.page));
            lemma_pages_like(a, rid.page);
        }
    }
    match edit(bp, rid.page, f) {
        Ok((existed, free)) => {
            proof {
                let (was, page): (Vec<u8>, Vec<u8>) = choose|b: Vec<u8>, c: Vec<u8>|
                    #[trigger] edited(a, bp.pages(), rid.page, b@, c@) && f.ensures(
                        (b,),
                        (c, (existed, free)),
                    );
                lemma_full(was@);
                lemma_same_past_checksum(full(a[rid.page]), was@);
                lemma_same_header(was@, page@);
                let b = a.insert(rid.page, body_of(page@));
                lemma_page_replaced(a, rid.page, page@, rid.slot, None);
                lemma_heap_wf_replaced(a, rid.page, page@);
                assert(same_shape(a, b));
            }
            Ok((existed, free))
        },
        Err(e) => Err(e),
    }
}

/// Page `r` is the first, from the cursor on, that the free-space map lists with room for
/// `need` bytes and a slot; none is listed where there is no `r`.
pub open spec fn picks(fsm: Seq<u16>, cursor: int, need: int, r: Option<PageId>) -> bool {
    let n = fsm.len() as int;
    let start = if n == 0 {
        0
    } else {
        cursor % n
    };
    match r {
        None => forall|i: int| 0 <= i < n ==> (#[trigger] fsm[i]) < need + SLOT_SIZE,
        Some(p) => {
            &&& p < n
            &&& fsm[p as int] >= need + SLOT_SIZE
            &&& forall|i: int|
                0 <= i < n && crate::clock::passed(
                    start,
                    if p >= start {
                        p - start
                    } else {
                        p + n - start
                    },
                    n,
                    i,
                ) ==> (#[trigger] fsm[i]) < need + SLOT_SIZE
        },
    }
}

/// The free-space map has the room of page `p`.
pub open spec fn room_listed(fsm: Seq<u16>, pages: Pages, p: PageId) -> bool {
    let free = room(tuples_of(full(pages[p])));
    &&& p < fsm.len()
    &&& fsm[p as int] == if free < 0xFFFF {
        free
    } else {
        0xFFFF
    }
}

/// The free-space map has the room of every heap page.
#[verifier::opaque]
pub open spec fn tracks(fsm: Seq<u16>, pages: Pages) -> bool {
    forall|p: PageId| #[trigger] is_heap(pages, p) ==> room_listed(fsm, pages, p)
}

/// Heap page `pid` was changed or added, and listed anew.
proof fn lemma_tracks(fsm: Seq<u16>, after: Seq<u16>, a: Pages, b: Pages, pid: PageId)
    requires
        room_listed(after, b, pid),
        forall|i: int|
            0 <= i < fsm.len() && i != pid ==> i < after.len() && #[trigger] after[i] == fsm[i],
        forall|p: PageId| #[trigger] is_heap(b, p) && p != pid ==> is_heap(a, p) && b[p] == a[p],
    ensures
        tracks(fsm, a) ==> tracks(after, b),
{
    reveal(tracks);
    if tracks(fsm, a) {
        assert forall|p: PageId| #[trigger] is_heap(b, p) implies room_listed(after, b, p) by {
            if p != pid {
                assert(is_heap(a, p));
                assert(after[p as int] == fsm[p as int]);
            }
        }
    }
}

/// A record of `need` bytes goes to the page `pick` where it has room for it, else to a new
/// page, `count`. The map has then the room that is left on each of them.
pub open spec fn lands_by(
    fsm: Seq<u16>,
    after: Seq<u16>,
    a: Pages,
    b: Pages,
    count: PageId,
    need: int,
    page: PageId,
    pick: Option<PageId>,
) -> bool {
    &&& page == if pick is Some && insert_result(tuples_of(full(a[pick->0])), need) is Ok {
        pick->0
    } else {
        count
    }
    &&& room_listed(after, b, page)
    &&& pick is Some ==> room_listed(after, b, pick->0)
    &&& forall|i: int|
        0 <= i < fsm.len() && i != page && !(pick is Some && i == pick->0) ==> i < after.len()
            && #[trigger] after[i] == fsm[i]
}

/// Where a record of `need` bytes goes: to the page that the free-space map offers first,
/// where it has room there. Only where the map offers none, or the one it offers is full, is
/// it a new page.
#[verifier::opaque]
pub open spec fn lands(
    fsm: Seq<u16>,
    cursor: int,
    after: Seq<u16>,
    a: Pages,
    b: Pages,
    count: PageId,
    need: int,
    page: PageId,
) -> bool {
    exists|pick: Option<PageId>| #[trigger]
        picks(fsm, cursor, need, pick) && lands_by(fsm, after, a, b, count, need, page, pick)
}

/// No page is allocated where a heap page has room: while the free-space map is up to date,
/// a record that a heap page has room for goes to such a page.
pub proof fn law_room_is_used(
    fsm: Seq<u16>,
    cursor: int,
    after: Seq<u16>,
    a: Pages,
    b: Pages,
    count: PageId,
    need: int,
    page: PageId,
    roomy: PageId,
)
    requires
        lands(fsm, cursor, after, a, b, count, need, page),
        tracks(fsm, a),
        forall|p: int|
            0 <= p < fsm.len() && (#[trigger] fsm[p]) > 0 ==> p <= u32::MAX && is_heap(a, p as u32),
        0 <= need <= MAX_TUPLE_SIZE,
        is_heap(a, roomy),
        room(tuples_of(full(a[roomy]))) >= need + SLOT_SIZE,
    ensures
        is_heap(a, page),
        room(tuples_of(full(a[page]))) >= need + SLOT_SIZE,
{
    reveal(lands);
    reveal(tracks);
    let pick = choose|pick: Option<PageId>| #[trigger]
        picks(fsm, cursor, need, pick) && lands_by(fsm, after, a, b, count, need, page, pick);
    assert(room_listed(fsm, a, roomy));
    assert(fsm[roomy as int] >= need + SLOT_SIZE);
    assert(pick is Some);
    assert(fsm[pick->0 as int] > 0);
    assert(is_heap(a, pick->0));
    assert(room_listed(fsm, a, pick->0));
}

proof fn lemma_lands(
    fsm: Seq<u16>,
    cursor: int,
    after: Seq<u16>,
    a: Pages,
    b: Pages,
    count: PageId,
    need: int,
    page: PageId,
    pick: Option<PageId>,
)
    requires
        picks(fsm, cursor, need, pick),
        lands_by(fsm, after, a, b, count, need, page, pick),
    ensures
        lands(fsm, cursor, after, a, b, count, need, page),
{
    reveal(lands);
}

impl HeapFile {
    fn set_fsm(&mut self, pid: PageId, free: usize, Ghost(pages): Ghost<Pages>)
        requires
            old(self).fits(pages),
            is_heap(pages, pid),
        ensures
            final(self).fits(pages),
            final(self).cursor == old(self).cursor,
            final(self).stats == old(self).stats,
            final(self).fsm@.len() == if old(self).fsm@.len() > pid {
                old(self).fsm@.len() as int
            } else {
                pid + 1
            },
            final(self).fsm@[pid as int] == if free < 0xFFFF {
                free as u16
            } else {
                0xFFFF
            },
            forall|i: int|
                0 <= i < old(self).fsm@.len() && i != pid ==> final(self).fsm@[i]
                    == old(self).fsm@[i],
            forall|i: int|
                old(self).fsm@.len() <= i < final(self).fsm@.len() && i != pid
                    ==> final(self).fsm@[i] == 0,
    {
        let at: usize = pid as usize;
        while self.fsm.len() <= at
            invariant
                at == pid,
                self.fits(pages),
                self.cursor == old(self).cursor,
                self.stats == old(self).stats,
                old(self).fsm@.len() <= self.fsm@.len(),
                self.fsm@.len() <= at + 1 || self.fsm@.len() == old(self).fsm@.len(),
                forall|i: int| 0 <= i < old(self).fsm@.len() ==> self.fsm@[i] == old(self).fsm@[i],
                forall|i: int|
                    old(self).fsm@.len() <= i < self.fsm@.len() ==> (#[trigger] self.fsm@[i]) == 0,
            decreases at + 1 - self.fsm@.len(),
        {
            self.fsm.push(0);
        }
        self.fsm[at] = if free < 0xFFFF {
            free as u16
        } else {
            0xFFFF
        };
    }

    /// The next page, from the cursor on, that has room for `need` bytes and a
    /// slot.
    fn pick_page(&mut self, need: usize) -> (r: Option<PageId>)
        requires
            need <= MAX_TUPLE_SIZE,
            forall|p: int|
                0 <= p < old(self).fsm@.len() && (#[trigger] old(self).fsm@[p]) > 0 ==> p
                    <= u32::MAX,
        ensures
            final(self).fsm == old(self).fsm,
            final(self).stats == old(self).stats,
            picks(old(self).fsm@, old(self).cursor as int, need as int, r),
            final(self).cursor == match r {
                Some(p) => crate::clock::reached(p as int, 1, old(self).fsm@.len() as int),
                None => old(self).cursor as int,
            },
    {
        let want: usize = need + SLOT_SIZE;
        let n: usize = self.fsm.len();
        if n == 0 {
            return None;
        }
        let start: usize = self.cursor % n;
        let mut idx: usize = start;
        let mut i: usize = 0;
        while i < n
            invariant
                i <= n == self.fsm@.len(),
                n > 0,
                start < n,
                idx < n,
                start == self.cursor as int % (n as int),
                want == need + SLOT_SIZE,
                i < n ==> idx == crate::clock::reached(start as int, i as int, n as int),
                *self == *old(self),
                forall|p: int|
                    0 <= p < self.fsm@.len() && (#[trigger] self.fsm@[p]) > 0 ==> p <= u32::MAX,
                forall|k: int|
                    0 <= k < n && crate::clock::passed(start as int, i as int, n as int, k) ==> (
                    #[trigger] self.fsm@[k]) < want,
            decreases n - i,
        {
            if self.fsm[idx] as usize >= want {
                self.cursor = crate::clock::step(idx, n);
                return Some(idx as PageId);
            }
            idx = crate::clock::step(idx, n);
            i = i + 1;
        }
        None
    }

    /// The tag and payload stored in a slot, if anything is.
    fn read_slot<P: Pager>(&self, bp: &mut P, rid: Rid) -> (r: Result<
        Option<(u8, Vec<u8>)>,
        HeapError,
    >)
        requires
            old(bp).pager_ok(),
            solid(old(bp).pages(), old(bp).count()),
            heap_wf(old(bp).pages()),
            rid.page < old(bp).count() ==> is_heap(old(bp).pages(), rid.page),
        ensures
            final(bp).pager_ok(),
            final(bp).pages() == old(bp).pages(),
            final(bp).count() == old(bp).count(),
            final(bp).reach() == old(bp).reach(),
            match r {
                Ok(Some((tag, payload))) => cell(old(bp).pages(), rid) == Some(
                    seq![tag] + payload@,
                ),
                Ok(None) => cell(old(bp).pages(), rid) is None || cell(
                    old(bp).pages(),
                    rid,
                )->0.len() == 0,
                Err(e) => e is Buffer && !holds_out(old(bp), 0),
            },
    {
        if rid.page >= bp.page_count() {
            return Ok(None);
        }
        let page: SlottedPage = match load(bp, rid.page) {
            Ok(p) => p,
            Err(e) => {
                return Err(e);
            },
        };
        proof {
            assert(is_heap(bp.pages(), rid.page));
            lemma_same_past_checksum(full(bp.pages()[rid.page]), page@);
        }
        match page.get(rid.slot) {
            None => Ok(None),
            Some(bytes) => {
                let n: usize = bytes.len();
                if n == 0 {
                    return Ok(None);
                }
                let payload: Vec<u8> = copy_bytes(&bytes[1..n]);
                assert(bytes@ =~= seq![bytes@[0]] + payload@);
                Ok(Some((bytes[0], payload)))
            },
        }
    }

    /// Store a tagged record wherever there is room.
    fn insert_tagged<P: Pager>(&mut self, bp: &mut P, tag: u8, record: &[u8]) -> (r: Result<
        Rid,
        HeapError,
    >)
        requires
            old(bp).pager_ok(),
            old(bp).count() < u32::MAX,
            solid(old(bp).pages(), old(bp).count()),
            heap_wf(old(bp).pages()),
            old(self).fits(old(bp).pages()),
            record@.len() <= MAX_RECORD,
        ensures
            !(r matches Err(HeapError::Buffer(_))) && tracks(old(self).fsm@, old(bp).pages())
                ==> tracks(final(self).fsm@, final(bp).pages()),
            final(bp).pager_ok(),
            final(bp).reach() == old(bp).reach(),
            old(bp).count() <= final(bp).count() <= old(bp).count() + 1,
            final(self).stats.same_but_pages(&old(self).stats),
            match r {
                Ok(rid) => {
                    &&& cell(old(bp).pages(), rid) is None
                    &&& cell_set(
                        old(bp).pages(),
                        final(bp).pages(),
                        rid,
                        Some(seq![tag] + record@),
                    )
                    &&& solid(final(bp).pages(), final(bp).count())
                    &&& heap_wf(final(bp).pages())
                    &&& final(self).fits(final(bp).pages())
                    &&& lands(
                        old(self).fsm@,
                        old(self).cursor as int,
                        final(self).fsm@,
                        old(bp).pages(),
                        final(bp).pages(),
                        old(bp).count(),
                        record@.len() as int + 1,
                        rid.page,
                    )
                    &&& final(bp).count() == if rid.page == old(bp).count() {
                        old(bp).count() + 1
                    } else {
                        old(bp).count() as int
                    }
                    &&& is_heap(old(bp).pages(), rid.page) ==> insert_result(
                        tuples_of(full(old(bp).pages()[rid.page])),
                        record@.len() as int + 1,
                    ) is Ok
                    &&& forall|p: PageId| #[trigger]
                        is_heap(old(bp).pages(), p) && p != rid.page ==> tuples_of(
                            full(final(bp).pages()[p]),
                        ) == tuples_of(full(old(bp).pages()[p]))
                    &&& final(self).stats.new_pages == if final(bp).count() == old(bp).count() {
                        old(self).stats.new_pages
                    } else {
                        old(self).stats.new_pages.wrapping_add(1)
                    }
                },
                Err(e) => {
                    &&& e is Buffer
                    &&& !holds_out(old(bp), 1)
                    &&& heap_kept(old(bp).pages(), final(bp).pages())
                },
            },
    {
        let need: usize = TAG_BYTES + record.len();
        let mut buf: Vec<u8> = Vec::with_capacity(need);
        buf.push(tag);
        buf.extend_from_slice(record);
        let ghost data = seq![tag] + record@;
        assert(buf@ =~= data);
        let ghost a = bp.pages();
        let ghost n = bp.count();
        let ghost fsm = self.fsm@;
        let ghost cursor = self.cursor as int;
        let pick: Option<PageId> = self.pick_page(need);
        if let Some(pid) = pick {
            assert(is_heap(a, pid));
            match place(bp, pid, &buf) {
                Ok((res, free)) => {
                    proof {
                        lemma_fits_on(self, a, bp.pages());
                    }
                    self.set_fsm(pid, free, Ghost(bp.pages()));
                    proof {
                        lemma_tracks(fsm, self.fsm@, a, bp.pages(), pid);
                    }
                    if let Some(slot) = res {
                        proof {
                            let b = bp.pages();
                            lemma_lands(fsm, cursor, self.fsm@, a, b, n, need as int, pid, pick);
                        }
                        return Ok(Rid::new(pid, slot));
                    }
                },
                Err(e) => {
                    return Err(e);
                },
            }
        }
        let ghost m = bp.pages();
        let ghost listing = self.fsm@;
        assert(pick is Some ==> room_listed(listing, m, pick->0));
        assert(neutral(a, m, 0) && m.dom() =~= a.dom());
        let pid: PageId = match bp.alloc_slotted(PageType::Heap) {
            Ok(p) => p,
            Err(e) => {
                proof {
                    lemma_kept_after(a, m, bp.pages());
                }
                return Err(HeapError::Buffer(e));
            },
        };
        let ghost w = bp.pages();
        proof {
            lemma_alloc_solid(m, bp, pid);
            lemma_fresh_heap_page(m, pid, w[pid]);
            lemma_fits_on(self, m, w);
        }
        match place(bp, pid, &buf) {
            Ok((res, free)) => {
                proof {
                    assert(tuples_of(full(w[pid])).len() == 0);
                    lemma_first_dead(tuples_of(full(w[pid])));
                    lemma_neutral_then_set(
                        m,
                        w,
                        bp.pages(),
                        pid,
                        Rid { page: pid, slot: res->0 },
                        Some(data),
                    );
                    lemma_neutral_then_set(
                        a,
                        m,
                        bp.pages(),
                        0,
                        Rid { page: pid, slot: res->0 },
                        Some(data),
                    );
                    lemma_fits_on(self, w, bp.pages());
                }
                self.set_fsm(pid, free, Ghost(bp.pages()));
                proof {
                    let b = bp.pages();
                    assert(pid == n);
                    if let Some(k) = pick {
                        assert(k != pid && b[k] == m[k]);
                        assert(room_listed(self.fsm@, b, k));
                    }
                    lemma_lands(fsm, cursor, self.fsm@, a, b, n, need as int, pid, pick);
                    lemma_tracks(listing, self.fsm@, m, b, pid);
                }
                self.stats.new_pages = self.stats.new_pages.wrapping_add(1);
                let slot: SlotId = match res {
                    Some(s) => s,
                    None => 0,
                };
                Ok(Rid::new(pid, slot))
            },
            Err(e) => {
                proof {
                    lemma_kept_after(a, m, w);
                }
                Err(e)
            },
        }
    }
}

/// Pages of other kinds are as they were, heap pages are still heap pages, and none is of
/// an older version than before.
pub open spec fn frame(a: Pages, b: Pages) -> bool {
    &&& forall|p: PageId| #[trigger]
        a.dom().contains(p) ==> b.dom().contains(p) && (is_heap(a, p) == is_heap(b, p)) && (!is_heap(
            a,
            p,
        ) ==> b[p] == a[p]) && (versioned(a, p) ==> versioned(b, p))
    &&& forall|p: PageId| #[trigger]
        b.dom().contains(p) && !a.dom().contains(p) ==> versioned(b, p)
}

/// The slots that deleting the record at `r` empties.
pub open spec fn goes_with(a: Pages, r: Rid, x: Rid) -> bool {
    x == r || is_stub(a, r) && x == target(a, r)
}

/// The record at `r` was deleted, with its moved part.
pub open spec fn deleted(a: Pages, b: Pages, r: Rid) -> bool {
    &&& frame(a, b)
    &&& a.dom() =~= b.dom()
    &&& forall|x: Rid| #[trigger]
        cell(b, x) == if goes_with(a, r, x) {
            None
        } else {
            cell(a, x)
        }
}

/// A stub that leads to `t`.
pub open spec fn stub_for(t: Rid) -> Seq<u8> {
    seq![1u8] + rid_bytes(t)
}

/// The record at `r` now lies at `t`, which was free, and `r` leads there.
pub open spec fn moved_to(a: Pages, b: Pages, r: Rid, t: Rid, rec: Seq<u8>) -> bool {
    &&& frame(a, b)
    &&& cell(a, t) is None
    &&& forall|x: Rid| #[trigger]
        cell(b, x) == if x == t {
            Some(seq![2u8] + rec)
        } else if x == r {
            Some(stub_for(t))
        } else if goes_with(a, r, x) {
            None
        } else {
            cell(a, x)
        }
}

/// What is stored at `r` begins with `tag`.
pub open spec fn tagged(pages: Pages, r: Rid, tag: u8) -> bool {
    cell(pages, r) matches Some(d) && d.len() > 0 && d[0] == tag
}

/// The record at `r` was replaced by `rec`: in place where there is room, else by
/// moving it.
pub open spec fn updated(a: Pages, b: Pages, r: Rid, rec: Seq<u8>) -> bool {
    let len = rec.len() as int + 1;
    if tagged(a, r, 0) && can_hold(a, r, len) {
        cell_set(a, b, r, Some(seq![0u8] + rec))
    } else if tagged(a, r, 1) && can_hold(a, target(a, r), len) {
        cell_set(a, b, target(a, r), Some(seq![2u8] + rec))
    } else {
        exists|t: Rid| #[trigger] moved_to(a, b, r, t, rec)
    }
}

/// A stub reads as one, and leads where it was made to lead.
pub proof fn lemma_stub_for(t: Rid)
    ensures
        stub_for(t).len() == 7,
        stub_for(t)[0] == 1,
        rid_at(stub_for(t), 1) == t,
{
    assert(le32_bytes(t.page).len() == 4);
    assert(le16_bytes(t.slot).len() == 2);
    assert(stub_for(t).subrange(1, 7) =~= rid_bytes(t));
    law_rid_roundtrip(stub_for(t), 1, t);
}

/// A stored record appears, and no other changes.
pub proof fn law_insert_adds_the_record(a: Pages, b: Pages, r: Rid, rec: Seq<u8>)
    requires
        sound(a),
        cell(a, r) is None,
        cell_set(a, b, r, Some(seq![0u8] + rec)),
    ensures
        sound(b),
        records(b) == records(a).insert(r, rec),
{
    let d = seq![0u8] + rec;
    assert(d.skip(1) =~= rec);
    lemma_stubs_kept(a, b, r);
    assert forall|x: Rid| #[trigger] record(b, x) == if x == r {
        Some(rec)
    } else {
        record(a, x)
    } by {
        assert(cell(b, x) == if x == r {
            Some(d)
        } else {
            cell(a, x)
        });
        if is_stub(a, x) {
            assert(is_moved(a, target(a, x)));
        }
    }
    assert(records(b) =~= records(a).insert(r, rec));
}

/// Soundness survives where a free slot gets a record that is not a stub.
proof fn lemma_stubs_kept(a: Pages, b: Pages, r: Rid)
    requires
        sound(a),
        cell(a, r) is None,
        exists|rec: Seq<u8>| cell_set(a, b, r, Some(#[trigger] (seq![0u8] + rec))),
    ensures
        sound(b),
{
    assert forall|x: Rid| #[trigger] is_stub(b, x) implies is_stub(a, x) && target(b, x) == target(
        a,
        x,
    ) by {
        assert(x != r);
        assert(cell(b, x) == cell(a, x));
    }
    assert forall|x: Rid| #[trigger] is_stub(b, x) implies is_moved(b, target(b, x)) by {
        assert(is_stub(a, x));
        assert(is_moved(a, target(a, x)));
        assert(target(a, x) != r);
        assert(cell(b, target(a, x)) == cell(a, target(a, x)));
    }
    assert forall|x: Rid, y: Rid| #[trigger] share_target(b, x, y) implies x == y by {
        assert(is_stub(b, x) && is_stub(b, y));
        assert(share_target(a, x, y));
    }
}

/// A deleted record disappears, and no other changes.
pub proof fn law_delete_removes_the_record(a: Pages, b: Pages, r: Rid)
    requires
        sound(a),
        record(a, r) is Some,
        deleted(a, b, r),
    ensures
        sound(b),
        records(b) == records(a).remove(r),
{
    assert forall|x: Rid| #[trigger] is_stub(b, x) implies is_stub(a, x) && target(b, x) == target(
        a,
        x,
    ) && x != r && cell(b, target(a, x)) == cell(a, target(a, x)) by {
        assert(cell(b, x) == if goes_with(a, r, x) {
            None
        } else {
            cell(a, x)
        });
        assert(is_stub(a, x));
        assert(is_moved(a, target(a, x)));
        if goes_with(a, r, target(a, x)) {
            if target(a, x) != r {
                assert(share_target(a, x, r));
            }
        }
    }
    assert forall|x: Rid| #[trigger] is_stub(b, x) implies is_moved(b, target(b, x)) by {
        assert(is_moved(a, target(a, x)));
    }
    assert forall|x: Rid, y: Rid| #[trigger] share_target(b, x, y) implies x == y by {
        assert(is_stub(b, x) && is_stub(b, y));
        assert(share_target(a, x, y));
    }
    assert forall|x: Rid| #[trigger] record(b, x) == if x == r {
        None
    } else {
        record(a, x)
    } by {
        assert(cell(b, x) == if goes_with(a, r, x) {
            None
        } else {
            cell(a, x)
        });
        if x != r && goes_with(a, r, x) {
            assert(is_moved(a, x));
        } else if x != r && is_stub(a, x) {
            assert(is_stub(b, x));
        }
    }
    assert(records(b) =~= records(a).remove(r));
}

/// An updated record has its new value, and no other changes.
pub proof fn law_update_replaces_the_record(a: Pages, b: Pages, r: Rid, rec: Seq<u8>)
    requires
        sound(a),
        record(a, r) is Some,
        updated(a, b, r, rec),
    ensures
        sound(b),
        records(b) == records(a).insert(r, rec),
{
    let len = rec.len() as int + 1;
    assert((seq![0u8] + rec).skip(1) =~= rec);
    assert((seq![2u8] + rec).skip(1) =~= rec);
    if is_stub(a, r) {
        assert(is_moved(a, target(a, r)));
    }
    if tagged(a, r, 0) && can_hold(a, r, len) {
        lemma_rewritten(a, b, r, r, seq![0u8] + rec);
    } else if tagged(a, r, 1) && can_hold(a, target(a, r), len) {
        lemma_rewritten(a, b, r, target(a, r), seq![2u8] + rec);
    } else {
        let t = choose|t: Rid| #[trigger] moved_to(a, b, r, t, rec);
        lemma_moved(a, b, r, t, rec);
    }
    assert(records(b) =~= records(a).insert(r, rec));
}

/// The record at `r` is rewritten where it lies, at `at`.
proof fn lemma_rewritten(a: Pages, b: Pages, r: Rid, at: Rid, d: Seq<u8>)
    requires
        sound(a),
        cell_set(a, b, at, Some(d)),
        d.len() > 0,
        at == r && tagged(a, r, 0) && d[0] == 0 || is_stub(a, r) && at == target(a, r) && d[0] == 2,
    ensures
        sound(b),
        forall|x: Rid| #[trigger]
            record(b, x) == if x == r {
                Some(d.skip(1))
            } else {
                record(a, x)
            },
{
    if is_stub(a, r) {
        assert(is_moved(a, target(a, r)));
    }
    assert forall|x: Rid| #[trigger] is_stub(b, x) implies is_stub(a, x) && target(b, x) == target(
        a,
        x,
    ) by {
        assert(x != at);
        assert(cell(b, x) == cell(a, x));
    }
    assert forall|x: Rid| #[trigger] is_stub(b, x) implies is_moved(b, target(b, x)) by {
        assert(is_moved(a, target(a, x)));
        if target(a, x) != at {
            assert(cell(b, target(a, x)) == cell(a, target(a, x)));
        }
    }
    assert forall|x: Rid, y: Rid| #[trigger] share_target(b, x, y) implies x == y by {
        assert(is_stub(b, x) && is_stub(b, y));
        assert(share_target(a, x, y));
    }
    assert forall|x: Rid| #[trigger] record(b, x) == if x == r {
        Some(d.skip(1))
    } else {
        record(a, x)
    } by {
        assert(cell(b, x) == if x == at {
            Some(d)
        } else {
            cell(a, x)
        });
        if is_stub(a, x) {
            assert(is_moved(a, target(a, x)));
            if x != r && target(a, x) == at {
                assert(share_target(a, x, r));
            }
        }
    }
}

proof fn lemma_moved(a: Pages, b: Pages, r: Rid, t: Rid, rec: Seq<u8>)
    requires
        sound(a),
        record(a, r) is Some,
        moved_to(a, b, r, t, rec),
    ensures
        sound(b),
        forall|x: Rid| #[trigger]
            record(b, x) == if x == r {
                Some((seq![2u8] + rec).skip(1))
            } else {
                record(a, x)
            },
{
    lemma_stub_for(t);
    assert(cell(b, t) == Some(seq![2u8] + rec));
    assert(t != r);
    assert(cell(b, r) == Some(stub_for(t)));
    assert(is_stub(b, r) && target(b, r) == t);
    assert forall|x: Rid| #[trigger] is_stub(b, x) && x != r implies is_stub(a, x) && target(b, x)
        == target(a, x) && target(a, x) != t && cell(b, target(a, x)) == cell(a, target(a, x)) by {
        assert(cell(b, x) == cell(a, x));
        assert(is_stub(a, x));
        assert(is_moved(a, target(a, x)));
        assert(target(a, x) != r);
        if goes_with(a, r, target(a, x)) {
            assert(share_target(a, x, r));
        }
    }
    assert forall|x: Rid| #[trigger] is_stub(b, x) implies is_moved(b, target(b, x)) by {
        if x != r {
            assert(is_moved(a, target(a, x)));
        }
    }
    assert forall|x: Rid, y: Rid| #[trigger] share_target(b, x, y) implies x == y by {
        assert(is_stub(b, x) && is_stub(b, y));
        if x != r && y != r {
            assert(share_target(a, x, y));
        }
    }
    assert forall|x: Rid| #[trigger] record(b, x) == if x == r {
        Some((seq![2u8] + rec).skip(1))
    } else {
        record(a, x)
    } by {
        if x != r && x != t {
            assert(cell(b, x) == if goes_with(a, r, x) {
                None
            } else {
                cell(a, x)
            });
            if goes_with(a, r, x) {
                assert(is_moved(a, x));
            } else if is_stub(a, x) {
                assert(is_stub(b, x));
            }
        }
    }
}

/// Setting a slot to something that is no stub keeps the heap tidy.
proof fn lemma_tidy_set(a: Pages, b: Pages, n: PageId, m: PageId, r: Rid, v: Option<Seq<u8>>)
    requires
        tidy(a, n),
        cell_set(a, b, r, v),
        solid(b, m),
        heap_wf(b),
        v is Some ==> v->0.len() > 0 && v->0[0] != 1,
    ensures
        tidy(b, m),
{
    assert forall|x: Rid| #[trigger] is_stub(b, x) implies whole_stub(b, x) by {
        assert(x != r);
        assert(cell(b, x) == cell(a, x));
        assert(is_stub(a, x));
        assert(whole_stub(a, x));
        let p = target(a, x).page;
        if b.dom().contains(p) {
            if a.dom().contains(p) {
                assert(is_heap(a, p));
            }
        }
    }
}

impl HeapFile {
    /// The heap can be worked on.
    pub open spec fn ready<P: Pager>(&self, bp: &P) -> bool {
        &&& bp.pager_ok()
        &&& tidy(bp.pages(), bp.count())
        &&& self.fits(bp.pages())
    }

    /// Find the heap pages of a file and the space they have.
    pub fn open<P: Pager>(bp: &mut P) -> (r: Result<HeapFile, HeapError>)
        requires
            old(bp).pager_ok(),
            told(old(bp)),
            heap_wf(old(bp).pages()),
        ensures
            final(bp).pager_ok(),
            final(bp).pages() == old(bp).pages(),
            final(bp).count() == old(bp).count(),
            final(bp).reach() == old(bp).reach(),
            holds_out(old(bp), 0) && solid(old(bp).pages(), old(bp).count()) ==> r is Ok,
            told(final(bp)),
            forall|p: PageId| #[trigger] old(bp).lost(p) ==> final(bp).lost(p),
            match r {
                Ok(h) => {
                    &&& solid(old(bp).pages(), old(bp).count())
                    &&& h.fits(final(bp).pages())
                    &&& tracks(h.fsm@, final(bp).pages())
                    &&& h.fsm@.len() == old(bp).count()
                    &&& forall|p: PageId|
                        p < old(bp).count() ==> #[trigger] h.fsm@[p as int] == if is_heap(
                            old(bp).pages(),
                            p,
                        ) {
                            room(tuples_of(full(old(bp).pages()[p])))
                        } else {
                            0
                        }
                    &&& h.cursor == 0
                    &&& h.stats == no_stats()
                },
                Err(e) => {
                    &&& e is Buffer
                    &&& holds_out(old(bp), 0) ==> exists|p: PageId|
                        e == HeapError::Buffer(BufferError::Corrupt(p)) && #[trigger] first_lost(
                            old(bp),
                            p,
                        )
                },
            },
    {
        let n: PageId = bp.page_count();
        let mut fsm: Vec<u16> = Vec::new();
        let mut pid: PageId = 0;
        let ghost a = bp.pages();
        while pid < n
            invariant
                pid <= n == bp.count(),
                n == old(bp).count(),
                bp.pager_ok(),
                a == old(bp).pages(),
                bp.pages() == a,
                bp.reach() == old(bp).reach(),
                told(bp),
                forall|p: PageId| #[trigger] old(bp).lost(p) ==> bp.lost(p),
                told(old(bp)),
                forall|p: PageId| p < pid ==> #[trigger] a.dom().contains(p),
                heap_wf(a),
                fsm@.len() == pid,
                forall|p: PageId|
                    p < pid ==> #[trigger] fsm@[p as int] == if is_heap(a, p) {
                        room(tuples_of(full(a[p])))
                    } else {
                        0
                    },
            decreases n - pid,
        {
            let page: SlottedPage = match load(bp, pid) {
                Ok(p) => p,
                Err(e) => {
                    proof {
                        if holds_out(bp, 0) {
                            bp.lemma_pages();
                            assert(bp.lost(pid));
                            assert(old(bp).pages().dom().contains(pid) || old(bp).lost(pid));
                            assert(!old(bp).pages().dom().contains(pid));
                            assert(first_lost(old(bp), pid));
                        }
                    }
                    return Err(e);
                },
            };
            assert(a.dom().contains(pid));
            assert(full(a[pid])[14] == page@[14]);
            let mut free: u16 = 0;
            if let Some(PageType::Heap) = page.page_type() {
                proof {
                    assert(is_heap(a, pid));
                    lemma_same_past_checksum(full(a[pid]), page@);
                }
                free = page.compactable_free() as u16;
            }
            fsm.push(free);
            pid = pid + 1;
        }
        proof {
            bp.lemma_pages();
        }
        let h = HeapFile { fsm, cursor: 0, stats: HeapStats::default() };
        proof {
            assert forall|p: int|
                0 <= p < h.fsm@.len() && (#[trigger] h.fsm@[p]) > 0 implies p <= u32::MAX
                && is_heap(a, p as u32) by {
                let q = p as u32;
                assert(h.fsm@[q as int] == if is_heap(a, q) {
                    room(tuples_of(full(a[q])))
                } else {
                    0
                });
            }
        }
        proof {
            reveal(tracks);
            assert forall|p: PageId| #[trigger] is_heap(a, p) implies room_listed(h.fsm@, a, p) by {
                assert(p < n);
                assert(h.fsm@[p as int] == room(tuples_of(full(a[p]))));
            }
        }
        Ok(h)
    }

    pub fn stats(&self) -> (s: HeapStats)
        ensures
            s == self.stats,
    {
        self.stats
    }

    fn delete_slot<P: Pager>(&mut self, bp: &mut P, rid: Rid) -> (r: Result<bool, HeapError>)
        requires
            old(bp).pager_ok(),
            solid(old(bp).pages(), old(bp).count()),
            heap_wf(old(bp).pages()),
            old(self).fits(old(bp).pages()),
            old(bp).pages().dom().contains(rid.page) ==> is_heap(old(bp).pages(), rid.page),
        ensures
            !(r matches Err(HeapError::Buffer(_))) && tracks(old(self).fsm@, old(bp).pages())
                ==> tracks(final(self).fsm@, final(bp).pages()),
            final(bp).pager_ok(),
            final(bp).count() == old(bp).count(),
            final(bp).reach() == old(bp).reach(),
            solid(final(bp).pages(), final(bp).count()),
            heap_wf(final(bp).pages()),
            same_shape(old(bp).pages(), final(bp).pages()),
            final(self).fits(final(bp).pages()),
            final(self).stats == old(self).stats,
            match r {
                Ok(existed) => {
                    &&& is_heap(old(bp).pages(), rid.page)
                    &&& existed == cell(old(bp).pages(), rid) is Some
                    &&& cell_set(old(bp).pages(), final(bp).pages(), rid, None)
                    &&& pages_same_but(old(bp).pages(), final(bp).pages(), rid.page)
                },
                Err(e) => {
                    &&& e is Buffer
                    &&& !(holds_out(old(bp), 0) && is_heap(old(bp).pages(), rid.page))
                    &&& final(bp).pages() == old(bp).pages()
                },
            },
    {
        let ghost a = bp.pages();
        match erase(bp, rid) {
            Ok((existed, free)) => {
                proof {
                    lemma_fits_on(self, a, bp.pages());
                }
                self.set_fsm(rid.page, free, Ghost(bp.pages()));
                proof {
                    lemma_tracks(old(self).fsm@, self.fsm@, a, bp.pages(), rid.page);
                }
                Ok(existed)
            },
            Err(e) => Err(e),
        }
    }

    /// Replace what a live slot holds, unless its page is too full.
    fn set_bytes<P: Pager>(&mut self, bp: &mut P, rid: Rid, buf: &Vec<u8>) -> (r: Result<
        bool,
        HeapError,
    >)
        requires
            old(bp).pager_ok(),
            solid(old(bp).pages(), old(bp).count()),
            heap_wf(old(bp).pages()),
            old(self).fits(old(bp).pages()),
            cell(old(bp).pages(), rid) is Some,
            buf@.len() <= MAX_TUPLE_SIZE,
        ensures
            !(r matches Err(HeapError::Buffer(_))) && tracks(old(self).fsm@, old(bp).pages())
                ==> tracks(final(self).fsm@, final(bp).pages()),
            final(bp).pager_ok(),
            final(bp).count() == old(bp).count(),
            final(bp).reach() == old(bp).reach(),
            solid(final(bp).pages(), final(bp).count()),
            heap_wf(final(bp).pages()),
            same_shape(old(bp).pages(), final(bp).pages()),
            final(self).fits(final(bp).pages()),
            final(self).stats == old(self).stats,
            match r {
                Ok(fitted) => {
                    &&& fitted == can_hold(old(bp).pages(), rid, buf@.len() as int)
                    &&& cell_set(
                        old(bp).pages(),
                        final(bp).pages(),
                        rid,
                        if fitted {
                            Some(buf@)
                        } else {
                            cell(old(bp).pages(), rid)
                        },
                    )
                    &&& !fitted ==> forall|p: PageId| #[trigger]
                        is_heap(old(bp).pages(), p) ==> tuples_of(full(final(bp).pages()[p]))
                            == tuples_of(full(old(bp).pages()[p]))
                },
                Err(e) => e is Buffer && !holds_out(old(bp), 0) && final(bp).pages() == old(bp).pages(),
            },
    {
        let ghost a = bp.pages();
        match replace(bp, rid, buf) {
            Ok((fitted, free)) => {
                proof {
                    assert(is_heap(a, rid.page));
                    lemma_fits_on(self, a, bp.pages());
                }
                if fitted {
                    self.set_fsm(rid.page, free, Ghost(bp.pages()));
                    proof {
                        lemma_tracks(old(self).fsm@, self.fsm@, a, bp.pages(), rid.page);
                    }
                } else {
                    proof {
                        reveal(tracks);
                    }
                }
                Ok(fitted)
            },
            Err(e) => Err(e),
        }
    }

    fn set_slot<P: Pager>(&mut self, bp: &mut P, rid: Rid, tag: u8, record: &[u8]) -> (r: Result<
        bool,
        HeapError,
    >)
        requires
            old(bp).pager_ok(),
            solid(old(bp).pages(), old(bp).count()),
            heap_wf(old(bp).pages()),
            old(self).fits(old(bp).pages()),
            cell(old(bp).pages(), rid) is Some,
            record@.len() <= MAX_RECORD,
        ensures
            !(r matches Err(HeapError::Buffer(_))) && tracks(old(self).fsm@, old(bp).pages())
                ==> tracks(final(self).fsm@, final(bp).pages()),
            final(bp).pager_ok(),
            final(bp).count() == old(bp).count(),
            final(bp).reach() == old(bp).reach(),
            solid(final(bp).pages(), final(bp).count()),
            heap_wf(final(bp).pages()),
            same_shape(old(bp).pages(), final(bp).pages()),
            final(self).fits(final(bp).pages()),
            final(self).stats == old(self).stats,
            match r {
                Ok(fitted) => {
                    &&& fitted == can_hold(old(bp).pages(), rid, record@.len() as int + 1)
                    &&& cell_set(
                        old(bp).pages(),
                        final(bp).pages(),
                        rid,
                        if fitted {
                            Some(seq![tag] + record@)
                        } else {
                            cell(old(bp).pages(), rid)
                        },
                    )
                    &&& !fitted ==> forall|p: PageId| #[trigger]
                        is_heap(old(bp).pages(), p) ==> tuples_of(full(final(bp).pages()[p]))
                            == tuples_of(full(old(bp).pages()[p]))
                },
                Err(e) => e is Buffer && !holds_out(old(bp), 0) && final(bp).pages() == old(bp).pages(),
            },
    {
        let mut buf: Vec<u8> = Vec::with_capacity(TAG_BYTES + record.len());
        buf.push(tag);
        buf.extend_from_slice(record);
        assert(buf@ =~= seq![tag] + record@);
        self.set_bytes(bp, rid, &buf)
    }

    fn write_stub<P: Pager>(&mut self, bp: &mut P, at: Rid, to: Rid) -> (r: Result<bool, HeapError>)
        requires
            old(bp).pager_ok(),
            solid(old(bp).pages(), old(bp).count()),
            heap_wf(old(bp).pages()),
            old(self).fits(old(bp).pages()),
            cell(old(bp).pages(), at) is Some,
        ensures
            !(r matches Err(HeapError::Buffer(_))) && tracks(old(self).fsm@, old(bp).pages())
                ==> tracks(final(self).fsm@, final(bp).pages()),
            final(bp).pager_ok(),
            final(bp).count() == old(bp).count(),
            final(bp).reach() == old(bp).reach(),
            solid(final(bp).pages(), final(bp).count()),
            heap_wf(final(bp).pages()),
            same_shape(old(bp).pages(), final(bp).pages()),
            final(self).fits(final(bp).pages()),
            final(self).stats == old(self).stats,
            match r {
                Ok(fitted) => {
                    &&& fitted == can_hold(old(bp).pages(), at, 7)
                    &&& cell_set(
                        old(bp).pages(),
                        final(bp).pages(),
                        at,
                        if fitted {
                            Some(stub_for(to))
                        } else {
                            cell(old(bp).pages(), at)
                        },
                    )
                },
                Err(e) => e is Buffer && !holds_out(old(bp), 0) && final(bp).pages() == old(bp).pages(),
            },
    {
        let mut buf: Vec<u8> = Vec::with_capacity(TAG_BYTES + RID_BYTES);
        buf.push(TAG_FORWARD);
        to.encode_into(&mut buf);
        proof {
            lemma_stub_for(to);
            assert(buf@ =~= stub_for(to));
        }
        self.set_bytes(bp, at, &buf)
    }

    /// Store a record.
    pub fn insert<P: Pager>(&mut self, bp: &mut P, record: &[u8]) -> (r: Result<Rid, HeapError>)
        requires
            old(self).ready(old(bp)),
            old(bp).count() < u32::MAX,
        ensures
            !(r matches Err(HeapError::Buffer(_))) && tracks(old(self).fsm@, old(bp).pages())
                ==> tracks(final(self).fsm@, final(bp).pages()),
            final(bp).pager_ok(),
            final(bp).reach() == old(bp).reach(),
            match r {
                Ok(rid) => {
                    let a = old(bp).pages();
                    let b = final(bp).pages();
                    &&& record@.len() <= MAX_RECORD
                    &&& final(self).ready(final(bp))
                    &&& cell(a, rid) is None
                    &&& cell_set(a, b, rid, Some(seq![0u8] + record@))
                    &&& sound(a) ==> sound(b) && records(b) == records(a).insert(rid, record@)
                    &&& lands(
                        old(self).fsm@,
                        old(self).cursor as int,
                        final(self).fsm@,
                        a,
                        b,
                        old(bp).count(),
                        record@.len() as int + 1,
                        rid.page,
                    )
                    &&& final(bp).count() == if rid.page == old(bp).count() {
                        old(bp).count() + 1
                    } else {
                        old(bp).count() as int
                    }
                },
                Err(HeapError::RecordTooLarge) => {
                    &&& record@.len() > MAX_RECORD
                    &&& *final(self) == *old(self)
                    &&& *final(bp) == *old(bp)
                },
                Err(e) => {
                    &&& e is Buffer
                    &&& record@.len() <= MAX_RECORD
                    &&& !holds_out(old(bp), 1)
                    &&& heap_kept(old(bp).pages(), final(bp).pages())
                },
            },
            record@.len() <= MAX_RECORD ==> final(self).stats == (HeapStats {
                inserts: old(self).stats.inserts.wrapping_add(1),
                new_pages: final(self).stats.new_pages,
                ..old(self).stats
            }),
            r is Ok ==> final(self).stats.new_pages == if final(bp).count() == old(bp).count() {
                old(self).stats.new_pages
            } else {
                old(self).stats.new_pages.wrapping_add(1)
            },
    {
        if record.len() > MAX_RECORD {
            return Err(HeapError::RecordTooLarge);
        }
        self.stats.inserts = self.stats.inserts.wrapping_add(1);
        let ghost a = bp.pages();
        let ghost n = bp.count();
        match self.insert_tagged(bp, TAG_TUPLE, record) {
            Ok(rid) => {
                proof {
                    let d = seq![0u8] + record@;
                    assert(TAG_TUPLE == 0u8);
                    assert(cell_set(a, bp.pages(), rid, Some(d)));
                    lemma_tidy_set(a, bp.pages(), n, bp.count(), rid, Some(d));
                    if sound(a) {
                        law_insert_adds_the_record(a, bp.pages(), rid, record@);
                    }
                }
                Ok(rid)
            },
            Err(e) => Err(e),
        }
    }
}

/// A record other than those that go with `r` is as it was.
pub open spec fn others_kept(a: Pages, b: Pages, r: Rid) -> bool {
    forall|x: Rid|
        (#[trigger] cell(a, x)) is Some && !goes_with(a, r, x) ==> cell(b, x) == cell(a, x)
}

/// What a lookup in a heap with pages `a` may ask for: a heap page, or none at all.
pub open spec fn addressable(a: Pages, r: Rid) -> bool {
    a.dom().contains(r.page) ==> is_heap(a, r.page)
}

/// Whether a deletion or an update finds a record at `r`, or the tag that is none.
pub open spec fn found(a: Pages, r: Rid) -> Result<bool, HeapError> {
    match cell(a, r) {
        Some(d) => if d.len() == 0 || d[0] == 2 {
            Ok(false)
        } else if d[0] == 0 || d[0] == 1 {
            Ok(true)
        } else {
            Err(HeapError::BadTag(d[0]))
        },
        None => Ok(false),
    }
}

/// A stub at `r` leads to a live slot other than itself.
pub open spec fn leads_on(a: Pages, r: Rid) -> bool {
    is_stub(a, r) ==> target(a, r) != r && cell(a, target(a, r)) is Some
}

impl HeapFile {
    /// The record at `rid`, through its stub where it has one.
    pub fn get<P: Pager>(&mut self, bp: &mut P, rid: Rid) -> (r: Result<
        Option<Vec<u8>>,
        HeapError,
    >)
        requires
            old(self).ready(old(bp)),
            addressable(old(bp).pages(), rid),
        ensures
            final(self).ready(final(bp)),
            final(bp).pages() == old(bp).pages(),
            final(bp).count() == old(bp).count(),
            final(bp).reach() == old(bp).reach(),
            match r {
                Ok(v) => get_result(old(bp).pages(), rid) == Ok::<Option<Seq<u8>>, HeapError>(
                    match v {
                        Some(x) => Some(x@),
                        None => None,
                    },
                ),
                Err(HeapError::Buffer(_)) => !holds_out(old(bp), 0),
                Err(e) => get_result(old(bp).pages(), rid) == Err::<Option<Seq<u8>>, HeapError>(e),
            },
            final(self).fsm == old(self).fsm,
            final(self).cursor == old(self).cursor,
            final(self).stats == (HeapStats {
                gets: old(self).stats.gets.wrapping_add(1),
                forward_hops: final(self).stats.forward_hops,
                ..old(self).stats
            }),
            !(r matches Err(HeapError::Buffer(_))) ==> final(self).stats.forward_hops
                == if is_stub(old(bp).pages(), rid) {
                old(self).stats.forward_hops.wrapping_add(1)
            } else {
                old(self).stats.forward_hops
            },
    {
        self.stats.gets = self.stats.gets.wrapping_add(1);
        let ghost a = bp.pages();
        let (tag, payload): (u8, Vec<u8>) = match self.read_slot(bp, rid) {
            Ok(Some(x)) => x,
            Ok(None) => {
                return Ok(None);
            },
            Err(e) => {
                return Err(e);
            },
        };
        let ghost d = seq![tag] + payload@;
        assert(d.skip(1) =~= payload@);
        if tag == TAG_TUPLE {
            return Ok(Some(payload));
        }
        if tag == TAG_FORWARD_TARGET {
            return Ok(None);
        }
        if tag != TAG_FORWARD {
            return Err(HeapError::BadTag(tag));
        }
        self.stats.forward_hops = self.stats.forward_hops.wrapping_add(1);
        proof {
            assert(is_stub(a, rid));
            assert(whole_stub(a, rid));
            lemma_rid_past_tag(tag, payload@);
        }
        let to: Rid = Rid::decode(payload.as_slice(), 0);
        assert(to == target(a, rid));
        match self.read_slot(bp, to) {
            Ok(Some((t, p))) => {
                if t == TAG_FORWARD_TARGET || t == TAG_TUPLE {
                    assert((seq![t] + p@).skip(1) =~= p@);
                    Ok(Some(p))
                } else {
                    Err(HeapError::DanglingForward(to))
                }
            },
            Ok(None) => Err(HeapError::DanglingForward(to)),
            Err(e) => Err(e),
        }
    }

    /// Delete the record at `rid`; tells whether there was one.
    pub fn delete<P: Pager>(&mut self, bp: &mut P, rid: Rid) -> (r: Result<bool, HeapError>)
        requires
            old(self).ready(old(bp)),
            addressable(old(bp).pages(), rid),
        ensures
            !(r matches Err(HeapError::Buffer(_))) && tracks(old(self).fsm@, old(bp).pages())
                ==> tracks(final(self).fsm@, final(bp).pages()),
            final(bp).pager_ok(),
            final(bp).count() == old(bp).count(),
            final(bp).reach() == old(bp).reach(),
            final(self).stats == (HeapStats {
                deletes: old(self).stats.deletes.wrapping_add(1),
                ..old(self).stats
            }),
            ({
                let a = old(bp).pages();
                let b = final(bp).pages();
                match r {
                    Err(HeapError::Buffer(_)) => {
                        &&& others_kept(a, b, rid)
                        &&& !(holds_out(old(bp), 0) && (is_stub(a, rid) ==> is_heap(
                            a,
                            target(a, rid).page,
                        )))
                    },
                    _ => {
                        &&& r == found(a, rid)
                        &&& final(self).ready(final(bp))
                        &&& r == Ok::<bool, HeapError>(true) ==> deleted(a, b, rid)
                        &&& r != Ok::<bool, HeapError>(true) ==> b == a
                        &&& r == Ok::<bool, HeapError>(true) && sound(a) ==> sound(b) && records(b)
                            == records(a).remove(rid)
                    },
                }
            }),
    {
        self.stats.deletes = self.stats.deletes.wrapping_add(1);
        let ghost a = bp.pages();
        let ghost n = bp.count();
        let (tag, payload): (u8, Vec<u8>) = match self.read_slot(bp, rid) {
            Ok(Some(x)) => x,
            Ok(None) => {
                return Ok(false);
            },
            Err(e) => {
                return Err(e);
            },
        };
        let ghost d = seq![tag] + payload@;
        if tag == TAG_FORWARD_TARGET {
            return Ok(false);
        }
        if tag != TAG_TUPLE && tag != TAG_FORWARD {
            return Err(HeapError::BadTag(tag));
        }
        if tag == TAG_FORWARD {
            proof {
                assert(is_stub(a, rid));
                assert(whole_stub(a, rid));
                lemma_rid_past_tag(tag, payload@);
            }
            let to: Rid = Rid::decode(payload.as_slice(), 0);
            match self.delete_slot(bp, to) {
                Ok(_) => {},
                Err(e) => {
                    return Err(e);
                },
            }
        }
        let ghost m = bp.pages();
        match self.delete_slot(bp, rid) {
            Ok(_) => {},
            Err(e) => {
                return Err(e);
            },
        }
        proof {
            let b = bp.pages();
            assert forall|x: Rid| #[trigger] cell(b, x) == if goes_with(a, rid, x) {
                None
            } else {
                cell(a, x)
            } by {
                assert(cell(m, x) == if tag == 1 && x == target(a, rid) {
                    None
                } else {
                    cell(a, x)
                });
            }
            assert(frame(a, b)) by {
                assert forall|p: PageId| #[trigger] a.dom().contains(p) implies b.dom().contains(p)
                    && (is_heap(a, p) == is_heap(b, p)) && (!is_heap(a, p) ==> b[p] == a[p]) by {
                    assert(m.dom().contains(p));
                    assert(is_heap(m, p) == is_heap(a, p));
                }
            }
            assert forall|x: Rid| #[trigger] is_stub(b, x) implies whole_stub(b, x) by {
                assert(cell(b, x) == cell(a, x));
                assert(is_stub(a, x));
                assert(whole_stub(a, x));
            }
            if sound(a) {
                law_delete_removes_the_record(a, b, rid);
            }
        }
        Ok(true)
    }
}

/// What an update of the record at `r` by `len` bytes returns, where no page fails.
pub open spec fn update_result(a: Pages, r: Rid, len: int) -> Result<bool, HeapError> {
    if len > MAX_RECORD {
        Err(HeapError::RecordTooLarge)
    } else if tagged(a, r, 0) && !can_hold(a, r, len + 1) && !can_hold(a, r, 7) {
        Err(HeapError::ForwardWontFit(r))
    } else {
        found(a, r)
    }
}

proof fn lemma_frame_trans(a: Pages, m: Pages, b: Pages)
    requires
        frame(a, m),
        frame(m, b),
    ensures
        frame(a, b),
{
    assert forall|p: PageId| #[trigger] a.dom().contains(p) implies b.dom().contains(p) && (is_heap(
        a,
        p,
    ) == is_heap(b, p)) && (!is_heap(a, p) ==> b[p] == a[p]) by {
        assert(m.dom().contains(p));
    }
}

/// A page that was rewritten with the same slots keeps the heap tidy.
proof fn lemma_untouched(a: Pages, m: Pages, n: PageId, r: Rid)
    requires
        tidy(a, n),
        cell_set(a, m, r, cell(a, r)),
        solid(m, n),
        heap_wf(m),
        same_shape(a, m),
    ensures
        tidy(m, n),
        frame(a, m),
        forall|x: Rid| #[trigger] cell(m, x) == cell(a, x),
{
    assert forall|x: Rid| #[trigger] cell(m, x) == cell(a, x) by {}
    assert forall|x: Rid| #[trigger] is_stub(m, x) implies whole_stub(m, x) by {
        assert(cell(m, x) == cell(a, x));
        assert(is_stub(a, x));
        assert(whole_stub(a, x));
    }
}

/// Only stubs of `a`, and one that leads to a heap page, keep the heap tidy.
proof fn lemma_tidy_on(a: Pages, b: Pages, n: PageId, m: PageId, r: Rid)
    requires
        tidy(a, n),
        solid(b, m),
        heap_wf(b),
        frame(a, b),
        forall|p: PageId| #[trigger] b.dom().contains(p) && !a.dom().contains(p) ==> is_heap(b, p),
        forall|x: Rid| #[trigger]
            is_stub(b, x) && x != r ==> is_stub(a, x) && cell(b, x) == cell(a, x),
        is_stub(b, r) ==> whole_stub(b, r),
    ensures
        tidy(b, m),
{
    assert forall|x: Rid| #[trigger] is_stub(b, x) implies whole_stub(b, x) by {
        if x != r {
            assert(is_stub(a, x));
            assert(whole_stub(a, x));
            let p = target(a, x).page;
            if b.dom().contains(p) && a.dom().contains(p) {
                assert(is_heap(a, p));
            }
        }
    }
}

impl HeapFile {
    /// Store the record of `rid` elsewhere and leave a stub.
    fn move_out<P: Pager>(&mut self, bp: &mut P, rid: Rid, record: &[u8]) -> (r: Result<
        bool,
        HeapError,
    >)
        requires
            old(self).ready(old(bp)),
            old(bp).count() < u32::MAX,
            record@.len() <= MAX_RECORD,
            tagged(old(bp).pages(), rid, 0),
            !can_hold(old(bp).pages(), rid, record@.len() as int + 1),
        ensures
            !(r matches Err(HeapError::Buffer(_))) && tracks(old(self).fsm@, old(bp).pages())
                ==> tracks(final(self).fsm@, final(bp).pages()),
            final(bp).pager_ok(),
            final(bp).reach() == old(bp).reach(),
            old(bp).count() <= final(bp).count() <= old(bp).count() + 1,
            final(self).stats == (HeapStats {
                new_pages: final(self).stats.new_pages,
                forwards_created: if r is Ok {
                    old(self).stats.forwards_created.wrapping_add(1)
                } else {
                    old(self).stats.forwards_created
                },
                ..old(self).stats
            }),
            ({
                let a = old(bp).pages();
                let b = final(bp).pages();
                match r {
                    Ok(done) => {
                        &&& done
                        &&& can_hold(a, rid, 7)
                        &&& final(self).ready(final(bp))
                        &&& exists|t: Rid| #[trigger] moved_to(a, b, rid, t, record@)
                    },
                    Err(HeapError::Buffer(_)) => {
                        &&& !holds_out(old(bp), 1)
                        &&& others_kept(a, b, rid)
                    },
                    Err(e) => {
                        &&& e == HeapError::ForwardWontFit(rid)
                        &&& !can_hold(a, rid, 7)
                        &&& final(self).ready(final(bp))
                        &&& frame(a, b)
                        &&& forall|x: Rid| #[trigger] cell(b, x) == cell(a, x)
                    },
                }
            }),
            !(r matches Err(HeapError::Buffer(_))) ==> final(self).stats.new_pages == if final(bp).count() == old(bp).count() {
                old(self).stats.new_pages
            } else {
                old(self).stats.new_pages.wrapping_add(1)
            },
    {
        let ghost a = bp.pages();
        let ghost n = bp.count();
        assert(is_heap(a, rid.page));
        let to: Rid = match self.insert_tagged(bp, TAG_FORWARD_TARGET, record) {
            Ok(t) => t,
            Err(e) => {
                return Err(e);
            },
        };
        let ghost m = bp.pages();
        let ghost d = seq![2u8] + record@;
        proof {
            assert(TAG_FORWARD_TARGET == 2u8);
            assert(cell_set(a, m, to, Some(d)));
            assert(to != rid);
            assert(cell(m, rid) == cell(a, rid));
            let ts = tuples_of(full(a[rid.page]));
            if to.page == rid.page {
                lemma_first_dead(ts);
                assert(insert_result(ts, record@.len() as int + 1) is Ok);
                assert(room(ts) >= record@.len() + 1);
                assert(false);
            }
            assert(tuples_of(full(m[rid.page])) == ts);
            lemma_tidy_set(a, m, n, bp.count(), to, Some(d));
        }
        match self.write_stub(bp, rid, to) {
            Ok(true) => {
                self.stats.forwards_created = self.stats.forwards_created.wrapping_add(1);
                proof {
                    let b = bp.pages();
                    lemma_stub_for(to);
                    lemma_frame_trans(a, m, b);
                    assert forall|x: Rid| #[trigger] cell(b, x) == if x == to {
                        Some(d)
                    } else if x == rid {
                        Some(stub_for(to))
                    } else if goes_with(a, rid, x) {
                        None
                    } else {
                        cell(a, x)
                    } by {
                        assert(cell(m, x) == if x == to {
                            Some(d)
                        } else {
                            cell(a, x)
                        });
                    }
                    assert(moved_to(a, b, rid, to, record@));
                    assert forall|x: Rid| #[trigger] is_stub(b, x) && x != rid implies is_stub(a, x)
                        && cell(b, x) == cell(a, x) by {
                        assert(x != to);
                    }
                    assert(is_heap(b, to.page));
                    assert forall|p: PageId| #[trigger]
                        b.dom().contains(p) && !a.dom().contains(p) implies is_heap(b, p) by {
                        assert(m.dom().contains(p));
                        assert(p == to.page);
                    }
                    lemma_tidy_on(a, b, n, bp.count(), rid);
                }
                Ok(true)
            },
            Ok(false) => {
                let ghost b0 = bp.pages();
                proof {
                    assert forall|x: Rid| #[trigger] cell(b0, x) == cell(m, x) by {}
                    assert(cell(b0, to) == Some(d));
                }
                match self.delete_slot(bp, to) {
                    Ok(_) => {},
                    Err(e) => {
                        return Err(e);
                    },
                }
                proof {
                    let b = bp.pages();
                    lemma_frame_trans(a, m, b0);
                    lemma_frame_trans(a, b0, b);
                    assert forall|x: Rid| #[trigger] cell(b, x) == cell(a, x) by {
                        assert(cell(b0, x) == cell(m, x));
                    }
                    assert forall|p: PageId| #[trigger]
                        b.dom().contains(p) && !a.dom().contains(p) implies is_heap(b, p) by {
                        assert(b0.dom().contains(p));
                        assert(m.dom().contains(p));
                        assert(p == to.page);
                        assert(is_heap(b0, p));
                    }
                    assert forall|x: Rid| #[trigger] is_stub(b, x) implies is_stub(a, x) && cell(
                        b,
                        x,
                    ) == cell(a, x) by {}
                    assert(!is_stub(b, rid));
                    lemma_tidy_on(a, b, n, bp.count(), rid);
                }
                Err(HeapError::ForwardWontFit(rid))
            },
            Err(e) => Err(e),
        }
    }

    /// Move a record that was moved before, and lead its stub there.
    fn move_again<P: Pager>(&mut self, bp: &mut P, rid: Rid, record: &[u8], to: Rid) -> (r: Result<
        bool,
        HeapError,
    >)
        requires
            old(self).ready(old(bp)),
            old(bp).count() < u32::MAX,
            record@.len() <= MAX_RECORD,
            is_stub(old(bp).pages(), rid),
            leads_on(old(bp).pages(), rid),
            to == target(old(bp).pages(), rid),
        ensures
            !(r matches Err(HeapError::Buffer(_))) && tracks(old(self).fsm@, old(bp).pages())
                ==> tracks(final(self).fsm@, final(bp).pages()),
            final(bp).pager_ok(),
            final(bp).reach() == old(bp).reach(),
            old(bp).count() <= final(bp).count() <= old(bp).count() + 1,
            final(self).stats.same_but_pages(&old(self).stats),
            ({
                let a = old(bp).pages();
                let b = final(bp).pages();
                match r {
                    Ok(done) => {
                        &&& done
                        &&& final(self).ready(final(bp))
                        &&& exists|t: Rid| #[trigger] moved_to(a, b, rid, t, record@)
                        &&& final(self).stats.new_pages == if final(bp).count() == old(bp).count() {
                            old(self).stats.new_pages
                        } else {
                            old(self).stats.new_pages.wrapping_add(1)
                        }
                    },
                    Err(e) => {
                        &&& e is Buffer
                        &&& !holds_out(old(bp), 1)
                        &&& others_kept(a, b, rid)
                    },
                }
            }),
    {
        let ghost a = bp.pages();
        let ghost n = bp.count();
        let fresh: Rid = match self.insert_tagged(bp, TAG_FORWARD_TARGET, record) {
            Ok(t) => t,
            Err(e) => {
                return Err(e);
            },
        };
        let ghost m = bp.pages();
        let ghost d = seq![2u8] + record@;
        proof {
            assert(TAG_FORWARD_TARGET == 2u8);
            assert(cell_set(a, m, fresh, Some(d)));
            assert(cell(m, to) == cell(a, to));
            assert(is_heap(m, to.page));
        }
        match self.delete_slot(bp, to) {
            Ok(_) => {},
            Err(e) => {
                return Err(e);
            },
        }
        let ghost k = bp.pages();
        proof {
            assert(cell(m, rid) == cell(a, rid));
            assert(cell(k, rid) == cell(a, rid));
            assert(whole_stub(a, rid));
            assert(can_hold(k, rid, 7));
        }
        match self.write_stub(bp, rid, fresh) {
            Ok(ok) => {
                proof {
                    let b = bp.pages();
                    lemma_stub_for(fresh);
                    lemma_frame_trans(a, m, k);
                    lemma_frame_trans(a, k, b);
                    assert forall|x: Rid| #[trigger] cell(b, x) == if x == fresh {
                        Some(d)
                    } else if x == rid {
                        Some(stub_for(fresh))
                    } else if goes_with(a, rid, x) {
                        None
                    } else {
                        cell(a, x)
                    } by {
                        assert(cell(m, x) == if x == fresh {
                            Some(d)
                        } else {
                            cell(a, x)
                        });
                        assert(cell(k, x) == if x == to {
                            None
                        } else {
                            cell(m, x)
                        });
                    }
                    assert(moved_to(a, b, rid, fresh, record@));
                    assert forall|x: Rid| #[trigger] is_stub(b, x) && x != rid implies is_stub(a, x)
                        && cell(b, x) == cell(a, x) by {
                        assert(x != fresh);
                    }
                    assert(is_heap(k, fresh.page));
                    assert forall|p: PageId| #[trigger]
                        b.dom().contains(p) && !a.dom().contains(p) implies is_heap(b, p) by {
                        assert(k.dom().contains(p));
                        assert(m.dom().contains(p));
                        assert(p == fresh.page);
                    }
                    lemma_tidy_on(a, b, n, bp.count(), rid);
                }
                Ok(ok)
            },
            Err(e) => Err(e),
        }
    }

    /// Replace a record that lies at its address.
    fn update_tuple<P: Pager>(&mut self, bp: &mut P, rid: Rid, record: &[u8]) -> (r: Result<
        bool,
        HeapError,
    >)
        requires
            old(self).ready(old(bp)),
            old(bp).count() < u32::MAX,
            record@.len() <= MAX_RECORD,
            tagged(old(bp).pages(), rid, 0),
        ensures
            !(r matches Err(HeapError::Buffer(_))) && tracks(old(self).fsm@, old(bp).pages())
                ==> tracks(final(self).fsm@, final(bp).pages()),
            final(bp).pager_ok(),
            final(bp).reach() == old(bp).reach(),
            old(bp).count() <= final(bp).count() <= old(bp).count() + 1,
            ({
                let a = old(bp).pages();
                let b = final(bp).pages();
                match r {
                    Err(HeapError::Buffer(_)) => !holds_out(old(bp), 1) && others_kept(a, b, rid),
                    _ => {
                        &&& r == update_result(a, rid, record@.len() as int)
                        &&& final(self).ready(final(bp))
                        &&& r is Ok ==> updated(a, b, rid, record@)
                        &&& r is Ok && sound(a) ==> sound(b) && records(b) == records(a).insert(
                            rid,
                            record@,
                        )
                        &&& r is Err ==> frame(a, b) && forall|x: Rid| #[trigger]
                            cell(b, x) == cell(a, x)
                    },
                }
            }),
            final(self).stats == (HeapStats {
                new_pages: final(self).stats.new_pages,
                forwards_created: if r is Ok && !can_hold(
                    old(bp).pages(),
                    rid,
                    record@.len() as int + 1,
                ) {
                    old(self).stats.forwards_created.wrapping_add(1)
                } else {
                    old(self).stats.forwards_created
                },
                ..old(self).stats
            }),
            !(r matches Err(HeapError::Buffer(_))) ==> final(self).stats.new_pages == if final(bp).count() == old(bp).count() {
                old(self).stats.new_pages
            } else {
                old(self).stats.new_pages.wrapping_add(1)
            },
    {
        let ghost a = bp.pages();
        let ghost n = bp.count();
        match self.set_slot(bp, rid, TAG_TUPLE, record) {
            Ok(true) => {
                proof {
                    let d = seq![0u8] + record@;
                    assert(TAG_TUPLE == 0u8);
                    assert(cell_set(a, bp.pages(), rid, Some(d)));
                    lemma_tidy_set(a, bp.pages(), n, n, rid, Some(d));
                    assert(updated(a, bp.pages(), rid, record@));
                    if sound(a) {
                        law_update_replaces_the_record(a, bp.pages(), rid, record@);
                    }
                }
                return Ok(true);
            },
            Ok(false) => {},
            Err(e) => {
                return Err(e);
            },
        }
        let ghost m = bp.pages();
        proof {
            lemma_untouched(a, m, n, rid);
        }
        let r: Result<bool, HeapError> = self.move_out(bp, rid, record);
        proof {
            let b = bp.pages();
            if r is Ok {
                let t = choose|t: Rid| #[trigger] moved_to(m, b, rid, t, record@);
                lemma_frame_trans(a, m, b);
                assert(moved_to(a, b, rid, t, record@)) by {
                    assert(cell(m, t) == cell(a, t));
                    assert forall|x: Rid| #[trigger] cell(b, x) == if x == t {
                        Some(seq![2u8] + record@)
                    } else if x == rid {
                        Some(stub_for(t))
                    } else if goes_with(a, rid, x) {
                        None
                    } else {
                        cell(a, x)
                    } by {
                        assert(cell(m, x) == cell(a, x));
                        assert(cell(m, rid) == cell(a, rid));
                    }
                }
                assert(updated(a, b, rid, record@));
                if sound(a) {
                    law_update_replaces_the_record(a, b, rid, record@);
                }
            } else {
                assert(cell(m, rid) == cell(a, rid));
                if r matches Err(HeapError::Buffer(_)) {
                    assert forall|x: Rid| (#[trigger] cell(a, x)) is Some && !goes_with(a, rid, x)
                        implies cell(b, x) == cell(a, x) by {
                        assert(cell(m, x) == cell(a, x));
                    }
                } else {
                    lemma_frame_trans(a, m, b);
                    assert forall|x: Rid| #[trigger] cell(b, x) == cell(a, x) by {
                        assert(cell(m, x) == cell(a, x));
                    }
                }
            }
        }
        r
    }

    /// Replace a record that lies at `to`, where the stub at `rid` leads.
    fn update_moved<P: Pager>(&mut self, bp: &mut P, rid: Rid, record: &[u8], to: Rid) -> (r: Result<
        bool,
        HeapError,
    >)
        requires
            old(self).ready(old(bp)),
            old(bp).count() < u32::MAX,
            record@.len() <= MAX_RECORD,
            is_stub(old(bp).pages(), rid),
            leads_on(old(bp).pages(), rid),
            to == target(old(bp).pages(), rid),
        ensures
            !(r matches Err(HeapError::Buffer(_))) && tracks(old(self).fsm@, old(bp).pages())
                ==> tracks(final(self).fsm@, final(bp).pages()),
            final(bp).pager_ok(),
            final(bp).reach() == old(bp).reach(),
            old(bp).count() <= final(bp).count() <= old(bp).count() + 1,
            ({
                let a = old(bp).pages();
                let b = final(bp).pages();
                match r {
                    Ok(done) => {
                        &&& done
                        &&& final(self).ready(final(bp))
                        &&& updated(a, b, rid, record@)
                        &&& sound(a) ==> sound(b) && records(b) == records(a).insert(rid, record@)
                    },
                    Err(e) => e is Buffer && !holds_out(old(bp), 1) && others_kept(a, b, rid),
                }
            }),
            final(self).stats.same_but_pages(&old(self).stats),
            r is Ok ==> final(self).stats.new_pages == if final(bp).count() == old(bp).count() {
                old(self).stats.new_pages
            } else {
                old(self).stats.new_pages.wrapping_add(1)
            },
    {
        let ghost a = bp.pages();
        let ghost n = bp.count();
        match self.set_slot(bp, to, TAG_FORWARD_TARGET, record) {
            Ok(true) => {
                proof {
                    let d = seq![2u8] + record@;
                    assert(TAG_FORWARD_TARGET == 2u8);
                    assert(cell_set(a, bp.pages(), to, Some(d)));
                    lemma_tidy_set(a, bp.pages(), n, n, to, Some(d));
                    assert(updated(a, bp.pages(), rid, record@));
                    if sound(a) {
                        law_update_replaces_the_record(a, bp.pages(), rid, record@);
                    }
                }
                return Ok(true);
            },
            Ok(false) => {},
            Err(e) => {
                return Err(e);
            },
        }
        let ghost m = bp.pages();
        proof {
            lemma_untouched(a, m, n, to);
            assert(cell(m, rid) == cell(a, rid));
            assert(cell(m, to) == cell(a, to));
        }
        let r: Result<bool, HeapError> = self.move_again(bp, rid, record, to);
        proof {
            let b = bp.pages();
            if r is Ok {
                let t = choose|t: Rid| #[trigger] moved_to(m, b, rid, t, record@);
                lemma_frame_trans(a, m, b);
                assert(moved_to(a, b, rid, t, record@)) by {
                    assert(cell(m, t) == cell(a, t));
                    assert forall|x: Rid| #[trigger] cell(b, x) == if x == t {
                        Some(seq![2u8] + record@)
                    } else if x == rid {
                        Some(stub_for(t))
                    } else if goes_with(a, rid, x) {
                        None
                    } else {
                        cell(a, x)
                    } by {
                        assert(cell(m, x) == cell(a, x));
                    }
                }
                assert(updated(a, b, rid, record@));
                if sound(a) {
                    law_update_replaces_the_record(a, b, rid, record@);
                }
            } else {
                assert forall|x: Rid| (#[trigger] cell(a, x)) is Some && !goes_with(a, rid, x)
                    implies cell(b, x) == cell(a, x) by {
                    assert(cell(m, x) == cell(a, x));
                }
            }
        }
        r
    }

    /// Replace the record at `rid`, which keeps its address; tells whether there was
    /// one.
    pub fn update<P: Pager>(&mut self, bp: &mut P, rid: Rid, record: &[u8]) -> (r: Result<
        bool,
        HeapError,
    >)
        requires
            old(self).ready(old(bp)),
            old(bp).count() < u32::MAX,
            addressable(old(bp).pages(), rid),
            leads_on(old(bp).pages(), rid),
        ensures
            !(r matches Err(HeapError::Buffer(_))) && tracks(old(self).fsm@, old(bp).pages())
                ==> tracks(final(self).fsm@, final(bp).pages()),
            final(bp).pager_ok(),
            final(bp).reach() == old(bp).reach(),
            final(bp).count() <= old(bp).count() + 1,
            ({
                let a = old(bp).pages();
                let b = final(bp).pages();
                match r {
                    Err(HeapError::Buffer(_)) => {
                        &&& record@.len() <= MAX_RECORD
                        &&& !holds_out(old(bp), 1)
                        &&& others_kept(a, b, rid)
                    },
                    _ => {
                        &&& r == update_result(a, rid, record@.len() as int)
                        &&& final(self).ready(final(bp))
                        &&& match r {
                            Ok(true) => {
                                &&& updated(a, b, rid, record@)
                                &&& sound(a) ==> sound(b) && records(b) == records(a).insert(
                                    rid,
                                    record@,
                                )
                            },
                            Err(HeapError::ForwardWontFit(_)) => {
                                &&& frame(a, b)
                                &&& forall|x: Rid| #[trigger] cell(b, x) == cell(a, x)
                            },
                            _ => b == a,
                        }
                    },
                }
            }),
            record@.len() > MAX_RECORD ==> *final(self) == *old(self),
            record@.len() <= MAX_RECORD ==> final(self).stats == (HeapStats {
                updates: old(self).stats.updates.wrapping_add(1),
                new_pages: final(self).stats.new_pages,
                forwards_created: if r == Ok::<bool, HeapError>(true) && tagged(
                    old(bp).pages(),
                    rid,
                    0,
                ) && !can_hold(old(bp).pages(), rid, record@.len() as int + 1) {
                    old(self).stats.forwards_created.wrapping_add(1)
                } else {
                    old(self).stats.forwards_created
                },
                ..old(self).stats
            }),
            !(r matches Err(HeapError::Buffer(_))) ==> final(self).stats.new_pages == if final(bp).count() == old(bp).count() {
                old(self).stats.new_pages
            } else {
                old(self).stats.new_pages.wrapping_add(1)
            },
    {
        if record.len() > MAX_RECORD {
            return Err(HeapError::RecordTooLarge);
        }
        self.stats.updates = self.stats.updates.wrapping_add(1);
        let ghost a = bp.pages();
        let ghost n = bp.count();
        let (tag, payload): (u8, Vec<u8>) = match self.read_slot(bp, rid) {
            Ok(Some(x)) => x,
            Ok(None) => {
                return Ok(false);
            },
            Err(e) => {
                return Err(e);
            },
        };
        let ghost d = seq![tag] + payload@;
        if tag == TAG_FORWARD_TARGET {
            return Ok(false);
        }
        if tag == TAG_TUPLE {
            return self.update_tuple(bp, rid, record);
        }
        if tag != TAG_FORWARD {
            return Err(HeapError::BadTag(tag));
        }
        proof {
            assert(is_stub(a, rid));
            assert(whole_stub(a, rid));
            lemma_rid_past_tag(tag, payload@);
        }
        let to: Rid = Rid::decode(payload.as_slice(), 0);
        self.update_moved(bp, rid, record, to)
    }
}

/// Addresses by page, then slot.
pub open spec fn rid_lt(a: Rid, b: Rid) -> bool {
    a.page < b.page || a.page == b.page && a.slot < b.slot
}

/// The records of the slots before `upto`, in order.
pub open spec fn listed(pages: Pages, upto: Rid, v: Seq<(Rid, Vec<u8>)>) -> bool {
    &&& forall|i: int|
        0 <= i < v.len() ==> rid_lt((#[trigger] v[i]).0, upto) && get_result(pages, v[i].0) == Ok::<
            Option<Seq<u8>>,
            HeapError,
        >(Some(v[i].1@))
    &&& forall|i: int, j: int| 0 <= i < j < v.len() ==> rid_lt((#[trigger] v[i]).0, (#[trigger] v[j]).0)
    &&& forall|r: Rid|
        rid_lt(r, upto) && (#[trigger] get_result(pages, r)) != Ok::<Option<Seq<u8>>, HeapError>(None)
            ==> exists|i: int| 0 <= i < v.len() && (#[trigger] v[i]).0 == r
}

/// All records, by address.
pub open spec fn scanned(pages: Pages, v: Seq<(Rid, Vec<u8>)>) -> bool {
    &&& forall|i: int|
        0 <= i < v.len() ==> get_result(pages, (#[trigger] v[i]).0) == Ok::<
            Option<Seq<u8>>,
            HeapError,
        >(Some(v[i].1@))
    &&& forall|i: int, j: int| 0 <= i < j < v.len() ==> rid_lt((#[trigger] v[i]).0, (#[trigger] v[j]).0)
    &&& forall|r: Rid|
        (#[trigger] get_result(pages, r)) != Ok::<Option<Seq<u8>>, HeapError>(None) ==> exists|
            i: int,
        |
            0 <= i < v.len() && (#[trigger] v[i]).0 == r
}

/// The first address at which a lookup fails fails with `e`.
pub open spec fn first_fault(pages: Pages, r: Rid, e: HeapError) -> bool {
    &&& get_result(pages, r) == Err::<Option<Seq<u8>>, HeapError>(e)
    &&& forall|x: Rid| rid_lt(x, r) ==> (#[trigger] get_result(pages, x)) is Ok
}

/// A scan of a sound heap returns exactly the records.
pub proof fn law_scan_returns_the_records(pages: Pages, v: Seq<(Rid, Vec<u8>)>)
    requires
        sound(pages),
        scanned(pages, v),
    ensures
        forall|i: int|
            0 <= i < v.len() ==> records(pages).dom().contains((#[trigger] v[i]).0) && records(
                pages,
            )[v[i].0] == v[i].1@,
        forall|r: Rid| #[trigger]
            records(pages).dom().contains(r) ==> exists|i: int|
                0 <= i < v.len() && (#[trigger] v[i]).0 == r,
        forall|i: int, j: int| 0 <= i < j < v.len() ==> (#[trigger] v[i]).0 != (#[trigger] v[j]).0,
{
    assert forall|i: int| 0 <= i < v.len() implies records(pages).dom().contains(
        (#[trigger] v[i]).0,
    ) && records(pages)[v[i].0] == v[i].1@ by {
        law_get_returns_the_record(pages, v[i].0);
    }
    assert forall|r: Rid| #[trigger] records(pages).dom().contains(r) implies exists|i: int|
        0 <= i < v.len() && (#[trigger] v[i]).0 == r by {
        law_get_returns_the_record(pages, r);
    }
}

/// Two lists of the same slots.
proof fn lemma_listed_on(pages: Pages, from: Rid, to: Rid, v: Seq<(Rid, Vec<u8>)>)
    requires
        listed(pages, from, v),
        forall|r: Rid| rid_lt(r, from) ==> rid_lt(r, to),
        forall|r: Rid|
            rid_lt(r, to) && !rid_lt(r, from) ==> (#[trigger] get_result(pages, r)) == Ok::<
                Option<Seq<u8>>,
                HeapError,
            >(None),
    ensures
        listed(pages, to, v),
{
}

/// How many of the first `n` slots of a page hold stubs.
pub open spec fn page_stubs(pages: Pages, p: PageId, n: int) -> int
    decreases n,
{
    if n <= 0 {
        0
    } else {
        page_stubs(pages, p, n - 1) + if is_stub(pages, Rid { page: p, slot: (n - 1) as u16 }) {
            1int
        } else {
            0int
        }
    }
}

/// How many slots a heap page has; other pages have none.
pub open spec fn slots_of(pages: Pages, p: PageId) -> int {
    if is_heap(pages, p) {
        tuples_of(full(pages[p])).len() as int
    } else {
        0
    }
}

/// How many stubs the first `n` pages hold.
pub open spec fn stubs_in(pages: Pages, n: int) -> int
    decreases n,
{
    if n <= 0 {
        0
    } else {
        stubs_in(pages, n - 1) + page_stubs(
            pages,
            (n - 1) as u32,
            slots_of(pages, (n - 1) as u32),
        )
    }
}

/// How many stubs stand before `r`.
#[verifier::opaque]
pub open spec fn stubs_before(pages: Pages, r: Rid) -> int {
    stubs_in(pages, r.page as int) + page_stubs(pages, r.page, r.slot as int)
}

/// How many stubs stand before `r` or at it.
#[verifier::opaque]
pub open spec fn stubs_through(pages: Pages, r: Rid) -> int {
    stubs_before(pages, r) + if is_stub(pages, r) {
        1int
    } else {
        0int
    }
}

/// A counter after `n` steps more.
#[verifier::opaque]
pub open spec fn counted(c: u64, n: int) -> int {
    (c + n) % 0x1_0000_0000_0000_0000
}

/// A scan broke off at `r`: the stubs before it were followed, and perhaps that at it.
pub open spec fn broke_off(pages: Pages, was: u64, now: u64, r: Rid) -> bool {
    now == counted(was, stubs_before(pages, r)) || now == counted(was, stubs_through(pages, r))
}

/// The first lookup that fails fails with `e`, after the stubs up to it were followed.
pub open spec fn faulted(pages: Pages, was: u64, now: u64, r: Rid, e: HeapError) -> bool {
    first_fault(pages, r, e) && now == counted(was, stubs_through(pages, r))
}

/// Passing a slot counts the stub that it holds.
proof fn lemma_slot_counted(pages: Pages, was: u64, r: Rid, now: u64, next: u64)
    requires
        now == counted(was, stubs_before(pages, r)),
        next == if is_stub(pages, r) {
            now.wrapping_add(1)
        } else {
            now
        },
    ensures
        next == counted(was, stubs_through(pages, r)),
        r.slot < u16::MAX ==> next == counted(
            was,
            stubs_before(pages, Rid { page: r.page, slot: (r.slot + 1) as u16 }),
        ),
{
    reveal(counted);
    reveal(stubs_before);
    reveal(stubs_through);
    if r.slot < u16::MAX {
        assert((r.slot + 1 - 1) as u16 == r.slot);
    }
}

/// The stubs of a page are those before its first slot and those before its end.
proof fn lemma_page_counted(pages: Pages, p: PageId, n: u16)
    requires
        n == slots_of(pages, p),
    ensures
        stubs_before(pages, Rid { page: p, slot: 0 }) == stubs_in(pages, p as int),
        stubs_before(pages, Rid { page: p, slot: n }) == stubs_in(pages, p + 1),
{
    reveal(stubs_before);
    assert((p + 1 - 1) as u32 == p);
}

impl HeapFile {
    /// All records in address order.
    pub fn scan<P: Pager>(&mut self, bp: &mut P) -> (r: Result<Vec<(Rid, Vec<u8>)>, HeapError>)
        requires
            old(self).ready(old(bp)),
        ensures
            final(self).ready(final(bp)),
            final(bp).pages() == old(bp).pages(),
            final(bp).count() == old(bp).count(),
            final(bp).reach() == old(bp).reach(),
            match r {
                Ok(v) => {
                    &&& scanned(old(bp).pages(), v@)
                    &&& final(self).stats.forward_hops == counted(
                        old(self).stats.forward_hops,
                        stubs_in(old(bp).pages(), old(bp).count() as int),
                    )
                },
                Err(HeapError::Buffer(_)) => !holds_out(old(bp), 0) && exists|x: Rid| #[trigger]
                    broke_off(
                        old(bp).pages(),
                        old(self).stats.forward_hops,
                        final(self).stats.forward_hops,
                        x,
                    ),
                Err(e) => exists|x: Rid| #[trigger]
                    faulted(
                        old(bp).pages(),
                        old(self).stats.forward_hops,
                        final(self).stats.forward_hops,
                        x,
                        e,
                    ),
            },
            final(self).fsm == old(self).fsm,
            final(self).cursor == old(self).cursor,
            final(self).stats == (HeapStats {
                forward_hops: final(self).stats.forward_hops,
                ..old(self).stats
            }),
    {
        let n: PageId = bp.page_count();
        let mut out: Vec<(Rid, Vec<u8>)> = Vec::new();
        let mut pid: PageId = 0;
        let ghost a = bp.pages();
        proof {
            reveal(counted);
        }
        while pid < n
            invariant
                pid <= n == bp.count(),
                n == old(bp).count(),
                a == old(bp).pages(),
                bp.pages() == a,
                bp.reach() == old(bp).reach(),
                self.ready(bp),
                self.fsm == old(self).fsm,
                self.cursor == old(self).cursor,
                self.stats == (HeapStats {
                    forward_hops: self.stats.forward_hops,
                    ..old(self).stats
                }),
                self.stats.forward_hops == counted(
                    old(self).stats.forward_hops,
                    stubs_in(a, pid as int),
                ),
                listed(a, Rid { page: pid, slot: 0 }, out@),
                forall|x: Rid|
                    rid_lt(x, Rid { page: pid, slot: 0 }) ==> (#[trigger] get_result(a, x)) is Ok,
            decreases n - pid,
        {
            match self.scan_page(bp, pid, &mut out, Ghost(old(self).stats.forward_hops)) {
                Ok(()) => {},
                Err(e) => {
                    return Err(e);
                },
            }
            pid = pid + 1;
        }
        proof {
            assert forall|r: Rid|
                (#[trigger] get_result(a, r)) != Ok::<Option<Seq<u8>>, HeapError>(None) implies exists|
                i: int,
            |
                0 <= i < out@.len() && (#[trigger] out@[i]).0 == r by {
                assert(cell(a, r) is Some);
                assert(a.dom().contains(r.page));
            }
        }
        Ok(out)
    }

    /// Append the records of one page.
    fn scan_page<P: Pager>(
        &mut self,
        bp: &mut P,
        pid: PageId,
        out: &mut Vec<(Rid, Vec<u8>)>,
        Ghost(was): Ghost<u64>,
    ) -> (r: Result<(), HeapError>)
        requires
            old(self).stats.forward_hops == counted(was, stubs_in(old(bp).pages(), pid as int)),
            old(self).ready(old(bp)),
            pid < old(bp).count(),
            listed(old(bp).pages(), Rid { page: pid, slot: 0 }, old(out)@),
            forall|x: Rid|
                rid_lt(x, Rid { page: pid, slot: 0 }) ==> (#[trigger] get_result(
                    old(bp).pages(),
                    x,
                )) is Ok,
        ensures
            final(self).ready(final(bp)),
            final(bp).pages() == old(bp).pages(),
            final(bp).count() == old(bp).count(),
            final(bp).reach() == old(bp).reach(),
            match r {
                Ok(()) => {
                    let next = Rid { page: (pid + 1) as u32, slot: 0 };
                    &&& listed(old(bp).pages(), next, final(out)@)
                    &&& forall|x: Rid|
                        rid_lt(x, next) ==> (#[trigger] get_result(old(bp).pages(), x)) is Ok
                    &&& final(self).stats.forward_hops == counted(
                        was,
                        stubs_in(old(bp).pages(), pid + 1),
                    )
                },
                Err(HeapError::Buffer(_)) => !holds_out(old(bp), 0) && exists|x: Rid| #[trigger]
                    broke_off(old(bp).pages(), was, final(self).stats.forward_hops, x),
                Err(e) => exists|x: Rid| #[trigger]
                    faulted(old(bp).pages(), was, final(self).stats.forward_hops, x, e),
            },
            final(self).fsm == old(self).fsm,
            final(self).cursor == old(self).cursor,
            final(self).stats == (HeapStats {
                forward_hops: final(self).stats.forward_hops,
                ..old(self).stats
            }),
    {
        let ghost a = bp.pages();
        let page: SlottedPage = match load(bp, pid) {
            Ok(p) => p,
            Err(e) => {
                proof {
                    reveal(stubs_before);
                    assert(broke_off(a, was, self.stats.forward_hops, Rid { page: pid, slot: 0 }));
                }
                return Err(e);
            },
        };
        let ghost next = Rid { page: (pid + 1) as u32, slot: 0 };
        assert(a.dom().contains(pid));
        assert(full(a[pid])[14] == page@[14]);
        match page.page_type() {
            Some(PageType::Heap) => {},
            _ => {
                proof {
                    assert forall|r: Rid|
                        rid_lt(r, next) && !rid_lt(r, Rid { page: pid, slot: 0 }) implies (
                    #[trigger] get_result(a, r)) == Ok::<Option<Seq<u8>>, HeapError>(None) by {
                        assert(!is_heap(a, pid));
                    }
                    lemma_page_counted(a, pid, 0);
                    lemma_listed_on(a, Rid { page: pid, slot: 0 }, next, out@);
                }
                return Ok(());
            },
        }
        proof {
            assert(is_heap(a, pid));
            lemma_same_past_checksum(full(a[pid]), page@);
        }
        let count: u16 = page.slot_count();
        proof {
            lemma_page_counted(a, pid, count);
        }
        let mut slot: u16 = 0;
        while slot < count
            invariant
                slot <= count == tuples_of(full(a[pid])).len(),
                pid < bp.count(),
                is_heap(a, pid),
                readable_as(page@, full(a[pid])),
                bp.count() == old(bp).count(),
                a == old(bp).pages(),
                bp.pages() == a,
                bp.reach() == old(bp).reach(),
                self.ready(bp),
                self.fsm == old(self).fsm,
                self.cursor == old(self).cursor,
                self.stats == (HeapStats {
                    forward_hops: self.stats.forward_hops,
                    ..old(self).stats
                }),
                self.stats.forward_hops == counted(was, stubs_before(a, Rid { page: pid, slot })),
                listed(a, Rid { page: pid, slot }, out@),
                forall|x: Rid| rid_lt(x, Rid { page: pid, slot }) ==> (#[trigger] get_result(a, x)) is Ok,
            decreases count - slot,
        {
            let rid: Rid = Rid::new(pid, slot);
            let ghost before = self.stats.forward_hops;
            let got: Result<Option<Vec<u8>>, HeapError> = self.scan_slot(bp, &page, rid);
            proof {
                lemma_slot_counted(a, was, rid, before, self.stats.forward_hops);
            }
            match got {
                Ok(Some(v)) => {
                    let ghost before = out@;
                    out.push((rid, v));
                    proof {
                        lemma_listed_push(a, rid, before, v);
                    }
                },
                Ok(None) => {
                    proof {
                        lemma_listed_on(a, rid, Rid { page: pid, slot: (slot + 1) as u16 }, out@);
                    }
                },
                Err(e) => {
                    proof {
                        if e is Buffer {
                            assert(broke_off(a, was, self.stats.forward_hops, rid));
                        } else {
                            assert(first_fault(a, rid, e));
                            assert(faulted(a, was, self.stats.forward_hops, rid, e));
                        }
                    }
                    return Err(e);
                },
            }
            slot = slot + 1;
        }
        proof {
            assert forall|r: Rid| rid_lt(r, next) && !rid_lt(r, Rid { page: pid, slot }) implies (
            #[trigger] get_result(a, r)) == Ok::<Option<Seq<u8>>, HeapError>(None) by {}
            lemma_listed_on(a, Rid { page: pid, slot }, next, out@);
        }
        Ok(())
    }

    /// The record whose address is `rid`, if there is one, given its page.
    fn scan_slot<P: Pager>(&mut self, bp: &mut P, page: &SlottedPage, rid: Rid) -> (r: Result<
        Option<Vec<u8>>,
        HeapError,
    >)
        requires
            old(self).ready(old(bp)),
            is_heap(old(bp).pages(), rid.page),
            readable_as(page@, full(old(bp).pages()[rid.page])),
        ensures
            final(self).ready(final(bp)),
            final(bp).pages() == old(bp).pages(),
            final(bp).count() == old(bp).count(),
            final(bp).reach() == old(bp).reach(),
            match r {
                Ok(v) => get_result(old(bp).pages(), rid) == Ok::<Option<Seq<u8>>, HeapError>(
                    match v {
                        Some(x) => Some(x@),
                        None => None,
                    },
                ),
                Err(HeapError::Buffer(_)) => !holds_out(old(bp), 0),
                Err(e) => get_result(old(bp).pages(), rid) == Err::<Option<Seq<u8>>, HeapError>(e),
            },
            final(self).fsm == old(self).fsm,
            final(self).cursor == old(self).cursor,
            final(self).stats == (HeapStats {
                forward_hops: final(self).stats.forward_hops,
                ..old(self).stats
            }),
            final(self).stats.forward_hops == if is_stub(old(bp).pages(), rid) {
                old(self).stats.forward_hops.wrapping_add(1)
            } else {
                old(self).stats.forward_hops
            },
    {
        let ghost a = bp.pages();
        let bytes: Vec<u8> = match page.get(rid.slot) {
            Some(b) => copy_bytes(b),
            None => {
                return Ok(None);
            },
        };
        let n: usize = bytes.len();
        if n == 0 {
            return Ok(None);
        }
        let tag: u8 = bytes[0];
        if tag == TAG_TUPLE {
            let payload: Vec<u8> = copy_bytes(&bytes.as_slice()[1..n]);
            assert(payload@ =~= bytes@.skip(1));
            return Ok(Some(payload));
        }
        if tag == TAG_FORWARD_TARGET {
            return Ok(None);
        }
        if tag != TAG_FORWARD {
            return Err(HeapError::BadTag(tag));
        }
        self.stats.forward_hops = self.stats.forward_hops.wrapping_add(1);
        proof {
            assert(is_stub(a, rid));
            assert(whole_stub(a, rid));
        }
        let to: Rid = Rid::decode(bytes.as_slice(), 1);
        match self.read_slot(bp, to) {
            Ok(Some((t, p))) => {
                if t == TAG_FORWARD_TARGET || t == TAG_TUPLE {
                    assert((seq![t] + p@).skip(1) =~= p@);
                    Ok(Some(p))
                } else {
                    Err(HeapError::DanglingForward(to))
                }
            },
            Ok(None) => Err(HeapError::DanglingForward(to)),
            Err(e) => Err(e),
        }
    }
}

/// Page `b` can be read and has the slots of `c`.
pub open spec fn readable_as(b: Seq<u8>, c: Seq<u8>) -> bool {
    page_wf(b) && tuples_of(b) == tuples_of(c)
}

proof fn lemma_listed_push(pages: Pages, rid: Rid, v: Seq<(Rid, Vec<u8>)>, rec: Vec<u8>)
    requires
        listed(pages, rid, v),
        rid.slot < u16::MAX,
        get_result(pages, rid) == Ok::<Option<Seq<u8>>, HeapError>(Some(rec@)),
    ensures
        listed(pages, Rid { page: rid.page, slot: (rid.slot + 1) as u16 }, v.push((rid, rec))),
{
    let w = v.push((rid, rec));
    let to = Rid { page: rid.page, slot: (rid.slot + 1) as u16 };
    assert forall|r: Rid|
        rid_lt(r, to) && (#[trigger] get_result(pages, r)) != Ok::<Option<Seq<u8>>, HeapError>(None)
        implies exists|i: int| 0 <= i < w.len() && (#[trigger] w[i]).0 == r by {
        if r == rid {
            assert(w[v.len() as int].0 == r);
        } else {
            assert(rid_lt(r, rid));
            let i = choose|i: int| 0 <= i < v.len() && (#[trigger] v[i]).0 == r;
            assert(w[i] == v[i]);
        }
    }
}

/// The address that a stub holds stands at the start of its payload.
proof fn lemma_rid_past_tag(tag: u8, payload: Seq<u8>)
    requires
        payload.len() >= 6,
    ensures
        rid_at(payload, 0) == rid_at(seq![tag] + payload, 1),
{
    let d = seq![tag] + payload;
    assert(forall|i: int| 0 <= i < 6 ==> d[i + 1] == payload[i]);
    assert(d[1] == payload[0] && d[2] == payload[1] && d[3] == payload[2] && d[4] == payload[3]
        && d[5] == payload[4] && d[6] == payload[5]);
}

/// Counters at zero.
pub open spec fn no_stats() -> HeapStats {
    HeapStats {
        inserts: 0,
        gets: 0,
        updates: 0,
        deletes: 0,
        forward_hops: 0,
        forwards_created: 0,
        new_pages: 0,
    }
}

} // verus!
