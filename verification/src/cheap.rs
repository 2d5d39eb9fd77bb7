//! A durable record heap over the page cache, on slotted pages with stable
//! `(page, slot)` record identifiers.
//!
//! Records go to the current insert page; when it is full a fresh page takes its
//! place. Every write stamps the page's checksum, so a torn page is never silently
//! read as valid data. The durability barrier is `checkpoint`.

use vstd::prelude::*;

use crate::buffer::{offset_of, PageId, WalSync};
use crate::bytes::copy_bytes;
use crate::cbuffer::{law_checkpoint_survives_reopen, CacheError, PageCache, PageFormat};
use crate::page::{
    checksum_ok, count_of, first_dead, insert_result, lemma_first_dead, lemma_same_header,
    lemma_same_past_checksum, lemma_stamped, live_pairs, live_tuples, page_wf, placed, readable,
    same_past_checksum, slot_len, slot_off, tuples_of, type_of_byte, PageBuf, PageError, PageType,
    SlotId, SlottedPage, MAX_TUPLE_SIZE, PAGE_SIZE,
};
use crate::pager::{full, lemma_full};
use crate::vfs::{BlockFile, IoError};

verus! {

/// The page that holds a record and its slot there.
#[derive(Clone, Copy, Debug, PartialEq, Eq, Hash, Structural)]
pub struct Rid {
    pub page: PageId,
    pub slot: SlotId,
}

/// What a walk over every page found.
#[derive(Debug, PartialEq, Eq)]
pub struct HeapReport {
    /// Pages walked.
    pub pages: u32,
    /// Pages whose stored checksum does not match their bytes.
    pub bad_checksum: Vec<PageId>,
    /// Pages that are not heap pages.
    pub foreign_pages: Vec<PageId>,
    /// Live records seen.
    pub live_records: u64,
}

impl HeapReport {
    pub fn is_clean(&self) -> (r: bool)
        ensures
            r == (self.bad_checksum@.len() == 0 && self.foreign_pages@.len() == 0),
    {
        self.bad_checksum.len() == 0 && self.foreign_pages.len() == 0
    }
}

impl Default for HeapReport {
    fn default() -> (r: HeapReport)
        ensures
            r.pages == 0,
            r.bad_checksum@ == Seq::<PageId>::empty(),
            r.foreign_pages@ == Seq::<PageId>::empty(),
            r.live_records == 0,
    {
        HeapReport {
            pages: 0,
            bad_checksum: Vec::new(),
            foreign_pages: Vec::new(),
            live_records: 0,
        }
    }
}

#[derive(Clone, Copy, Debug, PartialEq, Eq, Structural)]
pub enum HeapError {
    /// The page cache could not serve or allocate a page.
    Cache(CacheError),
    /// The record is larger than any page can ever hold.
    TooLarge,
}

/// A page as far as its format tells it: a format that stamps checksums on the way
/// out leaves the field open until then.
pub open spec fn image_of(fmt: PageFormat, gist: Seq<u8>) -> Seq<u8> {
    if fmt.checked {
        full(gist)
    } else {
        gist
    }
}

proof fn lemma_image(fmt: PageFormat, b: Seq<u8>)
    requires
        b.len() == PAGE_SIZE,
    ensures
        same_past_checksum(b, image_of(fmt, fmt.gist(b))),
        same_past_checksum(image_of(fmt, fmt.gist(b)), b),
        !fmt.checked ==> image_of(fmt, fmt.gist(b)) == b,
{
    lemma_full(b);
}

pub open spec fn is_heap_page(b: Seq<u8>) -> bool {
    type_of_byte(b[14]) == Some(PageType::Heap)
}

/// The page's records can be read: they lie inside it, and clear of a checksum
/// field that the format leaves open.
pub open spec fn legible(fmt: PageFormat, b: Seq<u8>) -> bool {
    &&& readable(b)
    &&& fmt.checked ==> forall|i: int|
        0 <= i < count_of(b) && slot_off(b, i) != 0 ==> #[trigger] slot_off(b, i) >= 4
}

/// Pages below `n`, in ascending order.
pub open spec fn ascending_below(ps: Seq<PageId>, n: int) -> bool {
    &&& forall|i: int| 0 <= i < ps.len() ==> (#[trigger] ps[i]) < n
    &&& forall|i: int, j: int| 0 <= i < j < ps.len() ==> (#[trigger] ps[i]) < (#[trigger] ps[j])
}

/// A record heap over a page cache.
pub struct Heap<F: BlockFile, W: WalSync> {
    pub cache: PageCache<F, W>,
    /// The current insert page.
    pub hint: Option<PageId>,
}

/// The records of one page with their identifiers.
pub open spec fn page_records(p: PageId, b: Seq<u8>) -> Seq<(Rid, Seq<u8>)> {
    if is_heap_page(b) {
        live_pairs(tuples_of(b)).map_values(
            |x: (SlotId, Seq<u8>)| (Rid { page: p, slot: x.0 }, x.1),
        )
    } else {
        Seq::empty()
    }
}

impl<F: BlockFile, W: WalSync> Heap<F, W> {
    /// How many pages there are.
    pub open spec fn count(&self) -> PageId {
        self.cache.dir.next_page
    }

    /// The page `p`.
    pub open spec fn image(&self, p: PageId) -> Seq<u8> {
        image_of(self.cache.fmt, self.cache.content(p)->0)
    }

    /// Every page can be had, and the insert page is one of them.
    pub open spec fn wf(&self) -> bool {
        &&& self.cache.wf()
        &&& self.cache.idle()
        &&& forall|p: PageId|
            p < self.count() ==> (#[trigger] self.cache.content(p)) is Some && self.image(p).len()
                == PAGE_SIZE
        &&& self.hint matches Some(p) ==> p < self.count()
    }

    /// Page `p` can take records.
    pub open spec fn usable(&self, p: PageId) -> bool {
        page_wf(self.image(p))
    }

    /// Nothing fails on its own.
    pub open spec fn steady(&self) -> bool {
        self.cache.steady() && self.cache.dir.steal
    }

    /// The record `rid` names.
    pub open spec fn record(&self, rid: Rid) -> Option<Seq<u8>> {
        let ts = tuples_of(self.image(rid.page));
        if rid.page < self.count() && rid.slot < ts.len() {
            ts[rid.slot as int]
        } else {
            None
        }
    }

    /// Every page is a heap page that can take records.
    pub open spec fn sound(&self) -> bool {
        forall|p: PageId| #![trigger self.image(p)]
            p < self.count() ==> page_wf(self.image(p)) && is_heap_page(self.image(p))
    }

    /// Every page's checksum matches its bytes.
    pub open spec fn checksummed(&self) -> bool {
        forall|p: PageId| #![trigger self.image(p)] p < self.count() ==> checksum_ok(self.image(p))
    }

    /// Pages and failures are as before.
    pub open spec fn same(&self, before: &Self) -> bool {
        &&& self.wf()
        &&& self.cache.fmt == before.cache.fmt
        &&& self.steady() == before.steady()
        &&& self.count() == before.count()
        &&& self.hint == before.hint
        &&& forall|p: PageId| p < before.count() ==> #[trigger] self.image(p) == before.image(p)
    }

    /// Pages other than `but` are as before; pages may have been added.
    pub open spec fn same_but(&self, before: &Self, but: PageId) -> bool {
        &&& self.wf()
        &&& self.cache.fmt == before.cache.fmt
        &&& self.steady() == before.steady()
        &&& self.count() >= before.count()
        &&& forall|p: PageId|
            p < before.count() && p != but ==> #[trigger] self.image(p) == before.image(p)
    }

    /// Open a heap over a cache: the last page becomes the insert page.
    pub fn open(cache: PageCache<F, W>) -> (h: Self)
        ensures
            h.cache == cache,
            h.hint == if cache.dir.next_page == 0 {
                None
            } else {
                Some((cache.dir.next_page - 1) as PageId)
            },
    {
        let n: PageId = cache.page_count();
        let hint: Option<PageId> = if n == 0 {
            None
        } else {
            Some(n - 1)
        };
        Heap { cache, hint }
    }

    /// Page `p`.
    fn load(&mut self, p: PageId) -> (r: Result<SlottedPage, HeapError>)
        requires
            old(self).wf(),
        ensures
            final(self).same(old(self)),
            forall|q: PageId| #[trigger]
                final(self).cache.unsealed(q) ==> old(self).cache.unsealed(q),
            match r {
                Ok(page) => {
                    &&& !old(self).cache.fmt.valid(page@) ==> old(self).cache.unsealed(p)
                    &&& old(self).cache.fmt.valid(page@) ==> !final(self).cache.unsealed(p)
                    &&& p < old(self).count()
                    &&& same_past_checksum(old(self).image(p), page@)
                    &&& !old(self).cache.fmt.checked ==> page@ == old(self).image(p)
                },
                Err(e) => e is Cache && !(old(self).steady() && p < old(self).count()),
            },
    {
        let ghost a = *self;
        proof {
            assert(p < a.count() ==> a.cache.content(p) is Some);
        }
        let r: Result<Vec<u8>, CacheError> = self.cache.copy_of(p);
        proof {
            lemma_same_pages(&a, self);
        }
        match r {
            Ok(b) => {
                proof {
                    lemma_image(a.cache.fmt, b@);
                    lemma_allocated(&self.cache, p);
                    assert(a.cache.content(p) is Some);
                }
                Ok(SlottedPage::from_bytes(PageBuf::from_vec(b)))
            },
            Err(e) => Err(HeapError::Cache(e)),
        }
    }

    /// Page `p` held `b` and holds `c`; the other pages are as before.
    spec fn edited(&self, before: &Self, p: PageId, b: Seq<u8>, c: Seq<u8>) -> bool {
        &&& same_past_checksum(before.image(p), b)
        &&& !before.cache.fmt.checked ==> b == before.image(p)
        &&& self.same_but(before, p)
        &&& self.count() == before.count()
        &&& self.hint == before.hint
        &&& same_past_checksum(c, self.image(p))
        &&& !before.cache.fmt.checked ==> self.image(p) == c
        &&& b == c ==> self.same(before)
    }

    /// Hand page `p` to `f` and put what it makes of it in its place.
    fn edit<T, G: FnOnce(Vec<u8>) -> (Vec<u8>, T)>(&mut self, p: PageId, f: G) -> (r: Result<
        T,
        HeapError,
    >)
        requires
            old(self).wf(),
            forall|b: Vec<u8>|
                p < old(self).count() && same_past_checksum(old(self).image(p), b@)
                    ==> #[trigger] f.requires((b,)),
            forall|b: Vec<u8>, c: Vec<u8>, t: T| #[trigger]
                f.ensures((b,), (c, t)) ==> c@.len() == PAGE_SIZE,
        ensures
            match r {
                Ok(t) => p < old(self).count() && exists|b: Vec<u8>, c: Vec<u8>| #[trigger]
                    final(self).edited(old(self), p, b@, c@) && f.ensures((b,), (c, t)),
                Err(e) => {
                    &&& e is Cache
                    &&& !(old(self).steady() && p < old(self).count())
                    &&& final(self).same(old(self))
                },
            },
    {
        let ghost a = *self;
        proof {
            assert(p < a.count() ==> a.cache.content(p) is Some);
            assert forall|b: Vec<u8>|
                b@.len() == PAGE_SIZE && p < a.count() && a.cache.content(p) == Some(
                    a.cache.fmt.gist(b@),
                ) implies #[trigger] f.requires((b,)) by {
                lemma_image(a.cache.fmt, b@);
            }
        }
        let r: Result<T, CacheError> = self.cache.edit(p, f);
        match r {
            Ok(t) => {
                proof {
                    let (b, c): (Vec<u8>, Vec<u8>) = choose|b: Vec<u8>, c: Vec<u8>|
                        #[trigger] self.cache.edited(&a.cache, p, b@, c@) && f.ensures(
                            (b,),
                            (c, t),
                        );
                    lemma_image(a.cache.fmt, b@);
                    lemma_image(a.cache.fmt, c@);
                    assert forall|q: PageId| q < a.count() && q != p implies #[trigger] self.image(q)
                        == a.image(q) && self.cache.content(q) is Some by {
                        assert(a.cache.content(q) is Some);
                    }
                    assert forall|q: PageId| q < self.count() implies (
                    #[trigger] self.cache.content(q)) is Some && self.image(q).len() == PAGE_SIZE by {
                        if q != p {
                            assert(self.image(q) == a.image(q));
                        }
                    }
                    assert(self.edited(&a, p, b@, c@));
                }
                Ok(t)
            },
            Err(e) => {
                proof {
                    lemma_same_pages(&a, self);
                }
                Err(HeapError::Cache(e))
            },
        }
    }
}

/// What inserting into a page does to it.
spec fn page_placed(b: Seq<u8>, rec: Seq<u8>, c: Seq<u8>, res: Result<SlotId, PageError>) -> bool {
    &&& page_wf(c)
    &&& c[14] == b[14]
    &&& res == insert_result(tuples_of(b), rec.len() as int)
    &&& tuples_of(c) == match res {
        Ok(slot) => placed(tuples_of(b), slot as int, rec),
        Err(_) => tuples_of(b),
    }
    &&& checksum_ok(c)
}

fn place_in(b: Vec<u8>, rec: &[u8]) -> (o: (Vec<u8>, Result<SlotId, PageError>))
    requires
        page_wf(b@),
    ensures
        page_placed(b@, rec@, o.0@, o.1),
{
    let mut page: SlottedPage = SlottedPage::from_bytes(PageBuf::from_vec(b));
    let res: Result<SlotId, PageError> = page.insert(rec);
    let ghost mid = page@;
    page.recompute_checksum();
    proof {
        lemma_same_header(b@, mid);
        lemma_stamped(mid);
    }
    (page.into_bytes().into_vec(), res)
}

/// What deleting from a page does to it.
spec fn page_erased(b: Seq<u8>, slot: SlotId, c: Seq<u8>, existed: bool) -> bool {
    &&& c.len() == PAGE_SIZE
    &&& existed == (slot < tuples_of(b).len() && tuples_of(b)[slot as int] is Some)
    &&& existed ==> page_wf(c) && c[14] == b[14] && tuples_of(c) == tuples_of(b).update(
        slot as int,
        None,
    ) && checksum_ok(c)
    &&& !existed ==> c == b
}

fn erase_in(b: Vec<u8>, slot: SlotId) -> (o: (Vec<u8>, bool))
    requires
        page_wf(b@),
    ensures
        page_erased(b@, slot, o.0@, o.1),
{
    let mut page: SlottedPage = SlottedPage::from_bytes(PageBuf::from_vec(b));
    let existed: bool = page.delete(slot);
    if existed {
        let ghost mid = page@;
        page.recompute_checksum();
        proof {
            lemma_same_header(b@, mid);
            lemma_stamped(mid);
        }
    }
    (page.into_bytes().into_vec(), existed)
}

proof fn lemma_allocated<F: BlockFile, W: WalSync>(c: &PageCache<F, W>, p: PageId)
    requires
        c.wf(),
        c.content(p) is Some,
    ensures
        p < c.dir.next_page,
{
    if c.resident(p) {
        assert(c.dir.slot_ok(c.dir.map@[p] as int));
    }
}

proof fn lemma_same_pages<F: BlockFile, W: WalSync>(a: &Heap<F, W>, b: &Heap<F, W>)
    requires
        a.wf(),
        b.cache.wf(),
        b.cache.idle(),
        b.cache.keeps(&a.cache),
        b.cache.fmt == a.cache.fmt,
        b.cache.steady() == a.cache.steady(),
        b.cache.dir.steal == a.cache.dir.steal,
        b.count() == a.count(),
        b.hint == a.hint,
    ensures
        b.same(a),
{
    assert forall|p: PageId| p < a.count() implies #[trigger] b.image(p) == a.image(p)
        && b.cache.content(p) is Some by {
        assert(a.cache.content(p) is Some);
    }
    assert forall|p: PageId| p < b.count() implies (#[trigger] b.cache.content(p)) is Some
        && b.image(p).len() == PAGE_SIZE by {
        assert(b.image(p) == a.image(p));
        assert(a.cache.content(p) is Some);
    }
}

/// Where a record of `len` bytes goes.
pub open spec fn target<F: BlockFile, W: WalSync>(h: &Heap<F, W>, len: int) -> Rid {
    match h.hint {
        Some(p) => match insert_result(tuples_of(h.image(p)), len) {
            Ok(slot) => Rid { page: p, slot },
            Err(_) => Rid { page: h.count(), slot: 0 },
        },
        None => Rid { page: h.count(), slot: 0 },
    }
}

impl<F: BlockFile, W: WalSync> Heap<F, W> {
    /// Every record but `but` is as before.
    pub open spec fn same_records_but(&self, before: &Self, but: Rid) -> bool {
        forall|r: Rid| r != but ==> #[trigger] self.record(r) == before.record(r)
    }

    /// Every record is as before.
    pub open spec fn same_records(&self, before: &Self) -> bool {
        forall|r: Rid| #[trigger] self.record(r) == before.record(r)
    }

    /// What held of all pages still does.
    pub open spec fn as_good(&self, before: &Self) -> bool {
        &&& before.sound() ==> self.sound()
        &&& !before.cache.fmt.checked && before.checksummed() ==> self.checksummed()
        &&& self.hint matches Some(p) ==> self.usable(p)
    }

    fn try_insert(&mut self, p: PageId, rec: &[u8]) -> (r: Result<
        Result<SlotId, PageError>,
        HeapError,
    >)
        requires
            old(self).wf(),
            p < old(self).count(),
            old(self).usable(p),
        ensures
            match r {
                Ok(res) => {
                    let ts = tuples_of(old(self).image(p));
                    &&& res == insert_result(ts, rec@.len() as int)
                    &&& final(self).same_but(old(self), p)
                    &&& final(self).count() == old(self).count()
                    &&& final(self).hint == old(self).hint
                    &&& final(self).usable(p)
                    &&& final(self).image(p)[14] == old(self).image(p)[14]
                    &&& tuples_of(final(self).image(p)) == match res {
                        Ok(slot) => placed(ts, slot as int, rec@),
                        Err(_) => ts,
                    }
                    &&& !old(self).cache.fmt.checked ==> checksum_ok(final(self).image(p))
                },
                Err(e) => e is Cache && !old(self).steady() && final(self).same(old(self)),
            },
    {
        let ghost a = *self;
        let ghost before = self.image(p);
        let f = |b: Vec<u8>| -> (o: (Vec<u8>, Result<SlotId, PageError>))
            requires
                page_wf(b@),
            ensures
                page_placed(b@, rec@, o.0@, o.1),
            { place_in(b, rec) };
        proof {
            assert forall|b: Vec<u8>| same_past_checksum(before, b@) implies #[trigger] f.requires(
                (b,),
            ) by {
                lemma_same_past_checksum(before, b@);
            }
        }
        match self.edit(p, f) {
            Ok(res) => {
                proof {
                    let (b, c): (Vec<u8>, Vec<u8>) = choose|b: Vec<u8>, c: Vec<u8>|
                        #[trigger] self.edited(&a, p, b@, c@) && f.ensures((b,), (c, res));
                    lemma_same_past_checksum(before, b@);
                    lemma_same_past_checksum(c@, self.image(p));
                }
                Ok(res)
            },
            Err(e) => Err(e),
        }
    }

    /// Append a fresh heap page.
    fn fresh(&mut self) -> (r: Result<PageId, HeapError>)
        requires
            old(self).wf(),
            old(self).count() < u32::MAX,
        ensures
            match r {
                Ok(p) => {
                    &&& p == old(self).count()
                    &&& final(self).count() == old(self).count() + 1
                    &&& final(self).same_but(old(self), p)
                    &&& final(self).hint == old(self).hint
                    &&& final(self).usable(p)
                    &&& is_heap_page(final(self).image(p))
                    &&& tuples_of(final(self).image(p)) == Seq::<Option<Seq<u8>>>::empty()
                    &&& !old(self).cache.fmt.checked ==> checksum_ok(final(self).image(p))
                },
                Err(e) => e is Cache && !old(self).steady() && final(self).same(old(self)),
            },
    {
        let ghost a = *self;
        let mut page: SlottedPage = PageBuf::new(PageType::Heap);
        let ghost made = page@;
        page.recompute_checksum();
        proof {
            lemma_stamped(made);
            lemma_image(a.cache.fmt, page@);
        }
        let ghost now = page@;
        match self.cache.append(page.as_bytes()) {
            Ok(p) => {
                proof {
                    lemma_same_past_checksum(now, self.image(p));
                    assert forall|q: PageId| q < a.count() implies #[trigger] self.image(q)
                        == a.image(q) && self.cache.content(q) is Some by {
                        assert(a.cache.content(q) is Some);
                    }
                    assert forall|q: PageId| q < self.count() implies (
                    #[trigger] self.cache.content(q)) is Some && self.image(q).len() == PAGE_SIZE by {
                        if q != p {
                            assert(self.image(q) == a.image(q));
                        }
                    }
                }
                Ok(p)
            },
            Err(e) => {
                proof {
                    lemma_same_pages(&a, self);
                }
                Err(HeapError::Cache(e))
            },
        }
    }

    /// Insert a record, returning its stable identifier. The record goes to the
    /// insert page, or to a fresh page where that one is full or there is none.
    pub fn insert(&mut self, rec: &[u8]) -> (r: Result<Rid, HeapError>)
        requires
            old(self).wf(),
            old(self).count() < u32::MAX,
            old(self).hint matches Some(p) ==> old(self).usable(p),
        ensures
            final(self).wf(),
            final(self).cache.fmt == old(self).cache.fmt,
            final(self).steady() == old(self).steady(),
            final(self).as_good(old(self)),
            old(self).count() <= final(self).count() <= old(self).count() + 1,
            forall|p: PageId|
                p < old(self).count() && old(self).hint != Some(p) ==> #[trigger] final(self).image(
                    p,
                ) == old(self).image(p),
            match r {
                Ok(rid) => {
                    &&& rec@.len() <= MAX_TUPLE_SIZE
                    &&& rid == target(old(self), rec@.len() as int)
                    &&& old(self).record(rid) is None
                    &&& final(self).record(rid) == Some(rec@)
                    &&& final(self).same_records_but(old(self), rid)
                    &&& final(self).hint == Some(rid.page)
                },
                Err(HeapError::TooLarge) => {
                    &&& rec@.len() > MAX_TUPLE_SIZE
                    &&& final(self).same_records(old(self))
                    &&& final(self).hint is Some
                },
                Err(HeapError::Cache(_)) => !old(self).steady() && final(self).same_records(
                    old(self),
                ),
            },
            old(self).steady() && rec@.len() <= MAX_TUPLE_SIZE ==> r is Ok,
            old(self).steady() && rec@.len() > MAX_TUPLE_SIZE ==> r == Err::<Rid, _>(
                HeapError::TooLarge,
            ),
    {
        let ghost a = *self;
        if let Some(p) = self.hint {
            let res: Result<SlotId, PageError> = match self.try_insert(p, rec) {
                Ok(res) => res,
                Err(e) => {
                    proof {
                        lemma_same_carries(&a, self);
                    }
                    return Err(e);
                },
            };
            proof {
                lemma_first_dead(tuples_of(a.image(p)));
                lemma_written(&a, self, p);
            }
            match res {
                Ok(slot) => {
                    return Ok(Rid { page: p, slot });
                },
                Err(PageError::TupleTooLarge) => {
                    proof {
                        lemma_untouched(&a, self, p);
                    }
                    return Err(HeapError::TooLarge);
                },
                Err(_) => {
                    proof {
                        lemma_untouched(&a, self, p);
                    }
                },
            }
        } else {
            proof {
                lemma_same_carries(&a, self);
            }
        }
        let ghost b = *self;
        let p: PageId = match self.fresh() {
            Ok(p) => p,
            Err(e) => {
                proof {
                    lemma_same_carries(&b, self);
                }
                return Err(e);
            },
        };
        self.hint = Some(p);
        let ghost c = *self;
        proof {
            lemma_added(&b, &c, p);
        }
        let res: Result<SlotId, PageError> = match self.try_insert(p, rec) {
            Ok(res) => res,
            Err(e) => {
                proof {
                    lemma_same_carries(&c, self);
                }
                return Err(e);
            },
        };
        proof {
            reveal_with_fuel(first_dead, 1);
            lemma_first_dead(tuples_of(c.image(p)));
            lemma_written(&c, self, p);
        }
        match res {
            Ok(slot) => {
                proof {
                    assert(slot == 0);
                }
                Ok(Rid { page: p, slot })
            },
            Err(_) => {
                proof {
                    lemma_untouched(&c, self, p);
                }
                Err(HeapError::TooLarge)
            },
        }
    }
}

/// A heap with the same pages is as good.
proof fn lemma_same_carries<F: BlockFile, W: WalSync>(a: &Heap<F, W>, b: &Heap<F, W>)
    requires
        b.same(a),
        a.hint matches Some(p) ==> a.usable(p),
        a.wf(),
    ensures
        b.as_good(a),
        b.same_records(a),
{
    assert forall|r: Rid| #[trigger] b.record(r) == a.record(r) by {
        if r.page < a.count() {
            assert(b.image(r.page) == a.image(r.page));
        }
    }
    assert forall|p: PageId| p < b.count() implies #[trigger] b.image(p) == a.image(p) by {}
}

/// A page rewritten in place.
proof fn lemma_written<F: BlockFile, W: WalSync>(a: &Heap<F, W>, b: &Heap<F, W>, p: PageId)
    requires
        a.wf(),
        p < a.count(),
        b.same_but(a, p),
        b.count() == a.count(),
        b.hint == Some(p),
        b.usable(p),
        b.image(p)[14] == a.image(p)[14],
        !a.cache.fmt.checked ==> checksum_ok(b.image(p)),
    ensures
        b.as_good(a),
        forall|r: Rid| r.page != p ==> #[trigger] b.record(r) == a.record(r),
{
    assert forall|r: Rid| r.page != p implies #[trigger] b.record(r) == a.record(r) by {
        if r.page < a.count() {
            assert(b.image(r.page) == a.image(r.page));
        }
    }
    assert forall|q: PageId| q < b.count() && q != p implies #[trigger] b.image(q) == a.image(q) by {}
    assert(a.sound() ==> is_heap_page(a.image(p)));
}

proof fn lemma_untouched<F: BlockFile, W: WalSync>(a: &Heap<F, W>, b: &Heap<F, W>, p: PageId)
    requires
        p < a.count(),
        b.count() == a.count(),
        tuples_of(b.image(p)) == tuples_of(a.image(p)),
        forall|r: Rid| r.page != p ==> #[trigger] b.record(r) == a.record(r),
    ensures
        b.same_records(a),
{
    assert forall|r: Rid| #[trigger] b.record(r) == a.record(r) by {}
}

/// An empty page added at the end.
proof fn lemma_added<F: BlockFile, W: WalSync>(a: &Heap<F, W>, b: &Heap<F, W>, p: PageId)
    requires
        a.wf(),
        p == a.count(),
        b.count() == a.count() + 1,
        b.same_but(a, p),
        b.hint == Some(p),
        b.usable(p),
        is_heap_page(b.image(p)),
        tuples_of(b.image(p)) == Seq::<Option<Seq<u8>>>::empty(),
        !a.cache.fmt.checked ==> checksum_ok(b.image(p)),
    ensures
        b.as_good(a),
        b.same_records(a),
{
    assert forall|r: Rid| #[trigger] b.record(r) == a.record(r) by {
        if r.page < a.count() {
            assert(b.image(r.page) == a.image(r.page));
        }
    }
    assert forall|q: PageId| q < b.count() && q != p implies #[trigger] b.image(q) == a.image(q) by {}
}

impl<F: BlockFile, W: WalSync> Heap<F, W> {
    /// Read a record. `None` if the slot is empty.
    pub fn get(&mut self, rid: Rid) -> (r: Result<Option<Vec<u8>>, HeapError>)
        requires
            old(self).wf(),
            rid.page < old(self).count() ==> legible(old(self).cache.fmt, old(self).image(rid.page)),
        ensures
            final(self).same(old(self)),
            match r {
                Ok(Some(v)) => rid.page < old(self).count() && old(self).record(rid) == Some(v@),
                Ok(None) => rid.page < old(self).count() && old(self).record(rid) is None,
                Err(e) => e is Cache && !(old(self).steady() && rid.page < old(self).count()),
            },
    {
        let ghost before = self.image(rid.page);
        let page: SlottedPage = match self.load(rid.page) {
            Ok(page) => page,
            Err(e) => {
                return Err(e);
            },
        };
        proof {
            lemma_readable(self.cache.fmt, before, page@);
        }
        match page.get(rid.slot) {
            Some(d) => Ok(Some(copy_bytes(d))),
            None => Ok(None),
        }
    }

    /// Delete a record. Returns whether a live record was removed.
    pub fn delete(&mut self, rid: Rid) -> (r: Result<bool, HeapError>)
        requires
            old(self).wf(),
            rid.page < old(self).count() ==> old(self).usable(rid.page),
        ensures
            final(self).wf(),
            final(self).cache.fmt == old(self).cache.fmt,
            final(self).steady() == old(self).steady(),
            final(self).count() == old(self).count(),
            final(self).hint == old(self).hint,
            old(self).sound() ==> final(self).sound(),
            !old(self).cache.fmt.checked && old(self).checksummed() ==> final(self).checksummed(),
            final(self).same_but(old(self), rid.page),
            match r {
                Ok(existed) => {
                    &&& rid.page < old(self).count()
                    &&& existed == (old(self).record(rid) is Some)
                    &&& existed ==> final(self).record(rid) is None
                    &&& existed ==> final(self).same_records_but(old(self), rid)
                    &&& !existed ==> final(self).same(old(self))
                },
                Err(e) => {
                    &&& e is Cache
                    &&& !(old(self).steady() && rid.page < old(self).count())
                    &&& final(self).same(old(self))
                },
            },
    {
        let ghost a = *self;
        let ghost before = self.image(rid.page);
        let slot: SlotId = rid.slot;
        let f = |b: Vec<u8>| -> (o: (Vec<u8>, bool))
            requires
                page_wf(b@),
            ensures
                page_erased(b@, slot, o.0@, o.1),
            { erase_in(b, slot) };
        proof {
            assert forall|b: Vec<u8>|
                rid.page < a.count() && same_past_checksum(before, b@) implies #[trigger] f.requires(
                (b,),
            ) by {
                lemma_same_past_checksum(before, b@);
            }
        }
        match self.edit(rid.page, f) {
            Ok(existed) => {
                proof {
                    let (b, c): (Vec<u8>, Vec<u8>) = choose|b: Vec<u8>, c: Vec<u8>|
                        #[trigger] self.edited(&a, rid.page, b@, c@) && f.ensures(
                            (b,),
                            (c, existed),
                        );
                    lemma_same_past_checksum(before, b@);
                    if existed {
                        lemma_same_past_checksum(c@, self.image(rid.page));
                        assert(a.sound() ==> is_heap_page(a.image(rid.page)));
                        assert forall|r: Rid| r != rid implies #[trigger] self.record(r)
                            == a.record(r) by {
                            if r.page < a.count() && r.page != rid.page {
                                assert(self.image(r.page) == a.image(r.page));
                            }
                        }
                    } else {
                        lemma_same_kept(&a, self);
                    }
                }
                Ok(existed)
            },
            Err(e) => {
                proof {
                    lemma_same_kept(&a, self);
                }
                Err(e)
            },
        }
    }

    /// The records of the first `n` pages, in order.
    pub open spec fn records_to(&self, n: int) -> Seq<(Rid, Seq<u8>)>
        decreases n,
    {
        if n <= 0 {
            Seq::empty()
        } else {
            self.records_to(n - 1) + page_records((n - 1) as PageId, self.image((n - 1) as PageId))
        }
    }

    /// Full sequential scan: every live record across every heap page, in order.
    pub fn scan(&mut self) -> (r: Result<Vec<(Rid, Vec<u8>)>, HeapError>)
        requires
            old(self).wf(),
            forall|p: PageId| #![trigger old(self).image(p)]
                p < old(self).count() && is_heap_page(old(self).image(p)) ==> legible(old(self).cache.fmt, old(self).image(p)),
        ensures
            final(self).same(old(self)),
            match r {
                Ok(v) => v@.map_values(|x: (Rid, Vec<u8>)| (x.0, x.1@)) == old(self).records_to(
                    old(self).count() as int,
                ),
                Err(e) => e is Cache && !old(self).steady(),
            },
    {
        let ghost a = *self;
        let ghost view = |x: (Rid, Vec<u8>)| (x.0, x.1@);
        let n: PageId = self.cache.page_count();
        let mut out: Vec<(Rid, Vec<u8>)> = Vec::new();
        let mut page: PageId = 0;
        proof {
            assert(out@.map_values(view) =~= Seq::empty());
            assert(self.same(&a));
        }
        while page < n
            invariant
                page <= n == a.count(),
                a.wf(),
                a == *old(self),
                self.same(&a),
                view == (|x: (Rid, Vec<u8>)| (x.0, x.1@)),
                forall|p: PageId| #![trigger a.image(p)]
                    p < a.count() && is_heap_page(a.image(p)) ==> legible(a.cache.fmt, a.image(p)),
                out@.map_values(view) == a.records_to(page as int),
            decreases n - page,
        {
            let ghost m = *self;
            let ghost before = a.image(page);
            let sp: SlottedPage = match self.load(page) {
                Ok(sp) => sp,
                Err(e) => {
                    proof {
                        lemma_same_trans(&a, &m, self);
                    }
                    return Err(e);
                },
            };
            proof {
                lemma_same_trans(&a, &m, self);
                assert(m.image(page) == before);
            }
            let heap: bool = match sp.page_type() {
                Some(PageType::Heap) => true,
                _ => false,
            };
            if heap {
                proof {
                    lemma_readable(a.cache.fmt, before, sp@);
                }
                let pairs: Vec<(SlotId, Vec<u8>)> = sp.iter();
                let ghost live = live_pairs(tuples_of(before));
                let ghost part = page_records(page, before);
                let ghost done = a.records_to(page as int);
                proof {
                    assert(part.take(0) =~= Seq::empty());
                    assert(done + part.take(0) =~= done);
                }
                let mut i: usize = 0;
                while i < pairs.len()
                    invariant
                        i <= pairs@.len() == live.len(),
                        pairs@.map_values(|p: (SlotId, Vec<u8>)| (p.0, p.1@)) == live,
                        part == live.map_values(
                            |x: (SlotId, Seq<u8>)| (Rid { page, slot: x.0 }, x.1),
                        ),
                        view == (|x: (Rid, Vec<u8>)| (x.0, x.1@)),
                        out@.map_values(view) == done + part.take(i as int),
                    decreases pairs@.len() - i,
                {
                    let ghost was = out@;
                    let rec: Vec<u8> = copy_bytes(pairs[i].1.as_slice());
                    let rid: Rid = Rid { page, slot: pairs[i].0 };
                    out.push((rid, rec));
                    proof {
                        assert(live[i as int] == (pairs@[i as int].0, pairs@[i as int].1@));
                        assert(out@.map_values(view) =~= was.map_values(view).push((rid, rec@)));
                        assert(part.take(i + 1) =~= part.take(i as int).push(part[i as int]));
                        assert(done + part.take(i + 1) =~= (done + part.take(i as int)).push(
                            part[i as int],
                        ));
                    }
                    i = i + 1;
                }
                proof {
                    assert(part.take(i as int) =~= part);
                }
            } else {
                proof {
                    assert(page_records(page, before) =~= Seq::empty());
                    assert(a.records_to(page as int) + page_records(page, before)
                        =~= a.records_to(page as int));
                }
            }
            page = page + 1;
        }
        Ok(out)
    }

    /// The pages among the first `n` whose checksum does not match.
    pub open spec fn bad_to(&self, n: int) -> Seq<PageId>
        decreases n,
    {
        if n <= 0 {
            Seq::empty()
        } else if !checksum_ok(self.image((n - 1) as PageId)) {
            self.bad_to(n - 1).push((n - 1) as PageId)
        } else {
            self.bad_to(n - 1)
        }
    }

    /// The pages among the first `n` whose checksum matches and that are no heap pages.
    pub open spec fn foreign_to(&self, n: int) -> Seq<PageId>
        decreases n,
    {
        let p = (n - 1) as PageId;
        if n <= 0 {
            Seq::empty()
        } else if checksum_ok(self.image(p)) && !is_heap_page(self.image(p)) {
            self.foreign_to(n - 1).push(p)
        } else {
            self.foreign_to(n - 1)
        }
    }

    /// The live records on the heap pages among the first `n` whose checksum matches.
    pub open spec fn live_to(&self, n: int) -> int
        decreases n,
    {
        let p = (n - 1) as PageId;
        if n <= 0 {
            0
        } else if checksum_ok(self.image(p)) && is_heap_page(self.image(p)) {
            self.live_to(n - 1) + live_tuples(tuples_of(self.image(p)))
        } else {
            self.live_to(n - 1)
        }
    }

    /// The pages among the first `n`, but for the bad ones, that are no heap pages.
    pub open spec fn foreign_but(&self, bad: Seq<PageId>, n: int) -> Seq<PageId>
        decreases n,
    {
        let p = (n - 1) as PageId;
        if n <= 0 {
            Seq::empty()
        } else if !bad.contains(p) && !is_heap_page(self.image(p)) {
            self.foreign_but(bad, n - 1).push(p)
        } else {
            self.foreign_but(bad, n - 1)
        }
    }

    /// The live records on the heap pages among the first `n`, but for the bad ones.
    pub open spec fn live_but(&self, bad: Seq<PageId>, n: int) -> int
        decreases n,
    {
        let p = (n - 1) as PageId;
        if n <= 0 {
            0
        } else if !bad.contains(p) && is_heap_page(self.image(p)) {
            self.live_but(bad, n - 1) + live_tuples(tuples_of(self.image(p)))
        } else {
            self.live_but(bad, n - 1)
        }
    }

    /// Later bad pages leave the count of the earlier ones as it was.
    proof fn lemma_later_bad(&self, bad: Seq<PageId>, p: PageId, n: int)
        requires
            n <= p,
        ensures
            self.foreign_but(bad.push(p), n) == self.foreign_but(bad, n),
            self.live_but(bad.push(p), n) == self.live_but(bad, n),
        decreases n,
    {
        if n > 0 {
            self.lemma_later_bad(bad, p, n - 1);
            let q = (n - 1) as PageId;
            let now = bad.push(p);
            if bad.contains(q) {
                let i = choose|i: int| 0 <= i < bad.len() && bad[i] == q;
                assert(now[i] == q);
            }
            if now.contains(q) {
                let i = choose|i: int| 0 <= i < now.len() && now[i] == q;
                assert(bad[i] == q);
            }
        }
    }

    /// Walk every page and check that each is a heap page whose stored checksum
    /// matches its bytes. Where the cache's format stamps checksums itself, a page may
    /// be bad until it is written out: each that is listed was in memory like that
    /// before, and each that still is is listed.
    pub fn verify(&mut self) -> (r: Result<HeapReport, HeapError>)
        requires
            old(self).wf(),
            forall|p: PageId| #![trigger old(self).image(p)]
                p < old(self).count() && is_heap_page(old(self).image(p)) && (checksum_ok(
                    old(self).image(p),
                ) || old(self).cache.fmt.checked) ==> legible(old(self).cache.fmt, old(self).image(p)),
        ensures
            final(self).same(old(self)),
            match r {
                Ok(rep) => {
                    let n = old(self).count() as int;
                    &&& rep.pages == n
                    &&& !old(self).cache.fmt.checked ==> {
                        &&& rep.bad_checksum@ == old(self).bad_to(n)
                        &&& rep.foreign_pages@ == old(self).foreign_to(n)
                        &&& rep.live_records == old(self).live_to(n)
                    }
                    &&& old(self).cache.fmt.checked ==> {
                        &&& forall|p: PageId| #[trigger]
                            rep.bad_checksum@.contains(p) ==> old(self).cache.unsealed(p)
                        &&& forall|p: PageId|
                            p < n && #[trigger] final(self).cache.unsealed(p)
                                ==> rep.bad_checksum@.contains(p)
                    }
                    &&& ascending_below(rep.bad_checksum@, n)
                    &&& rep.foreign_pages@ == old(self).foreign_but(rep.bad_checksum@, n)
                    &&& rep.live_records == old(self).live_but(rep.bad_checksum@, n)
                },
                Err(e) => e is Cache && !old(self).steady(),
            },
    {
        let ghost a = *self;
        let mut rep: HeapReport = HeapReport::default();
        let n: PageId = self.cache.page_count();
        let mut page: PageId = 0;
        assert(self.same(&a));
        while page < n
            invariant
                page <= n == a.count(),
                a.wf(),
                a == *old(self),
                self.same(&a),
                forall|p: PageId| #![trigger a.image(p)]
                    p < a.count() && is_heap_page(a.image(p)) && (checksum_ok(a.image(p))
                        || a.cache.fmt.checked) ==> legible(a.cache.fmt, a.image(p)),
                rep.pages == page,
                rep.live_records <= page * 0x10000,
                !a.cache.fmt.checked ==> {
                    &&& rep.bad_checksum@ == a.bad_to(page as int)
                    &&& rep.foreign_pages@ == a.foreign_to(page as int)
                    &&& rep.live_records == a.live_to(page as int)
                },
                forall|p: PageId| #[trigger] self.cache.unsealed(p) ==> a.cache.unsealed(p),
                a.cache.fmt.checked ==> forall|p: PageId| #[trigger]
                    rep.bad_checksum@.contains(p) ==> a.cache.unsealed(p),
                a.cache.fmt.checked ==> forall|p: PageId|
                    p < page && #[trigger] self.cache.unsealed(p) ==> rep.bad_checksum@.contains(p),
                ascending_below(rep.bad_checksum@, page as int),
                rep.foreign_pages@ == a.foreign_but(rep.bad_checksum@, page as int),
                rep.live_records == a.live_but(rep.bad_checksum@, page as int),
            decreases n - page,
        {
            let ghost m = *self;
            let ghost before = a.image(page);
            let sp: SlottedPage = match self.load(page) {
                Ok(sp) => sp,
                Err(e) => {
                    proof {
                        lemma_same_trans(&a, &m, self);
                    }
                    return Err(e);
                },
            };
            proof {
                lemma_same_trans(&a, &m, self);
                assert(m.image(page) == before);
                assert forall|p: PageId| #[trigger] self.cache.unsealed(p) implies a.cache.unsealed(
                    p,
                ) by {
                    assert(m.cache.unsealed(p));
                }
            }
            let ghost listed = rep.bad_checksum@;
            rep.pages = rep.pages + 1;
            let heap: bool = match sp.page_type() {
                Some(PageType::Heap) => true,
                _ => false,
            };
            proof {
                lemma_readable(a.cache.fmt, before, sp@);
                assert(!rep.bad_checksum@.contains(page));
            }
            if !sp.verify_checksum() {
                proof {
                    a.lemma_later_bad(rep.bad_checksum@, page, page as int);
                }
                let ghost bad = rep.bad_checksum@;
                rep.bad_checksum.push(page);
                assert(rep.bad_checksum@[bad.len() as int] == page);
                assert(rep.bad_checksum@.contains(page));
            } else if !heap {
                rep.foreign_pages.push(page);
            } else {
                let live: u16 = sp.live_count();
                rep.live_records = rep.live_records + live as u64;
            }
            proof {
                if a.cache.fmt.checked {
                    let bad = rep.bad_checksum@;
                    assert forall|p: PageId| #[trigger] bad.contains(p) implies a.cache.unsealed(p) by {
                        if !listed.contains(p) {
                            assert(p == page);
                            assert(m.cache.unsealed(p));
                        }
                    }
                    assert forall|p: PageId|
                        p < page + 1 && #[trigger] self.cache.unsealed(p) implies bad.contains(p) by {
                        if p < page {
                            assert(m.cache.unsealed(p));
                            assert(listed.contains(p));
                            let k = choose|k: int| 0 <= k < listed.len() && listed[k] == p;
                            assert(bad[k] == p);
                        }
                    }
                }
            }
            page = page + 1;
        }
        Ok(rep)
    }

    /// Force every dirty page to disk: the durability barrier.
    pub fn checkpoint(&mut self) -> (r: Result<(), IoError>)
        requires
            old(self).wf(),
        ensures
            final(self).same(old(self)),
            r is Ok ==> final(self).cache.all_clean() && final(self).cache.file.synced(),
            r is Err ==> !old(self).cache.steady(),
    {
        let ghost a = *self;
        let r: Result<(), IoError> = self.cache.checkpoint();
        proof {
            assert forall|i: int| 0 <= i < self.cache.dir.frames@.len() implies (
            #[trigger] self.cache.dir.frames@[i]).pins == 0 by {
                assert(a.cache.dir.frames@[i].pins == 0);
            }
            lemma_same_pages(&a, self);
        }
        r
    }

    /// Seal the insertion frontier: the next insert starts on a fresh page.
    pub fn seal(&mut self)
        ensures
            final(self).cache == old(self).cache,
            final(self).hint is None,
    {
        self.hint = None;
    }
}

proof fn lemma_readable(fmt: PageFormat, a: Seq<u8>, b: Seq<u8>)
    requires
        same_past_checksum(a, b),
        !fmt.checked ==> a == b,
    ensures
        legible(fmt, a) ==> readable(b),
        legible(fmt, a) ==> tuples_of(b) == tuples_of(a),
        b[14] == a[14],
{
    assert(b.skip(4) =~= a.skip(4));
    lemma_same_past_checksum(a, b);
    if legible(fmt, a) && fmt.checked {
        assert forall|i: int| 0 <= i < count_of(a) implies #[trigger] slot_off(
            b,
            i,
        ) == slot_off(a, i) && slot_len(b, i) == slot_len(
            a,
            i,
        ) by {}
        assert(tuples_of(b) =~= tuples_of(a)) by {
            assert forall|i: int| 0 <= i < count_of(a) implies tuples_of(b)[i]
                == tuples_of(a)[i] by {
                assert(slot_off(b, i) == slot_off(a, i));
                let o = slot_off(a, i);
                let l = slot_len(a, i);
                if o != 0 {
                    assert(b.subrange(o, o + l) =~= a.subrange(o, o + l));
                }
            }
        }
    }
}

proof fn lemma_same_kept<F: BlockFile, W: WalSync>(a: &Heap<F, W>, b: &Heap<F, W>)
    requires
        b.same(a),
    ensures
        a.sound() ==> b.sound(),
        a.checksummed() ==> b.checksummed(),
{
    assert forall|p: PageId| p < b.count() implies #[trigger] b.image(p) == a.image(p) by {}
}

proof fn lemma_same_trans<F: BlockFile, W: WalSync>(
    a: &Heap<F, W>,
    m: &Heap<F, W>,
    b: &Heap<F, W>,
)
    requires
        m.same(a),
        b.same(m),
    ensures
        b.same(a),
{
    assert forall|p: PageId| p < a.count() implies #[trigger] b.image(p) == a.image(p) by {
        assert(m.image(p) == a.image(p));
    }
}

proof fn lemma_walk<F: BlockFile, W: WalSync>(h: &Heap<F, W>, n: int)
    requires
        0 <= n <= u32::MAX,
    ensures
        h.bad_to(n).len() == 0 <==> forall|p: PageId| #![trigger h.image(p)]
            p < n ==> checksum_ok(h.image(p)),
        h.bad_to(n).len() == 0 ==> (h.foreign_to(n).len() == 0 <==> forall|p: PageId|
            #![trigger h.image(p)]
            p < n ==> is_heap_page(h.image(p))),
    decreases n,
{
    if n > 0 {
        lemma_walk(h, n - 1);
        let q = (n - 1) as PageId;
        if h.bad_to(n).len() == 0 {
            assert(h.bad_to(n - 1).len() == 0);
            assert(checksum_ok(h.image(q)));
        } else if forall|p: PageId| #![trigger h.image(p)] p < n ==> checksum_ok(h.image(p)) {
            assert(checksum_ok(h.image(q)));
        }
        if h.bad_to(n).len() == 0 && h.foreign_to(n).len() == 0 {
            assert(is_heap_page(h.image(q)));
        }
    }
}

/// A walk reports clean exactly when every page is a heap page whose checksum
/// matches its bytes.
pub proof fn law_clean_walk_iff_every_page_verifies<F: BlockFile, W: WalSync>(h: &Heap<F, W>)
    ensures
        h.bad_to(h.count() as int).len() == 0 && h.foreign_to(h.count() as int).len() == 0 <==> (
        forall|p: PageId| #![trigger h.image(p)]
            p < h.count() ==> checksum_ok(h.image(p)) && is_heap_page(h.image(p))),
{
    lemma_walk(h, h.count() as int);
    if forall|p: PageId| #![trigger h.image(p)]
        p < h.count() ==> checksum_ok(h.image(p)) && is_heap_page(h.image(p)) {
        assert(forall|p: PageId| #![trigger h.image(p)] p < h.count() ==> checksum_ok(h.image(p)));
        assert(forall|p: PageId| #![trigger h.image(p)] p < h.count() ==> is_heap_page(h.image(p)));
    }
}

proof fn lemma_live_pairs(ts: Seq<Option<Seq<u8>>>, s: SlotId, d: Seq<u8>)
    requires
        ts.len() <= 0x10000,
    ensures
        live_pairs(ts).contains((s, d)) <==> s < ts.len() && ts[s as int] == Some(d),
    decreases ts.len(),
{
    if ts.len() > 0 {
        let init = ts.drop_last();
        lemma_live_pairs(init, s, d);
        let lp = live_pairs(init);
        let last = (ts.len() - 1) as u16;
        match ts.last() {
            Some(e) => {
                let np = lp.push((last, e));
                assert(live_pairs(ts) == np);
                if lp.contains((s, d)) {
                    let k = lp.index_of((s, d));
                    assert(np[k] == (s, d));
                }
                if (s, d) == (last, e) {
                    assert(np[lp.len() as int] == (s, d));
                }
                if np.contains((s, d)) {
                    let k = np.index_of((s, d));
                    if k < lp.len() {
                        assert(lp[k] == (s, d));
                    }
                }
            },
            None => {},
        }
    }
}

proof fn lemma_records_to<F: BlockFile, W: WalSync>(h: &Heap<F, W>, n: int, rid: Rid, d: Seq<u8>)
    requires
        0 <= n <= h.count(),
        h.sound(),
    ensures
        h.records_to(n).contains((rid, d)) <==> rid.page < n && h.record(rid) == Some(d),
    decreases n,
{
    if n > 0 {
        lemma_records_to(h, n - 1, rid, d);
        let p = (n - 1) as PageId;
        let b = h.image(p);
        assert(page_wf(b) && is_heap_page(b));
        let a = h.records_to(n - 1);
        let f = |x: (SlotId, Seq<u8>)| (Rid { page: p, slot: x.0 }, x.1);
        let lp = live_pairs(tuples_of(b));
        let z = lp.map_values(f);
        let all = a + z;
        assert(h.records_to(n) == all);
        lemma_live_pairs(tuples_of(b), rid.slot, d);
        if a.contains((rid, d)) {
            let k = a.index_of((rid, d));
            assert(all[k] == (rid, d));
        }
        if lp.contains((rid.slot, d)) && rid.page == p {
            let k = lp.index_of((rid.slot, d));
            assert(z[k] == (rid, d));
            assert(all[a.len() + k] == (rid, d));
        }
        if all.contains((rid, d)) {
            let k = all.index_of((rid, d));
            if k < a.len() {
                assert(a[k] == (rid, d));
            } else {
                let x = lp[k - a.len()];
                assert(z[k - a.len()] == f(x));
                assert(x == (rid.slot, d) && rid.page == p);
            }
        }
    }
}

/// A scan of a sound heap returns exactly the records there are.
pub proof fn law_scan_returns_the_records<F: BlockFile, W: WalSync>(
    h: &Heap<F, W>,
    rid: Rid,
    d: Seq<u8>,
)
    requires
        h.sound(),
    ensures
        h.records_to(h.count() as int).contains((rid, d)) <==> h.record(rid) == Some(d),
{
    lemma_records_to(h, h.count() as int, rid, d);
}

/// What a checkpointed heap holds is there when its file is opened again.
pub proof fn law_checkpointed_records_survive_reopen<F: BlockFile, W: WalSync>(
    a: &Heap<F, W>,
    b: &Heap<F, W>,
    rid: Rid,
)
    requires
        a.wf(),
        a.cache.all_clean(),
        b.cache.dir.map@ == Map::<PageId, usize>::empty(),
        b.cache.file.image() == a.cache.file.image(),
        b.cache.fmt == a.cache.fmt,
        b.count() == b.cache.file.image().len() as int / PAGE_SIZE as int,
    ensures
        b.count() >= a.count(),
        rid.page < a.count() ==> b.record(rid) == a.record(rid),
{
    if a.count() > 0 {
        let last = (a.count() - 1) as PageId;
        assert(a.cache.content(last) is Some);
        law_checkpoint_survives_reopen(&a.cache, &b.cache, last);
        assert(b.cache.good(last));
        assert(offset_of(last) + PAGE_SIZE <= b.cache.file.image().len());
    }
    if rid.page < a.count() {
        assert(a.cache.content(rid.page) is Some);
        law_checkpoint_survives_reopen(&a.cache, &b.cache, rid.page);
    }
}

} // verus!
