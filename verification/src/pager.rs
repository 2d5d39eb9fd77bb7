//! Pages by number: the face that the heap and the B-tree see of a page cache.

use vstd::prelude::*;

use crate::buffer::{
    body_of, BufferError, BufferPool, PageId, ReadGuard, WalSync, WriteGuard,
};
use crate::bytes::copy_bytes;
use crate::cbuffer::dir::open_slots;
use crate::cbuffer::{CacheError, PageCache, PageFormat};
use crate::page::{
    free_end_of, lemma_same_past_checksum, page_wf, raw, same_past_checksum, tuples_of,
    PageBuf, PageType, SlottedPage, PAGE_FORMAT_VERSION, PAGE_SIZE,
};
use crate::vfs::BlockFile;

verus! {

/// Errors from a pager.
pub type PagerError = BufferError;

/// A page with the given contents past its checksum field.
pub open spec fn full(body: Seq<u8>) -> Seq<u8> {
    seq![0u8, 0u8, 0u8, 0u8] + body
}

/// Every page of `a` is one of `b`, with the same contents.
pub open spec fn kept(a: Map<PageId, Seq<u8>>, b: Map<PageId, Seq<u8>>) -> bool {
    forall|p: PageId| #[trigger]
        a.dom().contains(p) ==> b.dom().contains(p) && b[p] == a[p]
}

/// Page `pid` held `b` in place of which it now holds `c`; the others are kept.
pub open spec fn page_swapped(
    before: Map<PageId, Seq<u8>>,
    after: Map<PageId, Seq<u8>>,
    pid: PageId,
    b: Seq<u8>,
    c: Seq<u8>,
) -> bool {
    &&& b.len() == PAGE_SIZE
    &&& before.dom().contains(pid) ==> body_of(b) == before[pid]
    &&& kept(before.insert(pid, body_of(c)), after)
}

/// The contents of a freshly formatted slotted page.
pub open spec fn fresh_body(body: Seq<u8>, t: PageType) -> bool {
    &&& body.len() == PAGE_SIZE - 4
    &&& page_wf(full(body))
    &&& tuples_of(full(body)) == Seq::<Option<Seq<u8>>>::empty()
    &&& free_end_of(full(body)) == PAGE_SIZE
    &&& full(body)[14] == t.byte()
    &&& full(body)[15] == PAGE_FORMAT_VERSION
    &&& forall|i: int| 32 <= i < PAGE_SIZE ==> #[trigger] full(body)[i] == 0
}

pub proof fn lemma_full(page: Seq<u8>)
    requires
        page.len() == PAGE_SIZE,
    ensures
        full(body_of(page)).len() == PAGE_SIZE,
        body_of(page).len() == PAGE_SIZE - 4,
        same_past_checksum(page, full(body_of(page))),
        same_past_checksum(full(body_of(page)), page),
        body_of(full(body_of(page))) == body_of(page),
{
    assert(body_of(full(body_of(page))) =~= body_of(page));
}

/// Nothing fails but for want of a page, while no more than `n` pages are added.
pub open spec fn holds_out<P: Pager>(bp: &P, n: int) -> bool {
    bp.count() + n <= bp.reach()
}

/// Pages by number.
pub trait Pager: Sized {
    spec fn pager_ok(&self) -> bool;

    /// What each page holds past its checksum field.
    spec fn pages(&self) -> Map<PageId, Seq<u8>>;

    /// How many page numbers were handed out.
    spec fn count(&self) -> PageId;

    /// How many pages there may be before a call can fail but for want of a page; negative
    /// where the device can fail.
    spec fn reach(&self) -> int;

    /// Page `p` cannot be had, now or after other pages are read.
    spec fn lost(&self, p: PageId) -> bool;

    /// Pages are as long as pages are, and were handed out; none of them is lost, and
    /// whatever was not handed out is.
    proof fn lemma_pages(&self)
        requires
            self.pager_ok(),
        ensures
            forall|p: PageId| #[trigger] self.lost(p) ==> !self.pages().dom().contains(p),
            forall|p: PageId| p >= self.count() ==> #[trigger] self.lost(p),
            forall|p: PageId| #[trigger]
                self.pages().dom().contains(p) ==> p < self.count() && self.pages()[p].len()
                    == PAGE_SIZE - 4,
    ;

    fn page_count(&self) -> (n: PageId)
        requires
            self.pager_ok(),
        ensures
            n == self.count(),
    ;

    /// A copy of page `pid`.
    fn read_page(&mut self, pid: PageId) -> (r: Result<Vec<u8>, PagerError>)
        requires
            old(self).pager_ok(),
        ensures
            final(self).pager_ok(),
            final(self).reach() == old(self).reach(),
            final(self).count() == old(self).count(),
            kept(old(self).pages(), final(self).pages()),
            r matches Ok(b) ==> {
                &&& b@.len() == PAGE_SIZE
                &&& final(self).pages().dom().contains(pid)
                &&& body_of(b@) == final(self).pages()[pid]
            },
            old(self).lost(pid) ==> r is Err,
            forall|p: PageId| #[trigger] old(self).lost(p) ==> final(self).lost(p),
            old(self).count() <= old(self).reach() && old(self).pages().dom().contains(pid) ==> r is Ok,
            old(self).count() <= old(self).reach() && old(self).lost(pid) && pid < old(self).count() ==> r == Err::<
                Vec<u8>,
                PagerError,
            >(BufferError::Corrupt(pid)),
    ;

    /// Hand page `pid` to `f` and put what it makes of it in its place. The page is marked
    /// as changed whatever that is.
    fn with_page_mut<T, G: FnOnce(Vec<u8>) -> (Vec<u8>, T)>(&mut self, pid: PageId, f: G) -> (r:
        Result<T, PagerError>)
        requires
            old(self).pager_ok(),
            forall|b: Vec<u8>|
                b@.len() == PAGE_SIZE && !old(self).lost(pid) && (old(self).pages().dom().contains(pid)
                    ==> body_of(b@) == old(self).pages()[pid]) ==> #[trigger] f.requires((b,)),
            forall|b: Vec<u8>, c: Vec<u8>, t: T| #[trigger]
                f.ensures((b,), (c, t)) ==> c@.len() == PAGE_SIZE,
        ensures
            final(self).pager_ok(),
            final(self).reach() == old(self).reach(),
            final(self).count() == old(self).count(),
            match r {
                Ok(t) => exists|b: Vec<u8>, c: Vec<u8>| #[trigger]
                    page_swapped(old(self).pages(), final(self).pages(), pid, b@, c@) && f.ensures(
                        (b,),
                        (c, t),
                    ),
                Err(_) => kept(old(self).pages(), final(self).pages()),
            },
            old(self).lost(pid) ==> r is Err,
            old(self).count() <= old(self).reach() && old(self).pages().dom().contains(pid) ==> r is Ok,
    ;

    /// Allocate a fresh slotted page.
    fn alloc_slotted(&mut self, t: PageType) -> (r: Result<PageId, PagerError>)
        requires
            old(self).pager_ok(),
            old(self).count() < u32::MAX,
        ensures
            final(self).pager_ok(),
            final(self).reach() == old(self).reach(),
            kept(old(self).pages(), final(self).pages()),
            old(self).count() <= final(self).count() <= old(self).count() + 1,
            r matches Ok(pid) ==> {
                &&& pid == old(self).count()
                &&& final(self).count() == old(self).count() + 1
                &&& final(self).pages().dom().contains(pid)
                &&& fresh_body(final(self).pages()[pid], t)
            },
            old(self).count() + 1 <= old(self).reach() ==> r is Ok,
    ;

    /// Allocate a fresh page that is blank but for its header.
    fn alloc_raw(&mut self, t: PageType) -> (r: Result<PageId, PagerError>)
        requires
            old(self).pager_ok(),
            old(self).count() < u32::MAX,
        ensures
            final(self).pager_ok(),
            final(self).reach() == old(self).reach(),
            kept(old(self).pages(), final(self).pages()),
            old(self).count() <= final(self).count() <= old(self).count() + 1,
            r matches Ok(pid) ==> {
                &&& pid == old(self).count()
                &&& final(self).count() == old(self).count() + 1
                &&& final(self).pages().dom().contains(pid)
                &&& final(self).pages()[pid] == body_of(raw::blank_page(t))
            },
            old(self).count() + 1 <= old(self).reach() ==> r is Ok,
    ;
}

impl<F: BlockFile, W: WalSync> BufferPool<F, W> {
    /// No view is live.
    pub open spec fn idle(&self) -> bool {
        forall|i: int| 0 <= i < self.frames@.len() ==> (#[trigger] self.frames@[i]).pin == 0
    }
}

/// Different numbers below `m` are no more than `m`.
pub proof fn lemma_distinct_below(ps: Seq<int>, m: int)
    requires
        ps.no_duplicates(),
        0 <= m,
        forall|i: int| 0 <= i < ps.len() ==> 0 <= #[trigger] ps[i] < m,
    ensures
        ps.len() <= m,
{
    ps.unique_seq_to_set();
    vstd::set_lib::lemma_int_range(0, m);
    assert(ps.to_set().subset_of(vstd::set_lib::set_int_range(0, m)));
    vstd::set_lib::lemma_len_subset(ps.to_set(), vstd::set_lib::set_int_range(0, m));
}

/// In an idle pool a frame can be had for a page, be it new or not: if dirty pages must
/// stay, as long as there are no more pages than frames.
proof fn lemma_idle_has_victim<F: BlockFile, W: WalSync>(p: &BufferPool<F, W>, pid: PageId)
    requires
        p.wf(),
        p.idle(),
        !p.resident_in(pid),
        p.steal || pid < p.next_page && p.next_page <= p.frames@.len() || p.next_page
            < p.frames@.len(),
    ensures
        p.has_victim(),
{
    assert(p.frames@[0].pin == 0);
    if p.steal {
        assert(crate::buffer::evictable(p.frames@, p.steal)[0]);
    } else if !p.has_victim() {
        let n = p.frames@.len() as int;
        assert forall|i: int| 0 <= i < n implies (#[trigger] p.frames@[i]).dirty
            && p.frames@[i].page_id is Some by {
            assert(p.frame_ok(i));
            assert(!crate::buffer::evictable(p.frames@, p.steal)[i]);
            assert(p.frames@[i].pin == 0);
        }
        let ps = Seq::new(n as nat, |i: int| p.frames@[i].page_id->0 as int);
        assert forall|i: int| 0 <= i < n implies 0 <= #[trigger] ps[i] < p.next_page && ps[i]
            != pid by {
            assert(p.frame_ok(i));
            assert(p.frames@[i].page_id is Some);
        }
        assert forall|i: int, j: int| 0 <= i < n && 0 <= j < n && i != j implies ps[i] != ps[j] by {
            assert(p.frame_ok(i) && p.frame_ok(j));
            assert(p.frames@[i].page_id is Some && p.frames@[j].page_id is Some);
        }
        lemma_distinct_below(ps, p.next_page as int);
        if pid < p.next_page {
            lemma_distinct_below(ps.push(pid as int), p.next_page as int);
        }
    }
}

proof fn lemma_kept<F: BlockFile, W: WalSync>(a: &BufferPool<F, W>, b: &BufferPool<F, W>)
    requires
        b.keeps(a),
    ensures
        kept(a.pages(), b.pages()),
{
    assert forall|p: PageId| #[trigger] a.pages().dom().contains(p) implies b.pages().dom().contains(
        p,
    ) && b.pages()[p] == a.pages()[p] by {
        assert(a.content(p) is Some);
    }
}

impl<F: BlockFile, W: WalSync> Pager for BufferPool<F, W> {
    open spec fn pager_ok(&self) -> bool {
        self.wf() && self.idle()
    }

    open spec fn pages(&self) -> Map<PageId, Seq<u8>> {
        Map::new(|p: PageId| self.content(p) is Some, |p: PageId| self.content(p)->0)
    }

    open spec fn count(&self) -> PageId {
        self.next_page
    }

    open spec fn reach(&self) -> int {
        if !self.steady() {
            -1
        } else if self.steal {
            u32::MAX as int
        } else {
            self.frames@.len() as int
        }
    }

    open spec fn lost(&self, p: PageId) -> bool {
        p >= self.next_page || self.damaged(p)
    }

    proof fn lemma_pages(&self) {
        assert forall|p: PageId| #[trigger] self.pages().dom().contains(p) implies p < self.count()
            && self.pages()[p].len() == PAGE_SIZE - 4 by {
            assert(self.content(p) is Some);
            if self.resident_in(p) {
                assert(self.frame_ok(self.table@[p] as int));
            }
        }
    }

    fn page_count(&self) -> (n: PageId) {
        self.next_page
    }

    fn read_page(&mut self, pid: PageId) -> (r: Result<Vec<u8>, PagerError>) {
        let ghost a = *self;
        proof {
            lemma_may_fetch(self, pid);
        }
        let g: ReadGuard = match self.fetch_read(pid) {
            Ok(g) => g,
            Err(e) => {
                proof {
                    lemma_kept(&a, self);
                    lemma_not_refused(&a, self, pid, e);
                    assert(a.damaged(pid) ==> self.damaged(pid));
                    assert forall|i: int| 0 <= i < self.frames@.len() implies (
                    #[trigger] self.frames@[i]).pin == 0 by {
                        assert(self.pinned_alike(&a, i));
                    }
                }
                return Err(e);
            },
        };
        let b: Vec<u8> = copy_bytes(g.bytes(self));
        let ghost mid = *self;
        let ghost at = g.frame as int;
        self.release_read(g);
        proof {
            lemma_kept_on(&a, &mid, self);
            assert(self.content(pid) == mid.content(pid));
            assert(a.damaged(pid) ==> mid.damaged(pid));
            assert forall|i: int| 0 <= i < self.frames@.len() implies (
            #[trigger] self.frames@[i]).pin == 0 by {
                if i != at {
                    assert(mid.pinned_alike(&a, i));
                }
            }
            self.lemma_pages();
            assert(self.pages().dom().contains(pid));
        }
        Ok(b)
    }

    fn with_page_mut<T, G: FnOnce(Vec<u8>) -> (Vec<u8>, T)>(&mut self, pid: PageId, f: G) -> (r:
        Result<T, PagerError>) {
        let ghost a = *self;
        proof {
            lemma_may_fetch(self, pid);
        }
        let g: WriteGuard = match self.fetch_write(pid) {
            Ok(g) => g,
            Err(e) => {
                proof {
                    lemma_kept(&a, self);
                    lemma_not_refused(&a, self, pid, e);
                    assert forall|i: int| 0 <= i < self.frames@.len() implies (
                    #[trigger] self.frames@[i]).pin == 0 by {
                        assert(self.pinned_alike(&a, i));
                    }
                }
                return Err(e);
            },
        };
        let ghost at = g.frame as int;
        let ghost mid = *self;
        let b: Vec<u8> = copy_bytes(g.bytes(self));
        proof {
            assert(mid.frame_ok(at));
            assert(a.damaged(pid) ==> mid.damaged(pid));
            assert(mid.content(pid) == Some(body_of(b@)));
            assert(a.pages().dom().contains(pid) ==> a.content(pid) is Some);
        }
        let ghost seen = b;
        let (c, t): (Vec<u8>, T) = f(b);
        g.page_mut(self, c.as_slice());
        let ghost put = *self;
        self.release_write(g);
        proof {
            let want = a.pages().insert(pid, body_of(c@));
            assert forall|p: PageId| #[trigger] want.dom().contains(p) implies self.pages().dom().contains(
                p,
            ) && self.pages()[p] == want[p] by {
                assert(self.content(p) == put.content(p));
                if p != pid {
                    assert(a.content(p) is Some);
                    assert(put.content(p) == mid.content(p));
                    assert(mid.content(p) == a.content(p));
                }
            }
            assert forall|i: int| 0 <= i < self.frames@.len() implies (
            #[trigger] self.frames@[i]).pin == 0 by {
                if i != at {
                    assert(mid.pinned_alike(&a, i));
                }
            }
            assert(page_swapped(a.pages(), self.pages(), pid, seen@, c@));
        }
        Ok(t)
    }

    fn alloc_slotted(&mut self, t: PageType) -> (r: Result<PageId, PagerError>) {
        let ghost a = *self;
        proof {
            lemma_may_add(self);
        }
        let (pid, g): (PageId, WriteGuard) = match self.new_page(t) {
            Ok(x) => x,
            Err(e) => {
                proof {
                    lemma_kept(&a, self);
                    assert forall|i: int| 0 <= i < self.frames@.len() implies (
                    #[trigger] self.frames@[i]).pin == 0 by {
                        assert(self.pinned_alike(&a, i));
                    }
                }
                return Err(e);
            },
        };
        let ghost mid = *self;
        let ghost at = g.frame as int;
        self.release_write(g);
        proof {
            lemma_kept_on(&a, &mid, self);
            assert(self.content(pid) == mid.content(pid));
            let page = mid.frame_of(pid).page@;
            lemma_full(page);
            lemma_same_past_checksum(page, full(body_of(page)));
            assert(self.pages()[pid] == body_of(page));
            assert forall|i: int| 0 <= i < self.frames@.len() implies (
            #[trigger] self.frames@[i]).pin == 0 by {
                if i != at {
                    assert(mid.pinned_alike(&a, i));
                }
            }
        }
        Ok(pid)
    }

    fn alloc_raw(&mut self, t: PageType) -> (r: Result<PageId, PagerError>) {
        let ghost a = *self;
        proof {
            lemma_may_add(self);
        }
        let (pid, g): (PageId, WriteGuard) = match self.new_page_raw(t) {
            Ok(x) => x,
            Err(e) => {
                proof {
                    lemma_kept(&a, self);
                    assert forall|i: int| 0 <= i < self.frames@.len() implies (
                    #[trigger] self.frames@[i]).pin == 0 by {
                        assert(self.pinned_alike(&a, i));
                    }
                }
                return Err(e);
            },
        };
        let ghost mid = *self;
        let ghost at = g.frame as int;
        self.release_write(g);
        proof {
            lemma_kept_on(&a, &mid, self);
            assert(self.content(pid) == mid.content(pid));
            assert forall|i: int| 0 <= i < self.frames@.len() implies (
            #[trigger] self.frames@[i]).pin == 0 by {
                if i != at {
                    assert(mid.pinned_alike(&a, i));
                }
            }
        }
        Ok(pid)
    }
}

/// No view is in the way of a fetch, and a frame can be had.
proof fn lemma_may_fetch<F: BlockFile, W: WalSync>(p: &BufferPool<F, W>, pid: PageId)
    requires
        p.pager_ok(),
    ensures
        p.resident_in(pid) ==> p.frame_of(pid).pin == 0 && !p.frame_of(pid).writer,
        !p.resident_in(pid) && pid < p.next_page && p.next_page <= p.reach() ==> p.has_victim(),
{
    if p.resident_in(pid) {
        assert(p.frame_ok(p.table@[pid] as int));
        assert(p.frames@[p.table@[pid] as int].pin == 0);
    } else if pid < p.next_page && p.next_page <= p.reach() {
        lemma_idle_has_victim(p, pid);
    }
}

/// A frame can be had for a new page.
proof fn lemma_may_add<F: BlockFile, W: WalSync>(p: &BufferPool<F, W>)
    requires
        p.pager_ok(),
        p.next_page < u32::MAX,
    ensures
        p.next_page + 1 <= p.reach() ==> p.has_victim(),
{
    if p.next_page + 1 <= p.reach() {
        let pid = p.next_page;
        if p.resident_in(pid) {
            assert(p.frame_ok(p.table@[pid] as int));
        }
        lemma_idle_has_victim(p, pid);
    }
}

/// Where nothing fails, a page that can be had is not refused.
proof fn lemma_not_refused<F: BlockFile, W: WalSync>(
    a: &BufferPool<F, W>,
    b: &BufferPool<F, W>,
    pid: PageId,
    e: BufferError,
)
    requires
        b.keeps(a),
        b.refused(a, pid, e),
        !a.resident_in(pid),
        pid < a.next_page && a.next_page <= a.reach() ==> a.has_victim(),
        a.wf(),
        !b.resident_in(pid),
    ensures
        !(a.next_page <= a.reach() && a.pages().dom().contains(pid)),
{
    if a.next_page <= a.reach() && a.pages().dom().contains(pid) {
        a.lemma_pages();
        assert(a.content(pid) is Some);
        assert(b.content(pid) == a.content(pid));
    }
}

proof fn lemma_kept_on<F: BlockFile, W: WalSync>(
    a: &BufferPool<F, W>,
    mid: &BufferPool<F, W>,
    b: &BufferPool<F, W>,
)
    requires
        mid.keeps(a),
        forall|p: PageId| #[trigger] b.content(p) == mid.content(p),
    ensures
        kept(a.pages(), b.pages()),
{
    assert forall|p: PageId| #[trigger] a.pages().dom().contains(p) implies b.pages().dom().contains(
        p,
    ) && b.pages()[p] == a.pages()[p] by {
        assert(a.content(p) is Some);
        assert(b.content(p) == mid.content(p));
    }
}

// ---- the concurrent cache as a pager ----

pub open spec fn pager_error(e: CacheError) -> PagerError {
    match e {
        CacheError::Io(e) => BufferError::Io(e),
        CacheError::Exhausted => BufferError::Exhausted,
        CacheError::Corrupt(p) => BufferError::Corrupt(p),
    }
}

fn as_pager_error(e: CacheError) -> (r: PagerError)
    ensures
        r == pager_error(e),
{
    match e {
        CacheError::Io(e) => BufferError::Io(e),
        CacheError::Exhausted => BufferError::Exhausted,
        CacheError::Corrupt(p) => BufferError::Corrupt(p),
    }
}

proof fn lemma_cache_kept<F: BlockFile, W: WalSync>(a: &PageCache<F, W>, b: &PageCache<F, W>)
    requires
        b.keeps(a),
    ensures
        kept(a.pages(), b.pages()),
{
    assert forall|p: PageId| #[trigger] a.pages().dom().contains(p) implies b.pages().dom().contains(
        p,
    ) && b.pages()[p] == a.pages()[p] by {
        assert(a.content(p) is Some);
    }
}

/// In an idle cache a frame can be had for a page, be it new or not: if dirty pages must
/// stay, as long as there are no more pages than frames.
proof fn lemma_cache_has_victim<F: BlockFile, W: WalSync>(c: &PageCache<F, W>, pid: PageId)
    requires
        c.wf(),
        c.idle(),
        !c.resident(pid),
        c.dir.steal || pid < c.dir.next_page && c.dir.next_page <= c.dir.frames@.len()
            || c.dir.next_page < c.dir.frames@.len(),
    ensures
        c.dir.has_victim(),
{
    let frames = c.dir.frames@;
    assert(frames[0].pins == 0);
    assert(frames[0].incoming is None);
    if c.dir.steal {
        assert(open_slots(frames, c.dir.steal)[0]);
    } else if !c.dir.has_victim() {
        let n = frames.len() as int;
        assert forall|i: int| 0 <= i < n implies (#[trigger] frames[i]).dirty
            && frames[i].pid is Some by {
            assert(c.dir.slot_ok(i));
            assert(!open_slots(frames, c.dir.steal)[i]);
            assert(frames[i].pins == 0);
            assert(frames[i].incoming is None);
        }
        let ps = Seq::new(n as nat, |i: int| frames[i].pid->0 as int);
        assert forall|i: int| 0 <= i < n implies 0 <= #[trigger] ps[i] < c.dir.next_page && ps[i]
            != pid by {
            assert(c.dir.slot_ok(i));
            assert(frames[i].pid is Some);
        }
        assert forall|i: int, j: int| 0 <= i < n && 0 <= j < n && i != j implies ps[i] != ps[j] by {
            assert(c.dir.slot_ok(i) && c.dir.slot_ok(j));
            assert(frames[i].pid is Some && frames[j].pid is Some);
        }
        lemma_distinct_below(ps, c.dir.next_page as int);
        if pid < c.dir.next_page {
            lemma_distinct_below(ps.push(pid as int), c.dir.next_page as int);
        }
    }
}

/// A page that can be had is resident, or a frame can be had for it.
proof fn lemma_cache_may_fetch<F: BlockFile, W: WalSync>(c: &PageCache<F, W>, pid: PageId)
    requires
        c.pager_ok(),
    ensures
        pid < c.dir.next_page && c.dir.next_page <= c.reach() ==> c.resident(pid)
            || c.dir.has_victim(),
        c.dir.next_page + 1 <= c.reach() && c.dir.next_page < u32::MAX ==> c.dir.has_victim(),
{
    if pid < c.dir.next_page && c.dir.next_page <= c.reach() && !c.resident(pid) {
        lemma_cache_has_victim(c, pid);
    }
    if c.dir.next_page + 1 <= c.reach() && c.dir.next_page < u32::MAX {
        let fresh = c.dir.next_page;
        if c.resident(fresh) {
            assert(c.dir.frames@[c.dir.map@[fresh] as int].incoming is None);
            assert(c.dir.slot_ok(c.dir.map@[fresh] as int));
        }
        lemma_cache_has_victim(c, fresh);
    }
}

impl<F: BlockFile, W: WalSync> Pager for PageCache<F, W> {
    open spec fn pager_ok(&self) -> bool {
        &&& self.wf()
        &&& self.idle()
        &&& self.fmt == (PageFormat { lsn_at: Some(4), checked: true })
    }

    open spec fn pages(&self) -> Map<PageId, Seq<u8>> {
        Map::new(|p: PageId| self.content(p) is Some, |p: PageId| self.content(p)->0)
    }

    open spec fn count(&self) -> PageId {
        self.dir.next_page
    }

    open spec fn reach(&self) -> int {
        if !self.steady() {
            -1
        } else if self.dir.steal {
            u32::MAX as int
        } else {
            self.dir.frames@.len() as int
        }
    }

    open spec fn lost(&self, p: PageId) -> bool {
        p >= self.dir.next_page || self.damaged(p)
    }

    proof fn lemma_pages(&self) {
        assert forall|p: PageId| #[trigger] self.pages().dom().contains(p) implies p < self.count()
            && self.pages()[p].len() == PAGE_SIZE - 4 by {
            assert(self.content(p) is Some);
            if self.resident(p) {
                let i = self.dir.map@[p] as int;
                assert(self.dir.frames@[i].incoming is None);
                assert(self.dir.slot_ok(i));
                assert(self.bufs@[i]@.len() == PAGE_SIZE);
            }
        }
    }

    fn page_count(&self) -> (n: PageId) {
        self.dir.next_page
    }

    fn read_page(&mut self, pid: PageId) -> (r: Result<Vec<u8>, PagerError>) {
        let ghost a = *self;
        proof {
            self.lemma_pages();
            lemma_cache_may_fetch(self, pid);
        }
        match self.copy_of(pid) {
            Ok(b) => {
                proof {
                    lemma_cache_kept(&a, self);
                    assert(self.content(pid) is Some);
                    assert(a.damaged(pid) ==> self.damaged(pid));
                    self.lemma_pages();
                    assert(self.pages().dom().contains(pid));
                }
                Ok(b)
            },
            Err(e) => {
                proof {
                    lemma_cache_kept(&a, self);
                    assert(a.pages().dom().contains(pid) ==> a.content(pid) is Some);
                }
                Err(as_pager_error(e))
            },
        }
    }

    fn with_page_mut<T, G: FnOnce(Vec<u8>) -> (Vec<u8>, T)>(&mut self, pid: PageId, f: G) -> (r:
        Result<T, PagerError>) {
        let ghost a = *self;
        proof {
            self.lemma_pages();
            lemma_cache_may_fetch(self, pid);
            assert forall|b: Vec<u8>|
                b@.len() == PAGE_SIZE && !a.damaged(pid) && pid < a.dir.next_page && (a.content(
                    pid,
                ) is Some ==> a.content(pid) == Some(a.fmt.gist(b@))) implies #[trigger] f.requires(
                (b,),
            ) by {
                assert(a.pages().dom().contains(pid) ==> a.content(pid) is Some);
            }
        }
        match self.edit(pid, f) {
            Ok(t) => {
                proof {
                    let (b, c): (Vec<u8>, Vec<u8>) = choose|b: Vec<u8>, c: Vec<u8>|
                        #[trigger] self.edited(&a, pid, b@, c@) && f.ensures((b,), (c, t));
                    let want = a.pages().insert(pid, body_of(c@));
                    assert forall|p: PageId| #[trigger] want.dom().contains(p) implies self.pages().dom().contains(
                        p,
                    ) && self.pages()[p] == want[p] by {
                        if p != pid {
                            assert(a.content(p) is Some);
                        }
                        assert(self.content(p) is Some);
                    }
                    assert(a.pages().dom().contains(pid) ==> a.content(pid) is Some);
                    assert(page_swapped(a.pages(), self.pages(), pid, b@, c@));
                }
                Ok(t)
            },
            Err(e) => {
                proof {
                    lemma_cache_kept(&a, self);
                    assert(a.pages().dom().contains(pid) ==> a.content(pid) is Some);
                }
                Err(as_pager_error(e))
            },
        }
    }

    fn alloc_slotted(&mut self, t: PageType) -> (r: Result<PageId, PagerError>) {
        let ghost a = *self;
        proof {
            lemma_cache_may_fetch(self, 0);
        }
        let page: SlottedPage = SlottedPage::init(PageBuf::zeroed(), t);
        match self.append(page.as_bytes()) {
            Ok(pid) => {
                proof {
                    lemma_cache_kept(&a, self);
                    lemma_full(page@);
                    lemma_same_past_checksum(page@, full(body_of(page@)));
                    assert(self.content(pid) is Some);
                }
                Ok(pid)
            },
            Err(e) => {
                proof {
                    lemma_cache_kept(&a, self);
                }
                Err(as_pager_error(e))
            },
        }
    }

    fn alloc_raw(&mut self, t: PageType) -> (r: Result<PageId, PagerError>) {
        let ghost a = *self;
        proof {
            lemma_cache_may_fetch(self, 0);
        }
        let mut page: Vec<u8> = vec![0u8; PAGE_SIZE];
        raw::init_header(page.as_mut_slice(), t);
        match self.append(page.as_slice()) {
            Ok(pid) => {
                proof {
                    lemma_cache_kept(&a, self);
                    assert(self.content(pid) is Some);
                }
                Ok(pid)
            },
            Err(e) => {
                proof {
                    lemma_cache_kept(&a, self);
                }
                Err(as_pager_error(e))
            },
        }
    }
}

} // verus!
