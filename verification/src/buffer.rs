//! The buffer pool: frames, a page table, CLOCK replacement, and pins.
//!
//! A page is reached only through a [`ReadGuard`] or [`WriteGuard`], which pin its
//! frame until they are given back. A pinned frame can't be evicted, so a live
//! guard's page can't move under it.
//!
//! The one invariant this module exists to guard is **WAL-before-data**: a dirty
//! page may not be written to disk until the log is durable through that page's
//! LSN. It lives in exactly one place ([`BufferPool::flush_frame`]) as one check,
//! behind the [`WalSync`] seam.

use std::collections::HashMap;

use vstd::prelude::*;

use crate::bytes::{copy_bytes, le64, rd_u64, splice, zero_fill};
use crate::clock;
use crate::faultfs::{
    crash_image, law_synced_disk_survives_a_crash, ops_of, plan_ok, FateView, FaultDisk,
};
use crate::page::{
    checksum_ok, fresh_page, lemma_stamped, raw, stamped, PageBuf, PageType, SlottedPage,
    PAGE_SIZE,
};
use crate::sets::map_keys;
use crate::text::{around, decimal};
use crate::vfs::{differs_only_at, overwritten, BlockFile, IoError};

verus! {

broadcast use vstd::std_specs::hash::group_hash_axioms;

/// A page number within a data file.
pub type PageId = u32;

/// Where page `pid` lies in the file.
pub open spec fn offset_of(pid: PageId) -> int {
    pid * 8192
}

pub(crate) fn page_offset(pid: PageId) -> (o: u64)
    ensures
        o == offset_of(pid),
        o + PAGE_SIZE <= 0x2000_0000_0000,
{
    pid as u64 * 8192
}

/// The file holds all of page `pid`.
pub open spec fn has_page(image: Seq<u8>, pid: PageId) -> bool {
    offset_of(pid) + PAGE_SIZE <= image.len()
}

/// Page `pid` as the file holds it.
pub open spec fn page_at(image: Seq<u8>, pid: PageId) -> Seq<u8> {
    image.subrange(offset_of(pid), offset_of(pid) + PAGE_SIZE)
}

/// The file is made of whole pages, and the log is durable through the LSN of each of
/// them that verifies.
#[verifier::opaque]
pub open spec fn ahead(image: Seq<u8>, flushed: u64) -> bool {
    &&& image.len() % PAGE_SIZE as nat == 0
    &&& forall|p: PageId| #[trigger]
        page_good(image, p) ==> le64(page_at(image, p), 4) <= flushed
}

/// The file holds page `pid`, and it verifies.
pub open spec fn page_good(image: Seq<u8>, pid: PageId) -> bool {
    has_page(image, pid) && checksum_ok(page_at(image, pid))
}

/// Everything of a page but its checksum field, which is brought up to date only
/// when the page is written to disk.
pub open spec fn body_of(page: Seq<u8>) -> Seq<u8> {
    page.subrange(4, PAGE_SIZE as int)
}

/// The seam through which the pool asks "is the log durable enough to write this
/// page?".
pub trait WalSync: Sized {
    /// The log is durable through this LSN.
    spec fn flushed(&self) -> u64;

    /// The log never fails.
    spec fn dependable(&self) -> bool;

    /// The highest LSN guaranteed durable on the log.
    fn flushed_lsn(&self) -> (lsn: u64)
        ensures
            lsn == self.flushed(),
    ;

    /// Force the log durable through at least `lsn`.
    fn flush_until(&mut self, lsn: u64) -> (r: Result<(), IoError>)
        ensures
            final(self).flushed() >= old(self).flushed(),
            final(self).dependable() == old(self).dependable(),
            r is Ok ==> final(self).flushed() >= lsn,
            old(self).dependable() ==> r is Ok,
    ;
}

/// There is no log: every page is trivially safe to write.
pub struct NoWal;

impl WalSync for NoWal {
    open spec fn flushed(&self) -> u64 {
        u64::MAX
    }

    open spec fn dependable(&self) -> bool {
        true
    }

    fn flushed_lsn(&self) -> (lsn: u64) {
        u64::MAX
    }

    fn flush_until(&mut self, lsn: u64) -> (r: Result<(), IoError>) {
        Ok(())
    }
}

/// Errors from the buffer pool.
#[derive(Clone, Copy, Debug, PartialEq, Eq, Structural)]
pub enum BufferError {
    Io(IoError),
    /// A page failed checksum verification on load: a torn or rotted page.
    Corrupt(PageId),
    /// Every frame is pinned; no victim could be found.
    Exhausted,
}

/// The text of an error, where `io` is what the file says of its own failure.
pub open spec fn buffer_error_text(e: BufferError, io: Seq<char>) -> Seq<char> {
    match e {
        BufferError::Io(_) => "io: "@ + io,
        BufferError::Corrupt(p) => "page "@ + decimal(p as nat) + " failed checksum"@,
        BufferError::Exhausted => "buffer pool exhausted (all frames pinned)"@,
    }
}

impl BufferError {
    /// The text of the error, where `io` is what the file says of its own failure.
    pub fn text(&self, io: &str) -> (t: String)
        ensures
            t@ == buffer_error_text(*self, io@),
    {
        match self {
            BufferError::Io(_) => "io: ".to_owned().concat(io),
            BufferError::Corrupt(p) => around("page ", *p, " failed checksum"),
            BufferError::Exhausted => "buffer pool exhausted (all frames pinned)".to_owned(),
        }
    }
}

/// Buffer-pool counters.
#[derive(Clone, Copy, Debug, PartialEq, Eq, Structural)]
pub struct BufStats {
    pub hits: u64,
    pub misses: u64,
    pub evictions: u64,
    pub flushes: u64,
    pub reads: u64,
    pub writes: u64,
    pub new_pages: u64,
}

impl Default for BufStats {
    fn default() -> (s: BufStats)
        ensures
            s == (BufStats {
                hits: 0,
                misses: 0,
                evictions: 0,
                flushes: 0,
                reads: 0,
                writes: 0,
                new_pages: 0,
            }),
    {
        BufStats { hits: 0, misses: 0, evictions: 0, flushes: 0, reads: 0, writes: 0, new_pages: 0 }
    }
}

/// One frame of the pool.
pub struct Frame {
    pub page: Vec<u8>,
    pub page_id: Option<PageId>,
    pub pin: u32,
    pub dirty: bool,
    pub ref_bit: bool,
    /// A [`WriteGuard`] on this frame is live.
    pub writer: bool,
}

impl Frame {
    /// An empty frame.
    fn empty() -> (f: Frame)
        ensures
            f.page@.len() == PAGE_SIZE,
            f.page_id is None,
            f.pin == 0,
            !f.dirty,
            !f.ref_bit,
            !f.writer,
    {
        Frame {
            page: vec![0u8; PAGE_SIZE],
            page_id: None,
            pin: 0,
            dirty: false,
            ref_bit: false,
            writer: false,
        }
    }

    /// The frames agree on everything but the reference bit.
    pub open spec fn same_but_ref(self, other: Frame) -> bool {
        &&& self.page == other.page
        &&& self.page_id == other.page_id
        &&& self.pin == other.pin
        &&& self.dirty == other.dirty
        &&& self.writer == other.writer
    }
}

/// The counters after a frame gave up what it held.
pub open spec fn evicted_from(s: BufStats, f: Frame) -> BufStats {
    BufStats {
        evictions: if f.page_id is Some {
            s.evictions.wrapping_add(1)
        } else {
            s.evictions
        },
        flushes: if f.dirty {
            s.flushes.wrapping_add(1)
        } else {
            s.flushes
        },
        writes: if f.dirty {
            s.writes.wrapping_add(1)
        } else {
            s.writes
        },
        ..s
    }
}

/// The counters after a page was written.
pub open spec fn flushed_from(s: BufStats) -> BufStats {
    BufStats { flushes: s.flushes.wrapping_add(1), writes: s.writes.wrapping_add(1), ..s }
}

/// The file after the dirty ones of the first `n` frames were written, in order.
pub open spec fn image_flushed(image: Seq<u8>, frames: Seq<Frame>, n: int) -> Seq<u8>
    decreases n,
{
    if n <= 0 {
        image
    } else {
        let f = frames[n - 1];
        let before = image_flushed(image, frames, n - 1);
        if f.dirty {
            overwritten(before, offset_of(f.page_id->0), stamped(f.page@))
        } else {
            before
        }
    }
}

/// The dirty page table after the dirty ones of the first `n` frames were written.
pub open spec fn dpt_flushed(dpt: Map<PageId, u64>, frames: Seq<Frame>, n: int) -> Map<PageId, u64>
    decreases n,
{
    if n <= 0 {
        dpt
    } else if frames[n - 1].dirty {
        dpt_flushed(dpt, frames, n - 1).remove(frames[n - 1].page_id->0)
    } else {
        dpt_flushed(dpt, frames, n - 1)
    }
}

/// The counters after the dirty ones of the first `n` frames were written.
pub open spec fn stats_flushed(s: BufStats, frames: Seq<Frame>, n: int) -> BufStats
    decreases n,
{
    if n <= 0 {
        s
    } else if frames[n - 1].dirty {
        flushed_from(stats_flushed(s, frames, n - 1))
    } else {
        stats_flushed(s, frames, n - 1)
    }
}

/// The counters after a page was read in.
pub open spec fn loaded_into(s: BufStats) -> BufStats {
    BufStats { misses: s.misses.wrapping_add(1), reads: s.reads.wrapping_add(1), ..s }
}

/// Which frames may be evicted.
pub open spec fn evictable(frames: Seq<Frame>, steal: bool) -> Seq<bool> {
    frames.map_values(|f: Frame| f.pin == 0 && (steal || !f.dirty))
}

pub open spec fn ref_bits(frames: Seq<Frame>) -> Seq<bool> {
    frames.map_values(|f: Frame| f.ref_bit)
}

/// A fixed-size pool of frames caching pages of one data file.
pub struct BufferPool<F: BlockFile, W: WalSync> {
    pub frames: Vec<Frame>,
    pub table: HashMap<PageId, usize>,
    pub clock: usize,
    pub file: F,
    pub wal: W,
    pub next_page: PageId,
    pub stats: BufStats,
    /// Dirty page table: `page -> recLSN`, the LSN that first dirtied the page
    /// since it was last written.
    pub dpt: HashMap<PageId, u64>,
    /// When false, a dirty page is never written to disk during eviction, so
    /// uncommitted changes can't reach disk.
    pub steal: bool,
}

/// A shared, pinned view of a page.
pub struct ReadGuard {
    pub frame: usize,
    pub pid: PageId,
}

/// An exclusive, pinned view of a page. Giving it back marks the page dirty.
pub struct WriteGuard {
    pub frame: usize,
    pub pid: PageId,
}

impl<F: BlockFile, W: WalSync> BufferPool<F, W> {
    pub open spec fn resident_in(&self, pid: PageId) -> bool {
        self.table@.dom().contains(pid)
    }

    /// The frame that holds `pid`.
    pub open spec fn frame_of(&self, pid: PageId) -> Frame {
        self.frames@[self.table@[pid] as int]
    }

    /// What page `pid` holds, if it can be had: in its frame, or on disk.
    pub open spec fn content(&self, pid: PageId) -> Option<Seq<u8>> {
        if self.resident_in(pid) {
            Some(body_of(self.frame_of(pid).page@))
        } else if page_good(self.file.image(), pid) {
            Some(body_of(page_at(self.file.image(), pid)))
        } else {
            None
        }
    }

    /// What the disk holds for page `pid`, if it verifies.
    pub open spec fn durable(&self, pid: PageId) -> Option<Seq<u8>> {
        if page_good(self.file.image(), pid) {
            Some(body_of(page_at(self.file.image(), pid)))
        } else {
            None
        }
    }

    /// A clean frame holds what the disk holds.
    pub open spec fn frame_ok(&self, i: int) -> bool {
        let f = self.frames@[i];
        &&& f.page@.len() == PAGE_SIZE
        &&& f.writer ==> f.pin == 1
        &&& f.page_id is None ==> f.pin == 0 && !f.dirty
        &&& f.page_id matches Some(p) ==> {
            &&& self.table@.dom().contains(p)
            &&& self.table@[p] == i
            &&& p < self.next_page
            &&& !f.dirty && !f.writer ==> page_good(self.file.image(), p) && body_of(
                page_at(self.file.image(), p),
            ) == body_of(f.page@)
        }
    }

    /// Table and frames agree, clean frames agree with the disk, and the disk holds
    /// no page that was not handed out.
    pub open spec fn wf(&self) -> bool {
        &&& 0 < self.frames@.len()
        &&& self.clock < self.frames@.len()
        &&& forall|p: PageId| #[trigger]
            self.table@.dom().contains(p) ==> self.table@[p] < self.frames@.len()
                && self.frames@[self.table@[p] as int].page_id == Some(p)
        &&& forall|i: int| 0 <= i < self.frames@.len() ==> #[trigger] self.frame_ok(i)
        &&& self.file.image().len() < offset_of(self.next_page) + PAGE_SIZE
    }

    /// What every page holds is kept; a page that could not be had may appear where
    /// the file grew over it.
    pub open spec fn keeps(&self, before: &Self) -> bool {
        forall|p: PageId|
            (#[trigger] before.content(p)) is Some ==> self.content(p) == before.content(p)
    }

    /// Frame `i` is pinned as it was, and if it was, holds what it held.
    pub open spec fn pinned_alike(&self, before: &Self, i: int) -> bool {
        let f = self.frames@[i];
        let g = before.frames@[i];
        &&& f.pin == g.pin
        &&& f.writer == g.writer
        &&& g.pin > 0 ==> f.same_but_ref(g)
    }

    /// Pinned frames are as they were, and no other is pinned.
    pub open spec fn keeps_pinned(&self, before: &Self) -> bool {
        &&& self.frames@.len() == before.frames@.len()
        &&& forall|i: int|
            0 <= i < before.frames@.len() ==> #[trigger] self.pinned_alike(before, i)
    }

    /// The disk does not fail, and every page's place is an address.
    pub open spec fn firm(&self) -> bool {
        &&& self.file.reliable()
        &&& 0x2000_0000_0000 <= usize::MAX
    }

    /// Neither disk nor log fails, and every page's place is an address.
    pub open spec fn steady(&self) -> bool {
        &&& self.firm()
        &&& self.wal.dependable()
    }

    /// The file holds page `p`, but it does not verify, and the pool has no other.
    pub open spec fn damaged(&self, p: PageId) -> bool {
        !self.resident_in(p) && has_page(self.file.image(), p) && !page_good(self.file.image(), p)
    }

    /// What was damaged still is.
    pub open spec fn scarred(&self, before: &Self) -> bool {
        forall|p: PageId| #[trigger] before.damaged(p) ==> self.damaged(p)
    }

    /// The log is durable through every page of the file.
    pub open spec fn log_ahead(&self) -> bool {
        ahead(self.file.image(), self.wal.flushed())
    }

    /// Data follows the log, whether or not the log can be forced: where it was ahead of the
    /// file, it still is.
    pub open spec fn data_follows(&self, before: &Self) -> bool {
        before.firm() && before.log_ahead() ==> self.log_ahead()
    }

    /// CLOCK settled on frame `idx`: the hand is behind it, and the second chances of the
    /// frames that it passed are spent. The other frames are as they were but for that.
    #[verifier::opaque]
    pub open spec fn hand_at(&self, before: &Self, idx: int) -> bool {
        let n = before.frames@.len() as int;
        let open = evictable(before.frames@, before.steal);
        let refs = ref_bits(before.frames@);
        &&& 0 <= idx < n
        &&& open[idx]
        &&& clock::takes(open, refs, before.clock as int, idx)
        &&& self.clock == clock::reached(idx, 1, n)
        &&& self.frames@.len() == n
        &&& forall|i: int|
            0 <= i < n && i != idx ==> (#[trigger] self.frames@[i]).same_but_ref(before.frames@[i])
                && self.frames@[i].ref_bit == clock::spent_to(
                open,
                refs,
                before.clock as int,
                idx,
            )[i]
    }

    /// Room was made in frame `idx`, the one that CLOCK settled on: what it held was written
    /// if dirty, and nothing else was. A page that is not written keeps its entry in the
    /// dirty page table.
    pub open spec fn made_room(&self, before: &Self, idx: int) -> bool {
        let f = before.frames@[idx];
        &&& self.hand_at(before, idx)
        &&& f.pin == 0 && (before.steal || !f.dirty)
        &&& self.file.image() == if f.dirty {
            overwritten(before.file.image(), offset_of(f.page_id->0), stamped(f.page@))
        } else {
            before.file.image()
        }
        &&& self.dpt@ == if f.dirty {
            before.dpt@.remove(f.page_id->0)
        } else {
            before.dpt@
        }
        &&& if f.dirty {
            self.wal.flushed() >= le64(f.page@, 4)
        } else {
            self.wal == before.wal
        }
    }

    /// The table without the page that frame `idx` held.
    pub open spec fn table_but(&self, idx: int) -> Map<PageId, usize> {
        match self.frames@[idx].page_id {
            Some(p) => self.table@.remove(p),
            None => self.table@,
        }
    }

    /// Room was made in frame `idx`, and it holds no page.
    pub open spec fn emptied(&self, before: &Self, idx: int) -> bool {
        &&& self.made_room(before, idx)
        &&& self.frames@[idx].page_id is None
        &&& self.table@ == before.table_but(idx)
        &&& self.stats == evicted_from(before.stats, before.frames@[idx])
    }

    /// The dirty page of frame `idx`, which CLOCK settled on, could not be written and stays.
    pub open spec fn stuck(&self, before: &Self, idx: int) -> bool {
        &&& self.hand_at(before, idx)
        &&& before.steal && before.frames@[idx].dirty
        &&& self.frames@[idx].same_but_ref(before.frames@[idx])
        &&& self.table == before.table
        &&& self.dpt == before.dpt
        &&& self.stats == before.stats
        &&& before.firm() ==> self.file == before.file
    }

    /// No frame may be evicted: nothing but the hand moved.
    pub open spec fn no_room(&self, before: &Self) -> bool {
        &&& !before.has_victim()
        &&& self.frames@ == before.frames@
        &&& self.clock == clock::reached(before.clock as int, 1, before.frames@.len() as int)
        &&& self.table == before.table
        &&& self.file == before.file
        &&& self.wal == before.wal
        &&& self.dpt == before.dpt
        &&& self.stats == before.stats
    }

    /// Some frame may be evicted.
    pub open spec fn has_victim(&self) -> bool {
        exists|i: int|
            0 <= i < self.frames@.len() && #[trigger] evictable(self.frames@, self.steal)[i]
    }

    /// Open a pool over `file` with `n_frames` frames and a WAL seam. The next
    /// page id is inferred from the file's current length.
    pub fn open(file: F, n_frames: usize, wal: W) -> (r: Result<Self, BufferError>)
        requires
            n_frames > 0,
            file.image().len() < 0x2000_0000_0000,
        ensures
            match r {
                Ok(p) => {
                    &&& p.wf()
                    &&& p.file.image() == file.image()
                    &&& p.file.reliable() == file.reliable()
                    &&& p.file.synced() == file.synced()
                    &&& p.wal == wal
                    &&& p.frames@.len() == n_frames
                    &&& forall|i: int| 0 <= i < n_frames ==> (#[trigger] p.frames@[i]).pin == 0
                    &&& p.table@ == Map::<PageId, usize>::empty()
                    &&& p.next_page == file.image().len() as int / PAGE_SIZE as int
                    &&& p.dpt@ == Map::<PageId, u64>::empty()
                    &&& p.steal
                    &&& p.stats == (BufStats {
                        hits: 0,
                        misses: 0,
                        evictions: 0,
                        flushes: 0,
                        reads: 0,
                        writes: 0,
                        new_pages: 0,
                    })
                },
                Err(e) => e is Io && !file.reliable(),
            },
    {
        let mut file: F = file;
        let size: u64 = match file.size() {
            Ok(n) => n,
            Err(e) => {
                return Err(BufferError::Io(e));
            },
        };
        let next_page: PageId = (size / 8192) as PageId;
        let mut frames: Vec<Frame> = Vec::new();
        let mut i: usize = 0;
        while i < n_frames
            invariant
                i <= n_frames,
                frames@.len() == i,
                forall|j: int|
                    0 <= j < i ==> (#[trigger] frames@[j]).page@.len() == PAGE_SIZE
                        && frames@[j].page_id is None && frames@[j].pin == 0 && !frames@[j].dirty
                        && !frames@[j].writer,
            decreases n_frames - i,
        {
            frames.push(Frame::empty());
            i = i + 1;
        }
        Ok(
            BufferPool {
                frames,
                table: HashMap::new(),
                clock: 0,
                file,
                wal,
                next_page,
                stats: BufStats::default(),
                dpt: HashMap::new(),
                steal: true,
            },
        )
    }

    /// Record that `pid` became dirty at `reclsn` (its recLSN), if not already
    /// tracked.
    pub fn note_dirty(&mut self, pid: PageId, reclsn: u64)
        ensures
            final(self).data_follows(old(self)),
            final(self).dpt@ == if old(self).dpt@.dom().contains(pid) {
                old(self).dpt@
            } else {
                old(self).dpt@.insert(pid, reclsn)
            },
            *final(self) == (BufferPool { dpt: final(self).dpt, ..*old(self) }),
    {
        if !self.dpt.contains_key(&pid) {
            self.dpt.insert(pid, reclsn);
        }
    }

    /// A snapshot of the dirty page table, `(page, recLSN)` by page, for a
    /// checkpoint.
    pub fn dpt_snapshot(&self) -> (v: Vec<(PageId, u64)>)
        ensures
            is_snapshot(v@, self.dpt@),
    {
        snapshot_of(&self.dpt)
    }

    /// Switch to the no-steal policy: dirty pages are never written during
    /// eviction.
    pub fn set_no_steal(&mut self)
        ensures
            final(self).data_follows(old(self)),
            *final(self) == (BufferPool { steal: false, ..*old(self) }),
    {
        self.steal = false;
    }

    pub fn stats(&self) -> (s: BufStats)
        ensures
            s == self.stats,
    {
        self.stats
    }

    pub fn page_count(&self) -> (n: PageId)
        ensures
            n == self.next_page,
    {
        self.next_page
    }

    fn resident(&self, pid: PageId) -> (r: Option<usize>)
        ensures
            match r {
                Some(i) => self.resident_in(pid) && i == self.table@[pid],
                None => !self.resident_in(pid),
            },
    {
        match self.table.get(&pid) {
            Some(i) => Some(*i),
            None => None,
        }
    }

    /// CLOCK: advance the hand, giving second chances via the reference bit,
    /// until an unpinned frame is found. `Exhausted` if none can be evicted.
    fn choose_victim(&mut self) -> (r: Result<usize, BufferError>)
        requires
            old(self).wf(),
        ensures
            final(self).wf(),
            *final(self) == (BufferPool {
                frames: final(self).frames,
                clock: final(self).clock,
                ..*old(self)
            }),
            final(self).frames@.len() == old(self).frames@.len(),
            forall|i: int|
                0 <= i < old(self).frames@.len() ==> (#[trigger] final(self).frames@[i]).same_but_ref(
                old(self).frames@[i]),
            match r {
                Ok(h) => {
                    &&& h < old(self).frames@.len()
                    &&& evictable(old(self).frames@, old(self).steal)[h as int]
                    &&& clock::takes(
                        evictable(old(self).frames@, old(self).steal),
                        ref_bits(old(self).frames@),
                        old(self).clock as int,
                        h as int,
                    )
                    &&& ref_bits(final(self).frames@) == clock::spent_to(
                        evictable(old(self).frames@, old(self).steal),
                        ref_bits(old(self).frames@),
                        old(self).clock as int,
                        h as int,
                    )
                    &&& final(self).clock == clock::reached(
                        h as int,
                        1,
                        old(self).frames@.len() as int,
                    )
                },
                Err(e) => {
                    &&& e == BufferError::Exhausted
                    &&& !old(self).has_victim()
                    &&& ref_bits(final(self).frames@) == ref_bits(old(self).frames@)
                    &&& final(self).clock == clock::reached(
                        old(self).clock as int,
                        1,
                        old(self).frames@.len() as int,
                    )
                },
            },
            final(self).keeps(old(self)),
    {
        let n: usize = self.frames.len();
        let mut open: Vec<bool> = Vec::new();
        let mut refs: Vec<bool> = Vec::new();
        let mut i: usize = 0;
        while i < n
            invariant
                i <= n == self.frames@.len(),
                open@.len() == i,
                refs@.len() == i,
                *self == *old(self),
                forall|j: int|
                    0 <= j < i ==> #[trigger] open@[j] == evictable(self.frames@, self.steal)[j],
                forall|j: int| 0 <= j < i ==> #[trigger] refs@[j] == self.frames@[j].ref_bit,
            decreases n - i,
        {
            open.push(
                self.frames[i].pin == 0 && (self.steal || !self.frames[i].dirty),
            );
            refs.push(self.frames[i].ref_bit);
            i = i + 1;
        }
        proof {
            assert(open@ =~= evictable(self.frames@, self.steal));
            assert(refs@ =~= ref_bits(self.frames@));
        }
        let picked: Option<usize> = clock::pick(&open, &mut refs, self.clock);
        self.clock = clock::step(
            match picked {
                Some(h) => h,
                None => self.clock,
            },
            n,
        );
        i = 0;
        let ghost hand = self.clock;
        while i < n
            invariant
                i <= n == self.frames@.len(),
                refs@.len() == n,
                self.clock == hand,
                n == old(self).frames@.len(),
                *self == (BufferPool { frames: self.frames, clock: self.clock, ..*old(self) }),
                forall|j: int|
                    0 <= j < n ==> (#[trigger] self.frames@[j]).same_but_ref(old(self).frames@[j]),
                forall|j: int| 0 <= j < i ==> (#[trigger] self.frames@[j]).ref_bit == refs@[j],
            decreases n - i,
        {
            self.frames[i].ref_bit = refs[i];
            i = i + 1;
        }
        proof {
            assert(ref_bits(self.frames@) =~= refs@);
            assert forall|j: int| 0 <= j < n implies #[trigger] self.frame_ok(j) by {
                assert(old(self).frame_ok(j));
                assert(self.frames@[j].same_but_ref(old(self).frames@[j]));
            }
            assert forall|p: PageId| #[trigger]
                self.table@.dom().contains(p) implies self.table@[p] < self.frames@.len()
                && self.frames@[self.table@[p] as int].page_id == Some(p) by {
                assert(self.frames@[self.table@[p] as int].same_but_ref(
                    old(self).frames@[self.table@[p] as int],
                ));
            }
            assert forall|p: PageId| (#[trigger] old(self).content(p)) is Some implies self.content(
                p,
            ) == old(self).content(p) by {
                if self.table@.dom().contains(p) {
                    assert(self.frames@[self.table@[p] as int].same_but_ref(
                        old(self).frames@[self.table@[p] as int],
                    ));
                }
            }
        }
        match picked {
            Some(h) => Ok(h),
            None => {
                proof {
                    if old(self).has_victim() {
                        let k = choose|k: int|
                            0 <= k < old(self).frames@.len() && #[trigger] evictable(
                                old(self).frames@,
                                old(self).steal,
                            )[k];
                        assert(open@[k]);
                    }
                }
                Err(BufferError::Exhausted)
            },
        }
    }
}

/// The table as a list in page order, each entry once.
pub open spec fn is_snapshot(v: Seq<(PageId, u64)>, m: Map<PageId, u64>) -> bool {
    &&& forall|i: int, j: int| 0 <= i < j < v.len() ==> (#[trigger] v[i]).0 < (#[trigger] v[j]).0
    &&& forall|i: int|
        0 <= i < v.len() ==> m.dom().contains((#[trigger] v[i]).0) && m[v[i].0] == v[i].1
    &&& forall|p: PageId| #[trigger]
        m.dom().contains(p) ==> exists|i: int| 0 <= i < v.len() && (#[trigger] v[i]).0 == p
}

/// Put `x` into an ascending list that does not hold it.
fn insert_sorted(v: &mut Vec<(PageId, u64)>, x: (PageId, u64))
    requires
        forall|i: int, j: int|
            0 <= i < j < old(v)@.len() ==> (#[trigger] old(v)@[i]).0 < (#[trigger] old(v)@[j]).0,
        forall|i: int| 0 <= i < old(v)@.len() ==> (#[trigger] old(v)@[i]).0 != x.0,
    ensures
        forall|i: int, j: int|
            0 <= i < j < final(v)@.len() ==> (#[trigger] final(v)@[i]).0 < (#[trigger] final(
            v)@[j]).0,
        exists|k: int| 0 <= k <= old(v)@.len() && final(v)@ == old(v)@.insert(k, x),
{
    let mut k: usize = 0;
    while k < v.len() && v[k].0 < x.0
        invariant
            k <= v@.len(),
            v@ == old(v)@,
            forall|i: int| 0 <= i < k ==> (#[trigger] v@[i]).0 < x.0,
        ensures
            k <= v@.len(),
            v@ == old(v)@,
            forall|i: int| 0 <= i < k ==> (#[trigger] v@[i]).0 < x.0,
            k < v@.len() ==> v@[k as int].0 >= x.0,
        decreases v.len() - k,
    {
        k = k + 1;
    }
    v.insert(k, x);
    proof {
        let o = old(v)@;
        assert(v@ == o.insert(k as int, x));
        assert forall|i: int, j: int| 0 <= i < j < v@.len() implies (#[trigger] v@[i]).0 < (
        #[trigger] v@[j]).0 by {
            if i < k {
                assert(v@[i] == o[i]);
            } else if i > k {
                assert(v@[i] == o[i - 1]);
            }
            if j < k {
                assert(v@[j] == o[j]);
            } else if j > k {
                assert(v@[j] == o[j - 1]);
                assert(o[k as int].0 <= o[j - 1].0);
            }
        }
    }
}

/// The entries of a dirty page table in page order.
#[verifier::spinoff_prover]
pub fn snapshot_of(m: &HashMap<PageId, u64>) -> (v: Vec<(PageId, u64)>)
    ensures
        is_snapshot(v@, m@),
{
    let keys: Vec<PageId> = map_keys(m);
    let mut v: Vec<(PageId, u64)> = Vec::new();
    let mut k: usize = 0;
    while k < keys.len()
        invariant
            k <= keys@.len(),
            keys@.no_duplicates(),
            forall|p: PageId| m@.dom().contains(p) <==> keys@.contains(p),
            forall|i: int, j: int|
                0 <= i < j < v@.len() ==> (#[trigger] v@[i]).0 < (#[trigger] v@[j]).0,
            forall|i: int|
                0 <= i < v@.len() ==> m@.dom().contains((#[trigger] v@[i]).0) && m@[v@[i].0]
                    == v@[i].1,
            forall|i: int|
                0 <= i < v@.len() ==> exists|j: int|
                    0 <= j < k && #[trigger] keys@[j] == (#[trigger] v@[i]).0,
            forall|j: int|
                0 <= j < k ==> exists|i: int|
                    0 <= i < v@.len() && (#[trigger] v@[i]).0 == #[trigger] keys@[j],
        decreases keys.len() - k,
    {
        let p: PageId = keys[k];
        assert(keys@.contains(p));
        if let Some(lsn) = m.get(&p) {
            let ghost before = v@;
            proof {
                assert forall|i: int| 0 <= i < v@.len() implies (#[trigger] v@[i]).0 != p by {
                    let j = choose|j: int| 0 <= j < k && #[trigger] keys@[j] == v@[i].0;
                }
            }
            insert_sorted(&mut v, (p, *lsn));
            proof {
                let at = choose|at: int|
                    0 <= at <= before.len() && v@ == before.insert(at, (p, *lsn));
                assert(v@[at] == (p, *lsn));
                assert forall|i: int| 0 <= i < v@.len() implies m@.dom().contains(
                    (#[trigger] v@[i]).0,
                ) && m@[v@[i].0] == v@[i].1 && exists|j: int|
                    0 <= j < k + 1 && #[trigger] keys@[j] == v@[i].0 by {
                    if i == at {
                        assert(keys@[k as int] == v@[i].0);
                    } else {
                        let b = if i < at {
                            i
                        } else {
                            i - 1
                        };
                        assert(v@[i] == before[b]);
                        let j = choose|j: int| 0 <= j < k && #[trigger] keys@[j] == before[b].0;
                        assert(keys@[j] == v@[i].0);
                    }
                }
                assert forall|j: int| 0 <= j < k + 1 implies exists|i: int|
                    0 <= i < v@.len() && (#[trigger] v@[i]).0 == #[trigger] keys@[j] by {
                    if j == k {
                        assert(v@[at].0 == keys@[j]);
                    } else {
                        let b = choose|b: int|
                            0 <= b < before.len() && (#[trigger] before[b]).0 == keys@[j];
                        let i = if b < at {
                            b
                        } else {
                            b + 1
                        };
                        assert(v@[i] == before[b]);
                    }
                }
            }
        }
        k = k + 1;
    }
    proof {
        assert forall|p: PageId| #[trigger] m@.dom().contains(p) implies exists|i: int|
            0 <= i < v@.len() && (#[trigger] v@[i]).0 == p by {
            assert(keys@.contains(p));
            let j = choose|j: int| 0 <= j < keys@.len() && keys@[j] == p;
            assert(keys@[j] == p);
        }
    }
    v
}


/// Writing one page changes no other page of the file.
pub proof fn lemma_write_page(image: Seq<u8>, pid: PageId, d: Seq<u8>)
    requires
        d.len() == PAGE_SIZE,
    ensures
        ({
            let after = overwritten(image, offset_of(pid), d);
            &&& has_page(after, pid)
            &&& page_at(after, pid) == d
            &&& after.len() >= image.len()
            &&& after.len() <= image.len() || after.len() == offset_of(pid) + PAGE_SIZE
            &&& forall|q: PageId| #[trigger]
                has_page(image, q) && q != pid ==> has_page(after, q) && page_at(after, q)
                    == page_at(image, q)
        }),
{
    let after = overwritten(image, offset_of(pid), d);
    assert(page_at(after, pid) =~= d);
    assert forall|q: PageId| #[trigger] has_page(image, q) && q != pid implies has_page(after, q)
        && page_at(after, q) == page_at(image, q) by {
        assert(page_at(after, q) =~= page_at(image, q));
    }
}

/// Nor does a write that failed half way.
pub proof fn lemma_damage_page(image: Seq<u8>, after: Seq<u8>, pid: PageId)
    requires
        differs_only_at(image, after, offset_of(pid), PAGE_SIZE as int),
    ensures
        forall|q: PageId| #[trigger]
            has_page(image, q) && q != pid ==> has_page(after, q) && page_at(after, q) == page_at(
                image,
                q,
            ),
{
    assert forall|q: PageId| #[trigger] has_page(image, q) && q != pid implies has_page(after, q)
        && page_at(after, q) == page_at(image, q) by {
        assert(page_at(after, q) =~= page_at(image, q));
    }
}

pub proof fn lemma_stamped_body(page: Seq<u8>)
    requires
        page.len() == PAGE_SIZE,
    ensures
        stamped(page).len() == PAGE_SIZE,
        checksum_ok(stamped(page)),
        body_of(stamped(page)) == body_of(page),
{
    lemma_stamped(page);
    assert(body_of(stamped(page)) =~= body_of(page));
}

impl<F: BlockFile, W: WalSync> BufferPool<F, W> {
    /// Write a dirty frame to disk, enforcing WAL-before-data. The checksum goes
    /// into a scratch copy, so flushing a page that a reader has pinned is safe.
    fn flush_frame(&mut self, idx: usize) -> (r: Result<(), BufferError>)
        requires
            old(self).wf(),
            idx < old(self).frames@.len(),
            old(self).frames@[idx as int].dirty ==> !old(self).frames@[idx as int].writer,
        ensures
            final(self).scarred(old(self)),
            final(self).data_follows(old(self)),
            final(self).wf(),
            final(self).keeps(old(self)),
            final(self).steady() == old(self).steady(),
            final(self).firm() == old(self).firm(),
            *final(self) == (BufferPool {
                frames: final(self).frames,
                file: final(self).file,
                wal: final(self).wal,
                stats: final(self).stats,
                dpt: final(self).dpt,
                ..*old(self)
            }),
            r matches Err(e) ==> e is Io && !old(self).steady() && final(self).frames == old(
                self).frames && final(self).dpt == old(self).dpt && final(self).stats == old(
                self).stats && (old(self).firm() ==> final(self).file == old(self).file),
            ({
                let f = old(self).frames@[idx as int];
                &&& !f.dirty ==> r is Ok && *final(self) == *old(self)
                &&& r is Ok && f.dirty ==> {
                    &&& final(self).frames@ == old(self).frames@.update(
                        idx as int,
                        Frame { dirty: false, ..f },
                    )
                    &&& final(self).file.image() == overwritten(
                        old(self).file.image(),
                        offset_of(f.page_id->0),
                        stamped(f.page@),
                    )
                    &&& final(self).wal.flushed() >= le64(f.page@, 4)
                    &&& final(self).dpt@ == old(self).dpt@.remove(f.page_id->0)
                    &&& final(self).stats == flushed_from(old(self).stats)
                }
                // Data follows the log: where the log could not be forced through
                // the page's LSN, the file is untouched.
                &&& final(self).wal.flushed() < le64(f.page@, 4) ==> final(self).file
                    == old(self).file
            }),
    {
        let ghost f0 = self.frames@[idx as int];
        assert(self.frame_ok(idx as int));
        if !self.frames[idx].dirty {
            return Ok(());
        }
        let pid: PageId = match self.frames[idx].page_id {
            Some(p) => p,
            None => 0,
        };
        let mut scratch: Vec<u8> = copy_bytes(self.frames[idx].page.as_slice());
        let lsn: u64 = rd_u64(scratch.as_slice(), 4);
        if lsn > self.wal.flushed_lsn() {
            match self.wal.flush_until(lsn) {
                Ok(()) => {},
                Err(e) => {
                    proof {
                        reveal(ahead);
                        lemma_same_disk(old(self), self);
                    }
                    return Err(BufferError::Io(e));
                },
            }
        }
        raw::stamp_checksum(scratch.as_mut_slice());
        let ghost image = self.file.image();
        proof {
            lemma_stamped_body(f0.page@);
            lemma_write_page(image, pid, scratch@);
        }
        match self.file.write_at(&scratch, page_offset(pid)) {
            Ok(()) => {},
            Err(e) => {
                proof {
                    lemma_damage_page(image, self.file.image(), pid);
                    lemma_other_pages_written(old(self), self, idx as int, pid);
                }
                return Err(BufferError::Io(e));
            },
        }
        self.frames[idx].dirty = false;
        self.dpt.remove(&pid);
        self.stats.flushes = self.stats.flushes.wrapping_add(1);
        self.stats.writes = self.stats.writes.wrapping_add(1);
        proof {
            assert(self.dpt@ =~= old(self).dpt@.remove(pid));
            assert(self.frames@ =~= old(self).frames@.update(
                idx as int,
                Frame { dirty: false, ..f0 },
            ));
            lemma_other_pages_written(old(self), self, idx as int, pid);
            if old(self).log_ahead() {
                lemma_ahead_written(
                    image,
                    old(self).wal.flushed(),
                    pid,
                    f0.page@,
                    self.wal.flushed(),
                );
            }
        }
        Ok(())
    }
}

/// A page whose LSN the log is durable through may be written.
proof fn lemma_ahead_written(image: Seq<u8>, before: u64, pid: PageId, page: Seq<u8>, flushed: u64)
    requires
        ahead(image, before),
        before <= flushed,
        page.len() == PAGE_SIZE,
        le64(page, 4) <= flushed,
    ensures
        ahead(overwritten(image, offset_of(pid), stamped(page)), flushed),
{
    reveal(ahead);
    let b = overwritten(image, offset_of(pid), stamped(page));
    lemma_stamped_body(page);
    lemma_write_page(image, pid, stamped(page));
    assert forall|p: PageId| #[trigger] page_good(b, p) implies le64(page_at(b, p), 4)
        <= flushed by {
        if p == pid {
            assert(body_of(stamped(page)) == body_of(page));
            assert(page_at(b, p) == stamped(page));
            assert forall|i: int| 4 <= i < 12 implies #[trigger] stamped(page)[i] == page[i] by {
                assert(body_of(stamped(page))[i - 4] == body_of(page)[i - 4]);
            }
        } else if has_page(image, p) {
            assert(page_at(b, p) == page_at(image, p));
            assert(page_good(image, p));
        } else {
            let c = page_at(b, p);
            assert(image.len() <= offset_of(p));
            assert forall|i: int| 4 <= i < 12 implies #[trigger] c[i] == 0 by {
                assert(c[i] == b[offset_of(p) + i]);
            }
        }
    }
}

/// Nothing but the log changed.
proof fn lemma_same_disk<F: BlockFile, W: WalSync>(a: &BufferPool<F, W>, b: &BufferPool<F, W>)
    requires
        a.wf(),
        b.frames == a.frames,
        b.table == a.table,
        b.file == a.file,
        b.next_page == a.next_page,
        b.clock == a.clock,
    ensures
        b.wf(),
        b.keeps(a),
{
    assert forall|i: int| 0 <= i < b.frames@.len() implies #[trigger] b.frame_ok(i) by {
        assert(a.frame_ok(i));
    }
    assert forall|p: PageId| (#[trigger] a.content(p)) is Some implies b.content(p) == a.content(
        p,
    ) by {}
}

/// The file changed in page `pid` alone, whose frame is dirty still or holds what
/// the file now holds.
proof fn lemma_other_pages_written<F: BlockFile, W: WalSync>(
    a: &BufferPool<F, W>,
    b: &BufferPool<F, W>,
    idx: int,
    pid: PageId,
)
    requires
        a.wf(),
        0 <= idx < a.frames@.len(),
        a.frames@[idx].page_id == Some(pid),
        b.frames@.len() == a.frames@.len(),
        forall|i: int| 0 <= i < a.frames@.len() && i != idx ==> b.frames@[i] == a.frames@[i],
        b.frames@[idx].page == a.frames@[idx].page,
        b.frames@[idx].page_id == a.frames@[idx].page_id,
        b.frames@[idx].pin == a.frames@[idx].pin,
        b.frames@[idx].writer == a.frames@[idx].writer,
        b.frames@[idx].dirty || (page_good(b.file.image(), pid) && body_of(
            page_at(b.file.image(), pid),
        ) == body_of(b.frames@[idx].page@)),
        b.table == a.table,
        b.next_page == a.next_page,
        b.clock == a.clock,
        forall|q: PageId| #[trigger]
            has_page(a.file.image(), q) && q != pid ==> has_page(b.file.image(), q) && page_at(
                b.file.image(),
                q,
            ) == page_at(a.file.image(), q),
        b.file.image().len() <= a.file.image().len() || b.file.image().len() <= offset_of(pid)
            + PAGE_SIZE,
    ensures
        b.wf(),
        b.keeps(a),
{
    assert(a.frame_ok(idx));
    assert forall|i: int| 0 <= i < b.frames@.len() implies #[trigger] b.frame_ok(i) by {
        assert(a.frame_ok(i));
    }
    assert forall|p: PageId| (#[trigger] a.content(p)) is Some implies b.content(p) == a.content(
        p,
    ) by {
        if a.resident_in(p) {
            assert(a.frame_ok(a.table@[p] as int));
        } else {
            assert(has_page(a.file.image(), p));
        }
    }
}


/// An empty frame took a page in, or an unpinned one gave its page up; all other
/// frames are as they were but for reference bits.
pub open spec fn others_kept(a: Seq<Frame>, b: Seq<Frame>, idx: int) -> bool {
    &&& a.len() == b.len()
    &&& forall|i: int|
        0 <= i < a.len() && i != idx ==> (#[trigger] b[i]).same_but_ref(a[i])
}

impl<F: BlockFile, W: WalSync> BufferPool<F, W> {
    /// Empty frame `idx`, flushing what it holds if dirty.
    fn evict(&mut self, idx: usize) -> (r: Result<(), BufferError>)
        requires
            old(self).wf(),
            idx < old(self).frames@.len(),
            old(self).frames@[idx as int].pin == 0,
        ensures
            final(self).scarred(old(self)),
            final(self).data_follows(old(self)),
            final(self).wf(),
            final(self).keeps(old(self)),
            final(self).steady() == old(self).steady(),
            final(self).firm() == old(self).firm(),
            others_kept(old(self).frames@, final(self).frames@, idx as int),
            final(self).next_page == old(self).next_page,
            final(self).steal == old(self).steal,
            final(self).clock == old(self).clock,
            r matches Err(e) ==> {
                &&& e is Io
                &&& !old(self).steady()
                &&& old(self).frames@[idx as int].dirty
                &&& final(self).table == old(self).table
                &&& final(self).frames == old(self).frames
                &&& final(self).dpt == old(self).dpt
                &&& final(self).stats == old(self).stats
                &&& old(self).firm() ==> final(self).file == old(self).file
            },
            !old(self).frames@[idx as int].dirty ==> final(self).file == old(self).file && final(
                self).wal == old(self).wal,
            r is Ok ==> {
                let f = old(self).frames@[idx as int];
                &&& forall|i: int|
                    0 <= i < old(self).frames@.len() && i != idx ==> (
                    #[trigger] final(self).frames@[i]) == old(self).frames@[i]
                &&& final(self).file.image() == if f.dirty {
                    overwritten(old(self).file.image(), offset_of(f.page_id->0), stamped(f.page@))
                } else {
                    old(self).file.image()
                }
                &&& f.dirty ==> final(self).wal.flushed() >= le64(f.page@, 4)
                &&& final(self).dpt@ == if f.dirty {
                    old(self).dpt@.remove(f.page_id->0)
                } else {
                    old(self).dpt@
                }
                &&& final(self).frames@[idx as int].page_id is None
                &&& final(self).table@ == match f.page_id {
                    Some(p) => old(self).table@.remove(p),
                    None => old(self).table@,
                }
                &&& final(self).stats == evicted_from(old(self).stats, f)
            },
    {
        assert(self.frame_ok(idx as int));
        let was: Option<PageId> = self.frames[idx].page_id;
        if let Some(pid) = was {
            match self.flush_frame(idx) {
                Ok(()) => {},
                Err(e) => {
                    return Err(e);
                },
            }
            let ghost mid = *self;
            self.table.remove(&pid);
            self.frames[idx].page_id = None;
            self.stats.evictions = self.stats.evictions.wrapping_add(1);
            proof {
                assert(mid.frame_ok(idx as int));
                assert forall|i: int| 0 <= i < self.frames@.len() implies #[trigger] self.frame_ok(
                    i,
                ) by {
                    assert(mid.frame_ok(i));
                }
                assert forall|p: PageId| (#[trigger] mid.content(p)) is Some implies self.content(p)
                    == mid.content(p) by {
                    if p != pid && mid.resident_in(p) {
                        assert(mid.frame_ok(mid.table@[p] as int));
                    }
                }
                assert forall|p: PageId| (#[trigger] old(self).content(p)) is Some implies
                    self.content(p) == old(self).content(p) by {
                    assert(mid.content(p) == old(self).content(p));
                }
                assert(self.table@ =~= old(self).table@.remove(pid));
            }
        }
        Ok(())
    }

    /// Load `pid` from disk into the empty frame `idx`, verifying the checksum.
    fn load(&mut self, idx: usize, pid: PageId) -> (r: Result<(), BufferError>)
        requires
            old(self).wf(),
            idx < old(self).frames@.len(),
            old(self).frames@[idx as int].page_id is None,
            !old(self).resident_in(pid),
        ensures
            final(self).scarred(old(self)),
            final(self).data_follows(old(self)),
            final(self).wf(),
            final(self).keeps(old(self)),
            final(self).steady() == old(self).steady(),
            final(self).firm() == old(self).firm(),
            final(self).file.image() == old(self).file.image(),
            final(self).wal == old(self).wal,
            others_kept(old(self).frames@, final(self).frames@, idx as int),
            forall|i: int|
                0 <= i < old(self).frames@.len() && i != idx ==> (
                #[trigger] final(self).frames@[i]) == old(self).frames@[i],
            final(self).next_page == old(self).next_page,
            final(self).steal == old(self).steal,
            final(self).clock == old(self).clock,
            final(self).dpt == old(self).dpt,
            match r {
                Ok(()) => {
                    let f = final(self).frames@[idx as int];
                    &&& final(self).table@ == old(self).table@.insert(pid, idx)
                    &&& page_good(old(self).file.image(), pid)
                    &&& f.page@ == page_at(old(self).file.image(), pid)
                    &&& f.page_id == Some(pid)
                    &&& f.pin == 0 && !f.dirty && !f.writer && f.ref_bit
                    &&& final(self).stats == loaded_into(old(self).stats)
                },
                Err(BufferError::Io(_)) => {
                    &&& !old(self).steady() || !has_page(old(self).file.image(), pid)
                    &&& final(self).table == old(self).table
                    &&& final(self).stats == old(self).stats
                    &&& final(self).frames@[idx as int].page_id is None
                },
                Err(BufferError::Corrupt(p)) => {
                    &&& p == pid
                    &&& has_page(old(self).file.image(), pid)
                    &&& !page_good(old(self).file.image(), pid)
                    &&& final(self).table == old(self).table
                    &&& final(self).stats == old(self).stats
                    &&& final(self).frames@[idx as int].page_id is None
                },
                Err(BufferError::Exhausted) => false,
            },
    {
        assert(self.frame_ok(idx as int));
        let mut buf: Vec<u8> = vec![0u8; PAGE_SIZE];
        match self.file.read_at(&mut buf, page_offset(pid)) {
            Ok(()) => {},
            Err(e) => {
                self.frames[idx].page = buf;
                proof {
                    lemma_unused_frame_filled(old(self), self, idx as int);
                }
                return Err(BufferError::Io(e));
            },
        }
        let good: bool = raw::verify_checksum(buf.as_slice());
        self.frames[idx].page = buf;
        proof {
            lemma_unused_frame_filled(old(self), self, idx as int);
        }
        if !good {
            return Err(BufferError::Corrupt(pid));
        }
        let ghost mid = *self;
        self.frames[idx].page_id = Some(pid);
        self.frames[idx].dirty = false;
        self.frames[idx].ref_bit = true;
        self.table.insert(pid, idx);
        self.stats.misses = self.stats.misses.wrapping_add(1);
        self.stats.reads = self.stats.reads.wrapping_add(1);
        proof {
            assert(mid.frame_ok(idx as int));
            assert forall|i: int| 0 <= i < self.frames@.len() implies #[trigger] self.frame_ok(
                i,
            ) by {
                assert(mid.frame_ok(i));
            }
            assert forall|p: PageId| (#[trigger] mid.content(p)) is Some implies self.content(p)
                == mid.content(p) by {
                if p != pid && mid.resident_in(p) {
                    assert(mid.frame_ok(mid.table@[p] as int));
                }
            }
            assert forall|p: PageId| (#[trigger] old(self).content(p)) is Some implies self.content(
                p,
            ) == old(self).content(p) by {
                assert(mid.content(p) == old(self).content(p));
            }
        }
        Ok(())
    }

    /// Find a frame to reuse and empty it.
    fn make_room(&mut self) -> (r: Result<usize, BufferError>)
        requires
            old(self).wf(),
        ensures
            final(self).scarred(old(self)),
            final(self).data_follows(old(self)),
            final(self).wf(),
            final(self).keeps(old(self)),
            final(self).keeps_pinned(old(self)),
            final(self).steady() == old(self).steady(),
            final(self).firm() == old(self).firm(),
            final(self).next_page == old(self).next_page,
            final(self).steal == old(self).steal,
            match r {
                Ok(idx) => {
                    let f = old(self).frames@[idx as int];
                    &&& idx < final(self).frames@.len()
                    &&& f.pin == 0
                    &&& final(self).emptied(old(self), idx as int)
                    &&& others_kept(old(self).frames@, final(self).frames@, idx as int)
                },
                Err(BufferError::Exhausted) => final(self).no_room(old(self)),
                Err(BufferError::Io(_)) => {
                    &&& !old(self).steady()
                    &&& old(self).has_victim()
                    &&& exists|idx: int| #[trigger] final(self).stuck(old(self), idx)
                },
                Err(BufferError::Corrupt(_)) => false,
            },
            !old(self).steal ==> final(self).file.image() == old(self).file.image(),
            r is Err ==> final(self).table == old(self).table,
    {
        let idx: usize = match self.choose_victim() {
            Ok(h) => h,
            Err(e) => {
                proof {
                    assert forall|i: int| 0 <= i < old(self).frames@.len() implies (
                    #[trigger] self.frames@[i]) == old(self).frames@[i] by {
                        assert(self.frames@[i].same_but_ref(old(self).frames@[i]));
                        assert(ref_bits(self.frames@)[i] == ref_bits(old(self).frames@)[i]);
                    }
                    assert(self.frames@ =~= old(self).frames@);
                }
                return Err(e);
            },
        };
        let ghost mid = *self;
        proof {
            assert(evictable(old(self).frames@, old(self).steal)[idx as int]);
            assert(mid.frames@[idx as int].same_but_ref(old(self).frames@[idx as int]));
        }
        let out: Result<(), BufferError> = self.evict(idx);
        proof {
            assert forall|p: PageId| #[trigger] old(self).damaged(p) implies self.damaged(p) by {
                assert(mid.damaged(p));
            }
            assert forall|p: PageId| (#[trigger] old(self).content(p)) is Some implies self.content(
                p,
            ) == old(self).content(p) by {
                assert(mid.content(p) == old(self).content(p));
            }
            assert forall|i: int| 0 <= i < old(self).frames@.len() && i != idx implies (
            #[trigger] self.frames@[i]).same_but_ref(old(self).frames@[i]) by {
                assert(mid.frames@[i].same_but_ref(old(self).frames@[i]));
            }
            assert(self.hand_at(old(self), idx as int)) by {
                reveal(BufferPool::hand_at);
                assert forall|i: int| 0 <= i < old(self).frames@.len() && i != idx implies (
                #[trigger] self.frames@[i]).ref_bit == clock::spent_to(
                    evictable(old(self).frames@, old(self).steal),
                    ref_bits(old(self).frames@),
                    old(self).clock as int,
                    idx as int,
                )[i] by {
                    assert(self.frames@[i] == mid.frames@[i]);
                    assert(ref_bits(mid.frames@)[i] == mid.frames@[i].ref_bit);
                }
            }
            if out is Err {
                assert(self.stuck(old(self), idx as int));
            }
            assert(self.frame_ok(idx as int) && old(self).frame_ok(idx as int));
            assert forall|i: int| 0 <= i < old(self).frames@.len() implies
                #[trigger] self.pinned_alike(old(self), i) by {
                if i != idx {
                    assert(self.frames@[i].same_but_ref(old(self).frames@[i]));
                }
            }
        }
        match out {
            Ok(()) => Ok(idx),
            Err(e) => Err(e),
        }
    }

    /// Resolve `pid` to a resident frame, loading it if necessary. Does not pin.
    fn frame_for(&mut self, pid: PageId) -> (r: Result<usize, BufferError>)
        requires
            old(self).wf(),
        ensures
            final(self).scarred(old(self)),
            final(self).data_follows(old(self)),
            final(self).wf(),
            final(self).keeps(old(self)),
            final(self).keeps_pinned(old(self)),
            final(self).steady() == old(self).steady(),
            final(self).firm() == old(self).firm(),
            final(self).next_page == old(self).next_page,
            final(self).steal == old(self).steal,
            old(self).resident_in(pid) ==> {
                &&& r matches Ok(idx) && idx == old(self).table@[pid]
                &&& final(self).table == old(self).table
                &&& final(self).frame_of(pid).same_but_ref(old(self).frame_of(pid))
                &&& final(self).frames@ == old(self).frames@.update(
                    old(self).table@[pid] as int,
                    Frame { ref_bit: true, ..old(self).frame_of(pid) },
                )
                &&& *final(self) == (BufferPool {
                    frames: final(self).frames,
                    stats: final(self).stats,
                    ..*old(self)
                })
                &&& final(self).stats == (BufStats {
                    hits: old(self).stats.hits.wrapping_add(1),
                    ..old(self).stats
                })
            },
            !old(self).resident_in(pid) ==> match r {
                Ok(idx) => {
                    let f = final(self).frame_of(pid);
                    &&& final(self).resident_in(pid) && final(self).table@[pid] == idx
                    &&& f.pin == 0 && !f.dirty && !f.writer
                    &&& page_good(final(self).file.image(), pid)
                    &&& f.page@ == page_at(final(self).file.image(), pid)
                    &&& old(self).frames@[idx as int].pin == 0
                    &&& final(self).made_room(old(self), idx as int)
                    &&& final(self).table@ == old(self).table_but(idx as int).insert(pid, idx)
                    &&& final(self).stats == loaded_into(
                        evicted_from(old(self).stats, old(self).frames@[idx as int]),
                    )
                },
                Err(e) => final(self).refused(old(self), pid, e),
            },
            !old(self).resident_in(pid) && !old(self).has_victim() ==> r == Err::<
                usize,
                BufferError,
            >(BufferError::Exhausted),
            r is Err ==> !final(self).resident_in(pid),
            !old(self).steal ==> final(self).file.image() == old(self).file.image(),
    {
        if let Some(idx) = self.resident(pid) {
            self.stats.hits = self.stats.hits.wrapping_add(1);
            self.frames[idx].ref_bit = true;
            proof {
                lemma_ref_bit_set(old(self), self, idx as int);
            }
            return Ok(idx);
        }
        assert(self.wf());
        let idx: usize = match self.make_room() {
            Ok(i) => i,
            Err(e) => {
                return Err(e);
            },
        };
        let ghost mid = *self;
        let out: Result<(), BufferError> = self.load(idx, pid);
        proof {
            assert forall|p: PageId| (#[trigger] old(self).content(p)) is Some implies self.content(
                p,
            ) == old(self).content(p) by {
                assert(mid.content(p) == old(self).content(p));
            }
            assert(self.made_room(old(self), idx as int)) by {
                reveal(BufferPool::hand_at);
            }
            if out is Err {
                assert(self.emptied(old(self), idx as int));
            }
            assert(self.frame_ok(idx as int) && old(self).frame_ok(idx as int));
            assert forall|i: int| 0 <= i < old(self).frames@.len() implies
                #[trigger] self.pinned_alike(old(self), i) by {
                assert(mid.pinned_alike(old(self), i));
                if i != idx {
                    assert(self.frames@[i].same_but_ref(mid.frames@[i]));
                }
            }
            assert(old(self).has_victim()) by {
                assert(evictable(old(self).frames@, old(self).steal)[idx as int]);
            }
        }
        match out {
            Ok(()) => Ok(idx),
            Err(e) => Err(e),
        }
    }
}

/// The bytes of a frame that holds no page do not matter.
proof fn lemma_unused_frame_filled<F: BlockFile, W: WalSync>(
    a: &BufferPool<F, W>,
    b: &BufferPool<F, W>,
    idx: int,
)
    requires
        a.wf(),
        0 <= idx < a.frames@.len(),
        a.frames@[idx].page_id is None,
        b.frames@.len() == a.frames@.len(),
        forall|i: int| 0 <= i < a.frames@.len() && i != idx ==> b.frames@[i] == a.frames@[i],
        b.frames@[idx] == (Frame { page: b.frames@[idx].page, ..a.frames@[idx] }),
        b.frames@[idx].page@.len() == PAGE_SIZE,
        b.table == a.table,
        b.next_page == a.next_page,
        b.clock == a.clock,
        b.file.image() == a.file.image(),
    ensures
        b.wf(),
        b.keeps(a),
{
    assert forall|i: int| 0 <= i < b.frames@.len() implies #[trigger] b.frame_ok(i) by {
        assert(a.frame_ok(i));
    }
    assert forall|p: PageId| (#[trigger] a.content(p)) is Some implies b.content(p) == a.content(
        p,
    ) by {
        if a.resident_in(p) {
            assert(a.frame_ok(a.table@[p] as int));
        }
    }
}

/// Reference bits do not matter to what the pool holds.
proof fn lemma_ref_bit_set<F: BlockFile, W: WalSync>(
    a: &BufferPool<F, W>,
    b: &BufferPool<F, W>,
    idx: int,
)
    requires
        a.wf(),
        0 <= idx < a.frames@.len(),
        b.frames@.len() == a.frames@.len(),
        forall|i: int| 0 <= i < a.frames@.len() && i != idx ==> b.frames@[i] == a.frames@[i],
        b.frames@[idx].same_but_ref(a.frames@[idx]),
        b.table == a.table,
        b.next_page == a.next_page,
        b.clock == a.clock,
        b.file == a.file,
    ensures
        b.wf(),
        b.keeps(a),
        b.keeps_pinned(a),
{
    assert forall|i: int| 0 <= i < b.frames@.len() implies #[trigger] b.frame_ok(i) by {
        assert(a.frame_ok(i));
    }
    assert forall|p: PageId| (#[trigger] a.content(p)) is Some implies b.content(p) == a.content(
        p,
    ) by {
        if a.resident_in(p) {
            assert(a.frame_ok(a.table@[p] as int));
        }
    }
}


/// A page of zeros.
pub open spec fn zero_page() -> Seq<u8> {
    Seq::new(PAGE_SIZE as nat, |i: int| 0u8)
}

impl<F: BlockFile, W: WalSync> BufferPool<F, W> {
    /// `g` is a live shared view.
    pub open spec fn reads(&self, g: &ReadGuard) -> bool {
        &&& g.frame < self.frames@.len()
        &&& self.frames@[g.frame as int].page_id == Some(g.pid)
        &&& self.frames@[g.frame as int].pin > 0
        &&& !self.frames@[g.frame as int].writer
    }

    /// `g` is the live exclusive view.
    pub open spec fn writes(&self, g: &WriteGuard) -> bool {
        &&& g.frame < self.frames@.len()
        &&& self.frames@[g.frame as int].page_id == Some(g.pid)
        &&& self.frames@[g.frame as int].writer
    }

    /// Pinned frames are as they were, but for one that was pinned once more.
    pub open spec fn keeps_pinned_but(&self, before: &Self, idx: int) -> bool {
        &&& self.frames@.len() == before.frames@.len()
        &&& forall|i: int|
            0 <= i < before.frames@.len() && i != idx ==> #[trigger] self.pinned_alike(before, i)
    }

    /// Why a page that is not resident could not be had.
    pub open spec fn refused(&self, before: &Self, pid: PageId, e: BufferError) -> bool {
        match e {
            BufferError::Exhausted => self.no_room(before),
            BufferError::Corrupt(p) => {
                &&& p == pid
                &&& has_page(self.file.image(), pid)
                &&& !page_good(self.file.image(), pid)
                &&& exists|idx: int| #[trigger] self.emptied(before, idx)
            },
            BufferError::Io(_) => {
                &&& before.has_victim()
                &&& !before.steady() || !has_page(self.file.image(), pid)
                &&& (exists|idx: int| #[trigger] self.emptied(before, idx)) || (!before.steady()
                    && exists|idx: int| #[trigger] self.stuck(before, idx))
            },
        }
    }

    /// Pin `pid` for shared reading.
    pub fn fetch_read(&mut self, pid: PageId) -> (r: Result<ReadGuard, BufferError>)
        requires
            old(self).wf(),
            old(self).resident_in(pid) ==> !old(self).frame_of(pid).writer && old(self).frame_of(
                pid,
            ).pin < u32::MAX,
        ensures
            old(self).resident_in(pid) ==> {
                let f = old(self).frame_of(pid);
                &&& *final(self) == (BufferPool {
                    frames: final(self).frames,
                    stats: final(self).stats,
                    ..*old(self)
                })
                &&& final(self).frames@ == old(self).frames@.update(
                    old(self).table@[pid] as int,
                    Frame { pin: (f.pin + 1) as u32, ref_bit: true, ..f },
                )
                &&& final(self).stats == (BufStats {
                    hits: old(self).stats.hits.wrapping_add(1),
                    ..old(self).stats
                })
            },
            !old(self).resident_in(pid) && r is Ok ==> {
                let idx = r->Ok_0.frame;
                let f = old(self).frames@[idx as int];
                &&& final(self).made_room(old(self), idx as int)
                &&& final(self).table@ == old(self).table_but(idx as int).insert(pid, idx)
                &&& final(self).stats == loaded_into(evicted_from(old(self).stats, f))
            },
            !old(self).steal ==> final(self).file.image() == old(self).file.image(),
            final(self).scarred(old(self)),
            final(self).data_follows(old(self)),
            final(self).wf(),
            final(self).keeps(old(self)),
            final(self).steady() == old(self).steady(),
            final(self).firm() == old(self).firm(),
            final(self).next_page == old(self).next_page,
            final(self).steal == old(self).steal,
            match r {
                Ok(g) => {
                    &&& g.pid == pid
                    &&& final(self).reads(&g)
                    &&& final(self).resident_in(pid)
                    &&& final(self).table@[pid] == g.frame
                    &&& final(self).keeps_pinned_but(old(self), g.frame as int)
                    &&& final(self).frame_of(pid).pin == 1 + if old(self).resident_in(pid) {
                        old(self).frame_of(pid).pin as int
                    } else {
                        0
                    }
                    &&& old(self).resident_in(pid) ==> final(self).frame_of(pid).page
                        == old(self).frame_of(pid).page && final(self).frame_of(pid).dirty
                        == old(self).frame_of(pid).dirty
                    &&& !old(self).resident_in(pid) ==> !final(self).frame_of(pid).dirty && final(
                        self).frame_of(pid).page@ == page_at(final(self).file.image(), pid)
                },
                Err(e) => {
                    &&& !old(self).resident_in(pid)
                    &&& !final(self).resident_in(pid)
                    &&& final(self).refused(old(self), pid, e)
                    &&& final(self).keeps_pinned(old(self))
                },
            },
            !old(self).resident_in(pid) && !old(self).has_victim() ==> r is Err,
    {
        let idx: usize = match self.frame_for(pid) {
            Ok(i) => i,
            Err(e) => {
                return Err(e);
            },
        };
        let ghost mid = *self;
        self.frames[idx].pin = self.frames[idx].pin + 1;
        self.frames[idx].ref_bit = true;
        proof {
            assert(self.made_room(old(self), idx as int) || old(self).resident_in(pid)) by {
                reveal(BufferPool::hand_at);
            }
            if old(self).resident_in(pid) {
                assert(self.frames@ =~= old(self).frames@.update(
                    idx as int,
                    Frame {
                        pin: (old(self).frame_of(pid).pin + 1) as u32,
                        ref_bit: true,
                        ..old(self).frame_of(pid)
                    },
                ));
            }
            lemma_pinned_once_more(&mid, self, idx as int);
            assert forall|i: int| 0 <= i < old(self).frames@.len() && i != idx implies
                #[trigger] self.pinned_alike(old(self), i) by {
                assert(mid.pinned_alike(old(self), i));
            }
            assert forall|p: PageId| (#[trigger] old(self).content(p)) is Some implies self.content(
                p,
            ) == old(self).content(p) by {
                assert(mid.content(p) == old(self).content(p));
            }
        }
        Ok(ReadGuard { frame: idx, pid })
    }

    /// Pin `pid` for exclusive writing.
    pub fn fetch_write(&mut self, pid: PageId) -> (r: Result<WriteGuard, BufferError>)
        requires
            old(self).wf(),
            old(self).resident_in(pid) ==> old(self).frame_of(pid).pin == 0,
        ensures
            old(self).resident_in(pid) ==> {
                let f = old(self).frame_of(pid);
                &&& *final(self) == (BufferPool {
                    frames: final(self).frames,
                    stats: final(self).stats,
                    ..*old(self)
                })
                &&& final(self).frames@ == old(self).frames@.update(
                    old(self).table@[pid] as int,
                    Frame { pin: (f.pin + 1) as u32, ref_bit: true, writer: true, ..f },
                )
                &&& final(self).stats == (BufStats {
                    hits: old(self).stats.hits.wrapping_add(1),
                    ..old(self).stats
                })
            },
            !old(self).resident_in(pid) && r is Ok ==> {
                let idx = r->Ok_0.frame;
                let f = old(self).frames@[idx as int];
                &&& final(self).made_room(old(self), idx as int)
                &&& final(self).table@ == old(self).table_but(idx as int).insert(pid, idx)
                &&& final(self).stats == loaded_into(evicted_from(old(self).stats, f))
            },
            final(self).scarred(old(self)),
            !old(self).steal ==> final(self).file.image() == old(self).file.image(),
            final(self).data_follows(old(self)),
            final(self).wf(),
            final(self).keeps(old(self)),
            final(self).steady() == old(self).steady(),
            final(self).firm() == old(self).firm(),
            final(self).next_page == old(self).next_page,
            final(self).steal == old(self).steal,
            match r {
                Ok(g) => {
                    &&& g.pid == pid
                    &&& final(self).writes(&g)
                    &&& final(self).resident_in(pid)
                    &&& final(self).table@[pid] == g.frame
                    &&& final(self).keeps_pinned_but(old(self), g.frame as int)
                    &&& old(self).resident_in(pid) ==> final(self).frame_of(pid).page
                        == old(self).frame_of(pid).page && final(self).frame_of(pid).dirty
                        == old(self).frame_of(pid).dirty
                    &&& !old(self).resident_in(pid) ==> !final(self).frame_of(pid).dirty && final(
                        self).frame_of(pid).page@ == page_at(final(self).file.image(), pid)
                },
                Err(e) => {
                    &&& !old(self).resident_in(pid)
                    &&& !final(self).resident_in(pid)
                    &&& final(self).refused(old(self), pid, e)
                    &&& final(self).keeps_pinned(old(self))
                },
            },
            !old(self).resident_in(pid) && !old(self).has_victim() ==> r is Err,
    {
        let idx: usize = match self.frame_for(pid) {
            Ok(i) => i,
            Err(e) => {
                return Err(e);
            },
        };
        let ghost mid = *self;
        self.frames[idx].pin = self.frames[idx].pin + 1;
        self.frames[idx].ref_bit = true;
        self.frames[idx].writer = true;
        proof {
            assert(self.made_room(old(self), idx as int) || old(self).resident_in(pid)) by {
                reveal(BufferPool::hand_at);
            }
            if old(self).resident_in(pid) {
                assert(self.frames@ =~= old(self).frames@.update(
                    idx as int,
                    Frame {
                        pin: (old(self).frame_of(pid).pin + 1) as u32,
                        ref_bit: true,
                        writer: true,
                        ..old(self).frame_of(pid)
                    },
                ));
            }
            lemma_pinned_once_more(&mid, self, idx as int);
            assert forall|i: int| 0 <= i < old(self).frames@.len() && i != idx implies
                #[trigger] self.pinned_alike(old(self), i) by {
                assert(mid.pinned_alike(old(self), i));
            }
            assert forall|p: PageId| (#[trigger] old(self).content(p)) is Some implies self.content(
                p,
            ) == old(self).content(p) by {
                assert(mid.content(p) == old(self).content(p));
            }
        }
        Ok(WriteGuard { frame: idx, pid })
    }

    /// Give a shared view back.
    pub fn release_read(&mut self, g: ReadGuard)
        requires
            old(self).wf(),
            old(self).reads(&g),
        ensures
            final(self).scarred(old(self)),
            final(self).data_follows(old(self)),
            final(self).wf(),
            final(self).frames@ == old(self).frames@.update(
                g.frame as int,
                Frame {
                    pin: (old(self).frames@[g.frame as int].pin - 1) as u32,
                    ..old(self).frames@[g.frame as int]
                },
            ),
            *final(self) == (BufferPool { frames: final(self).frames, ..*old(self) }),
            forall|p: PageId| #[trigger] final(self).content(p) == old(self).content(p),
    {
        self.frames[g.frame].pin = self.frames[g.frame].pin - 1;
        proof {
            assert forall|i: int| 0 <= i < self.frames@.len() implies #[trigger] self.frame_ok(
                i,
            ) by {
                assert(old(self).frame_ok(i));
            }
            assert forall|p: PageId| #[trigger] self.content(p) == old(self).content(p) by {
                if self.resident_in(p) {
                    assert(old(self).frame_ok(self.table@[p] as int));
                }
            }
        }
    }

    /// Give the exclusive view back; the page counts as changed.
    pub fn release_write(&mut self, g: WriteGuard)
        requires
            old(self).wf(),
            old(self).writes(&g),
        ensures
            final(self).data_follows(old(self)),
            final(self).wf(),
            final(self).frames@ == old(self).frames@.update(
                g.frame as int,
                Frame { pin: 0, writer: false, dirty: true, ..old(self).frames@[g.frame as int] },
            ),
            *final(self) == (BufferPool { frames: final(self).frames, ..*old(self) }),
            forall|p: PageId| #[trigger] final(self).content(p) == old(self).content(p),
    {
        assert(self.frame_ok(g.frame as int));
        self.frames[g.frame].dirty = true;
        self.frames[g.frame].writer = false;
        self.frames[g.frame].pin = self.frames[g.frame].pin - 1;
        proof {
            assert forall|i: int| 0 <= i < self.frames@.len() implies #[trigger] self.frame_ok(
                i,
            ) by {
                assert(old(self).frame_ok(i));
            }
            assert forall|p: PageId| #[trigger] self.content(p) == old(self).content(p) by {
                if self.resident_in(p) {
                    assert(old(self).frame_ok(self.table@[p] as int));
                }
            }
        }
    }

    /// Reserve the next page id and an evicted frame for it (shared by the
    /// `new_page*` variants). The frame is emptied but not yet initialized.
    fn begin_new_page(&mut self) -> (r: Result<(PageId, usize), BufferError>)
        requires
            old(self).wf(),
            old(self).next_page < u32::MAX,
        ensures
            !old(self).steal ==> final(self).file.image() == old(self).file.image(),
            final(self).data_follows(old(self)),
            final(self).wf(),
            final(self).keeps(old(self)),
            final(self).keeps_pinned(old(self)),
            final(self).steady() == old(self).steady(),
            final(self).firm() == old(self).firm(),
            final(self).next_page == old(self).next_page + 1,
            final(self).steal == old(self).steal,
            !final(self).resident_in(old(self).next_page),
            match r {
                Ok((pid, idx)) => {
                    &&& pid == old(self).next_page
                    &&& idx < final(self).frames@.len()
                    &&& final(self).frames@[idx as int].page_id is None
                    &&& old(self).frames@[idx as int].pin == 0
                    &&& final(self).emptied(old(self), idx as int)
                },
                Err(BufferError::Exhausted) => final(self).no_room(old(self)),
                Err(BufferError::Io(_)) => {
                    &&& !old(self).steady()
                    &&& old(self).has_victim()
                    &&& exists|idx: int| #[trigger] final(self).stuck(old(self), idx)
                },
                Err(BufferError::Corrupt(_)) => false,
            },
    {
        let pid: PageId = self.next_page;
        proof {
            if self.resident_in(pid) {
                assert(self.frame_ok(self.table@[pid] as int));
            }
        }
        self.next_page = pid + 1;
        let ghost mid = *self;
        proof {
            assert forall|i: int| 0 <= i < self.frames@.len() implies #[trigger] self.frame_ok(
                i,
            ) by {
                assert(old(self).frame_ok(i));
            }
            assert forall|p: PageId| (#[trigger] old(self).content(p)) is Some implies self.content(
                p,
            ) == old(self).content(p) by {}
        }
        let out: Result<usize, BufferError> = self.make_room();
        proof {
            assert forall|p: PageId| (#[trigger] old(self).content(p)) is Some implies self.content(
                p,
            ) == old(self).content(p) by {
                assert(mid.content(p) == old(self).content(p));
            }
            assert forall|i: int| 0 <= i < old(self).frames@.len() implies
                #[trigger] self.pinned_alike(old(self), i) by {
                assert(self.pinned_alike(&mid, i));
            }
            assert(mid.has_victim() == old(self).has_victim());
            reveal(BufferPool::hand_at);
            if out is Err && !(out->Err_0 is Exhausted) {
                let idx = choose|idx: int| #[trigger] self.stuck(&mid, idx);
                assert(self.stuck(old(self), idx));
            }
        }
        match out {
            Ok(idx) => Ok((pid, idx)),
            Err(e) => Err(e),
        }
    }

    /// Bind a freshly-initialized frame to `pid` and pin it for writing.
    fn finish_new_page(&mut self, pid: PageId, idx: usize, page: Vec<u8>) -> (g: WriteGuard)
        requires
            old(self).wf(),
            idx < old(self).frames@.len(),
            old(self).frames@[idx as int].page_id is None,
            !old(self).resident_in(pid),
            pid < old(self).next_page,
            page@.len() == PAGE_SIZE,
        ensures
            final(self).data_follows(old(self)),
            final(self).wf(),
            forall|p: PageId|
                p != pid ==> #[trigger] final(self).content(p) == old(self).content(p),
            final(self).resident_in(pid),
            final(self).table@[pid] == idx,
            final(self).frame_of(pid).page@ == page@,
            final(self).frame_of(pid).dirty,
            final(self).writes(&g),
            g.pid == pid,
            g.frame == idx,
            final(self).frames@.len() == old(self).frames@.len(),
            forall|i: int|
                0 <= i < old(self).frames@.len() && i != idx ==> final(self).frames@[i]
                    == old(self).frames@[i],
            *final(self) == (BufferPool {
                frames: final(self).frames,
                table: final(self).table,
                stats: final(self).stats,
                ..*old(self)
            }),
            final(self).table@ == old(self).table@.insert(pid, idx),
            final(self).frames@[idx as int].pin == 1,
            final(self).frames@[idx as int].ref_bit,
            final(self).stats == (BufStats {
                new_pages: old(self).stats.new_pages.wrapping_add(1),
                ..old(self).stats
            }),
    {
        assert(self.frame_ok(idx as int));
        self.frames[idx].page = page;
        self.frames[idx].page_id = Some(pid);
        self.frames[idx].dirty = true;
        self.frames[idx].ref_bit = true;
        self.frames[idx].writer = true;
        self.frames[idx].pin = 1;
        self.table.insert(pid, idx);
        self.stats.new_pages = self.stats.new_pages.wrapping_add(1);
        proof {
            assert forall|i: int| 0 <= i < self.frames@.len() implies #[trigger] self.frame_ok(
                i,
            ) by {
                assert(old(self).frame_ok(i));
            }
            assert forall|p: PageId| p != pid implies #[trigger] self.content(p) == old(
                self).content(p) by {
                if old(self).resident_in(p) {
                    assert(old(self).frame_ok(old(self).table@[p] as int));
                }
            }
        }
        WriteGuard { frame: idx, pid }
    }

    /// Allocate a fresh **slotted** page at the end of the file, returned pinned
    /// for writing. The page is dirty from birth so it will be persisted on
    /// flush/eviction.
    pub fn new_page(&mut self, page_type: PageType) -> (r: Result<(PageId, WriteGuard), BufferError>)
        requires
            old(self).wf(),
            old(self).next_page < u32::MAX,
        ensures
            !old(self).steal ==> final(self).file.image() == old(self).file.image(),
            final(self).data_follows(old(self)),
            final(self).wf(),
            final(self).keeps(old(self)),
            final(self).steady() == old(self).steady(),
            final(self).firm() == old(self).firm(),
            final(self).next_page == old(self).next_page + 1,
            final(self).steal == old(self).steal,
            match r {
                Ok((pid, g)) => {
                    let idx = g.frame as int;
                    &&& final(self).made_room(old(self), idx)
                    &&& final(self).table@ == old(self).table_but(idx).insert(pid, g.frame)
                    &&& final(self).frame_of(pid).dirty && final(self).frame_of(pid).pin == 1
                    &&& final(self).stats == (BufStats {
                        new_pages: old(self).stats.new_pages.wrapping_add(1),
                        ..evicted_from(old(self).stats, old(self).frames@[idx])
                    })
                    &&& pid == old(self).next_page
                    &&& g.pid == pid
                    &&& final(self).writes(&g)
                    &&& final(self).keeps_pinned_but(old(self), g.frame as int)
                    &&& final(self).resident_in(pid)
                    &&& final(self).table@[pid] == g.frame
                    &&& fresh_page(final(self).frame_of(pid).page@, page_type)
                },
                Err(BufferError::Exhausted) => final(self).no_room(old(self)),
                Err(BufferError::Io(_)) => {
                    &&& !old(self).steady()
                    &&& old(self).has_victim()
                    &&& exists|idx: int| #[trigger] final(self).stuck(old(self), idx)
                },
                Err(BufferError::Corrupt(_)) => false,
            },
            r is Err ==> final(self).keeps_pinned(old(self)),
    {
        let (pid, idx): (PageId, usize) = match self.begin_new_page() {
            Ok(x) => x,
            Err(e) => {
                return Err(e);
            },
        };
        let ghost mid = *self;
        let page: SlottedPage = PageBuf::new(page_type);
        let bytes: Vec<u8> = page.into_bytes().into_vec();
        let g: WriteGuard = self.finish_new_page(pid, idx, bytes);
        proof {
            assert(self.made_room(old(self), idx as int)) by {
                reveal(BufferPool::hand_at);
            }
            lemma_new_page_keeps(old(self), &mid, self, pid);
            assert forall|i: int| 0 <= i < old(self).frames@.len() && i != idx implies
                #[trigger] self.pinned_alike(old(self), i) by {
                assert(mid.pinned_alike(old(self), i));
            }
        }
        Ok((pid, g))
    }

    /// Allocate a fresh page with only the shared header stamped, leaving the body
    /// zeroed for a non-slotted layout such as a B-tree node.
    pub fn new_page_raw(&mut self, page_type: PageType) -> (r: Result<
        (PageId, WriteGuard),
        BufferError,
    >)
        requires
            old(self).wf(),
            old(self).next_page < u32::MAX,
        ensures
            !old(self).steal ==> final(self).file.image() == old(self).file.image(),
            final(self).data_follows(old(self)),
            final(self).wf(),
            final(self).keeps(old(self)),
            final(self).steady() == old(self).steady(),
            final(self).firm() == old(self).firm(),
            final(self).next_page == old(self).next_page + 1,
            final(self).steal == old(self).steal,
            match r {
                Ok((pid, g)) => {
                    let idx = g.frame as int;
                    &&& final(self).made_room(old(self), idx)
                    &&& final(self).table@ == old(self).table_but(idx).insert(pid, g.frame)
                    &&& final(self).frame_of(pid).dirty && final(self).frame_of(pid).pin == 1
                    &&& final(self).stats == (BufStats {
                        new_pages: old(self).stats.new_pages.wrapping_add(1),
                        ..evicted_from(old(self).stats, old(self).frames@[idx])
                    })
                    &&& pid == old(self).next_page
                    &&& g.pid == pid
                    &&& final(self).writes(&g)
                    &&& final(self).keeps_pinned_but(old(self), g.frame as int)
                    &&& final(self).resident_in(pid)
                    &&& final(self).table@[pid] == g.frame
                    &&& final(self).frame_of(pid).page@ == raw::blank_page(page_type)
                },
                Err(BufferError::Exhausted) => final(self).no_room(old(self)),
                Err(BufferError::Io(_)) => {
                    &&& !old(self).steady()
                    &&& old(self).has_victim()
                    &&& exists|idx: int| #[trigger] final(self).stuck(old(self), idx)
                },
                Err(BufferError::Corrupt(_)) => false,
            },
            r is Err ==> final(self).keeps_pinned(old(self)),
    {
        let (pid, idx): (PageId, usize) = match self.begin_new_page() {
            Ok(x) => x,
            Err(e) => {
                return Err(e);
            },
        };
        let ghost mid = *self;
        let mut bytes: Vec<u8> = vec![0u8; PAGE_SIZE];
        raw::init_header(bytes.as_mut_slice(), page_type);
        let g: WriteGuard = self.finish_new_page(pid, idx, bytes);
        proof {
            assert(self.made_room(old(self), idx as int)) by {
                reveal(BufferPool::hand_at);
            }
            lemma_new_page_keeps(old(self), &mid, self, pid);
            assert forall|i: int| 0 <= i < old(self).frames@.len() && i != idx implies
                #[trigger] self.pinned_alike(old(self), i) by {
                assert(mid.pinned_alike(old(self), i));
            }
        }
        Ok((pid, g))
    }

    /// Flush a single page if resident and dirty.
    pub fn flush_page(&mut self, pid: PageId) -> (r: Result<(), BufferError>)
        requires
            old(self).wf(),
            old(self).resident_in(pid) && old(self).frame_of(pid).dirty ==> !old(self).frame_of(
                pid,
            ).writer,
        ensures
            *final(self) == (BufferPool {
                frames: final(self).frames,
                file: final(self).file,
                wal: final(self).wal,
                stats: final(self).stats,
                dpt: final(self).dpt,
                ..*old(self)
            }),
            r is Err ==> final(self).frames == old(self).frames && final(self).dpt == old(self).dpt
                && final(self).stats == old(self).stats && (old(self).firm() ==> final(self).file
                == old(self).file),
            !(old(self).resident_in(pid) && old(self).frame_of(pid).dirty) ==> r is Ok
                && *final(self) == *old(self),
            r is Ok && old(self).resident_in(pid) && old(self).frame_of(pid).dirty ==> {
                &&& final(self).frames@ == old(self).frames@.update(
                    old(self).table@[pid] as int,
                    Frame { dirty: false, ..old(self).frame_of(pid) },
                )
                &&& final(self).dpt@ == old(self).dpt@.remove(pid)
                &&& final(self).stats == flushed_from(old(self).stats)
            },
            final(self).data_follows(old(self)),
            final(self).wf(),
            final(self).keeps(old(self)),
            final(self).steady() == old(self).steady(),
            final(self).firm() == old(self).firm(),
            final(self).next_page == old(self).next_page,
            final(self).table == old(self).table,
            r matches Err(e) ==> e is Io && !old(self).steady(),
            r is Ok && old(self).resident_in(pid) ==> !final(self).frame_of(pid).dirty,
            forall|p: PageId|
                p != pid && old(self).resident_in(p) ==> #[trigger] final(self).frame_of(p)
                    == old(self).frame_of(p),
            final(self).frames@.len() == old(self).frames@.len(),
            r is Ok && old(self).resident_in(pid) && old(self).frame_of(pid).dirty ==> final(
                self).file.image() == overwritten(
                old(self).file.image(),
                offset_of(pid),
                stamped(old(self).frame_of(pid).page@),
            ) && final(self).wal.flushed() >= le64(old(self).frame_of(pid).page@, 4),
    {
        if let Some(idx) = self.resident(pid) {
            proof {
                assert forall|p: PageId| p != pid && old(self).resident_in(p) implies old(
                    self).table@[p] != idx by {
                    assert(old(self).frame_ok(old(self).table@[p] as int));
                }
            }
            return self.flush_frame(idx);
        }
        Ok(())
    }

    /// No frame is both dirty and being written.
    pub open spec fn no_dirty_writer(&self) -> bool {
        forall|i: int|
            0 <= i < self.frames@.len() ==> !((#[trigger] self.frames@[i]).dirty
                && self.frames@[i].writer)
    }

    /// The file holds everything that the pool holds, but for pages being written.
    pub open spec fn flushed_out(&self) -> bool {
        forall|p: PageId|
            (#[trigger] self.content(p)) is Some && (self.resident_in(p) ==> !self.frame_of(
                p,
            ).writer) ==> page_good(self.file.image(), p) && Some(
                body_of(page_at(self.file.image(), p)),
            ) == self.content(p)
    }

    /// The first `n` frames were flushed, and nothing else: their pages are clean and have no
    /// entry in the dirty page table.
    pub open spec fn flushed_to(&self, before: &Self, n: int) -> bool {
        &&& self.frames@ == Seq::new(
            before.frames@.len(),
            |i: int|
                if i < n {
                    Frame { dirty: false, ..before.frames@[i] }
                } else {
                    before.frames@[i]
                },
        )
        &&& self.dpt@ == dpt_flushed(before.dpt@, before.frames@, n)
        &&& self.stats == stats_flushed(before.stats, before.frames@, n)
    }

    /// A flush of all frames stopped at the dirty frame `n`.
    pub open spec fn stopped_at(&self, before: &Self, n: int) -> bool {
        &&& 0 <= n < before.frames@.len()
        &&& before.frames@[n].dirty
        &&& self.flushed_to(before, n)
        &&& before.firm() ==> self.file.image() == image_flushed(
            before.file.image(),
            before.frames@,
            n,
        )
    }

    /// Every frame was flushed.
    pub open spec fn all_flushed(&self, before: &Self) -> bool {
        let n = before.frames@.len() as int;
        &&& self.flushed_to(before, n)
        &&& self.file.image() == image_flushed(before.file.image(), before.frames@, n)
    }

    /// Flush every dirty frame. No exclusive view of a dirty page may be live;
    /// shared views are fine.
    pub fn flush_all(&mut self) -> (r: Result<(), BufferError>)
        requires
            old(self).wf(),
            old(self).no_dirty_writer(),
        ensures
            *final(self) == (BufferPool {
                frames: final(self).frames,
                file: final(self).file,
                wal: final(self).wal,
                stats: final(self).stats,
                dpt: final(self).dpt,
                ..*old(self)
            }),
            match r {
                Ok(()) => final(self).all_flushed(old(self)),
                Err(_) => exists|n: int| #[trigger] final(self).stopped_at(old(self), n),
            },
            final(self).data_follows(old(self)),
            final(self).wf(),
            final(self).keeps(old(self)),
            final(self).steady() == old(self).steady(),
            final(self).firm() == old(self).firm(),
            final(self).next_page == old(self).next_page,
            final(self).steal == old(self).steal,
            final(self).table == old(self).table,
            final(self).frames@.len() == old(self).frames@.len(),
            forall|i: int|
                0 <= i < old(self).frames@.len() ==> (#[trigger] final(self).frames@[i]) == (Frame {
                    dirty: final(self).frames@[i].dirty,
                    ..old(self).frames@[i]
                }),
            r matches Err(e) ==> e is Io && !old(self).steady(),
            r is Ok ==> final(self).flushed_out() && forall|i: int|
                0 <= i < final(self).frames@.len() ==> !(#[trigger] final(self).frames@[i]).dirty,
    {
        let n: usize = self.frames.len();
        let mut idx: usize = 0;
        proof {
            assert(self.frames@ =~= Seq::new(
                old(self).frames@.len(),
                |i: int|
                    if i < 0 {
                        Frame { dirty: false, ..old(self).frames@[i] }
                    } else {
                        old(self).frames@[i]
                    },
            ));
        }
        while idx < n
            invariant
                *self == (BufferPool {
                    frames: self.frames,
                    file: self.file,
                    wal: self.wal,
                    stats: self.stats,
                    dpt: self.dpt,
                    ..*old(self)
                }),
                self.flushed_to(old(self), idx as int),
                self.file.image() == image_flushed(
                    old(self).file.image(),
                    old(self).frames@,
                    idx as int,
                ),
                idx <= n == self.frames@.len(),
                n == old(self).frames@.len(),
                self.wf(),
                self.data_follows(old(self)),
                self.keeps(old(self)),
                self.no_dirty_writer(),
                self.steady() == old(self).steady(),
                self.firm() == old(self).firm(),
                self.next_page == old(self).next_page,
                self.steal == old(self).steal,
                self.table == old(self).table,
                forall|i: int|
                    0 <= i < n ==> (#[trigger] self.frames@[i]) == (Frame {
                        dirty: self.frames@[i].dirty,
                        ..old(self).frames@[i]
                    }),
                forall|i: int| 0 <= i < idx ==> !(#[trigger] self.frames@[i]).dirty,
            decreases n - idx,
        {
            let ghost mid = *self;
            let out: Result<(), BufferError> = self.flush_frame(idx);
            proof {
                assert forall|p: PageId| (#[trigger] old(self).content(p)) is Some implies
                    self.content(p) == old(self).content(p) by {
                    assert(mid.content(p) == old(self).content(p));
                }
            }
            proof {
                if out is Err {
                    assert(self.stopped_at(old(self), idx as int));
                } else {
                    assert(self.frames@ =~= Seq::new(
                        old(self).frames@.len(),
                        |i: int|
                            if i < idx + 1 {
                                Frame { dirty: false, ..old(self).frames@[i] }
                            } else {
                                old(self).frames@[i]
                            },
                    ));
                }
            }
            if let Err(e) = out {
                return Err(e);
            }
            idx = idx + 1;
        }
        proof {
            assert forall|p: PageId|
                (#[trigger] self.content(p)) is Some && (self.resident_in(p) ==> !self.frame_of(
                    p,
                ).writer) implies page_good(self.file.image(), p) && Some(
                body_of(page_at(self.file.image(), p)),
            ) == self.content(p) by {
                if self.resident_in(p) {
                    assert(self.frame_ok(self.table@[p] as int));
                }
            }
        }
        Ok(())
    }

    /// Flush everything and sync the underlying file: everything written before
    /// this call is durable after it.
    pub fn checkpoint(&mut self) -> (r: Result<(), BufferError>)
        requires
            old(self).wf(),
            old(self).no_dirty_writer(),
        ensures
            *final(self) == (BufferPool {
                frames: final(self).frames,
                file: final(self).file,
                wal: final(self).wal,
                stats: final(self).stats,
                dpt: final(self).dpt,
                ..*old(self)
            }),
            match r {
                Ok(()) => final(self).all_flushed(old(self)),
                Err(_) => final(self).all_flushed(old(self)) || exists|n: int| #[trigger]
                    final(self).stopped_at(old(self), n),
            },
            final(self).data_follows(old(self)),
            final(self).wf(),
            final(self).keeps(old(self)),
            final(self).steady() == old(self).steady(),
            final(self).firm() == old(self).firm(),
            final(self).next_page == old(self).next_page,
            final(self).steal == old(self).steal,
            final(self).table == old(self).table,
            final(self).frames@.len() == old(self).frames@.len(),
            forall|i: int|
                0 <= i < old(self).frames@.len() ==> (#[trigger] final(self).frames@[i]) == (Frame {
                    dirty: final(self).frames@[i].dirty,
                    ..old(self).frames@[i]
                }),
            r matches Err(e) ==> e is Io && !old(self).steady(),
            r is Ok ==> final(self).file.synced(),
            r is Ok ==> final(self).flushed_out(),
    {
        match self.flush_all() {
            Ok(()) => {},
            Err(e) => {
                return Err(e);
            },
        }
        self.sync()
    }

    /// Sync the underlying file.
    pub fn sync(&mut self) -> (r: Result<(), BufferError>)
        requires
            old(self).wf(),
        ensures
            final(self).data_follows(old(self)),
            final(self).wf(),
            final(self).file.image() == old(self).file.image(),
            *final(self) == (BufferPool { file: final(self).file, ..*old(self) }),
            final(self).steady() == old(self).steady(),
            final(self).firm() == old(self).firm(),
            forall|p: PageId| #[trigger] final(self).content(p) == old(self).content(p),
            old(self).flushed_out() ==> final(self).flushed_out(),
            r is Ok ==> final(self).file.synced(),
            r matches Err(e) ==> e is Io && !old(self).steady(),
    {
        let out: Result<(), IoError> = self.file.sync();
        proof {
            assert forall|i: int| 0 <= i < self.frames@.len() implies #[trigger] self.frame_ok(
                i,
            ) by {
                assert(old(self).frame_ok(i));
            }
            assert forall|p: PageId| #[trigger] self.content(p) == old(self).content(p) by {}
        }
        match out {
            Ok(()) => Ok(()),
            Err(e) => Err(BufferError::Io(e)),
        }
    }

    /// Drop a resident page from the pool **without** flushing it: the abort path.
    /// Under no-steal the page's uncommitted changes were never written, so
    /// discarding the frame reverts to the durable version, which the next fetch
    /// reloads. No view of `pid` may be live.
    pub fn invalidate(&mut self, pid: PageId)
        requires
            old(self).wf(),
            old(self).resident_in(pid) ==> old(self).frame_of(pid).pin == 0,
        ensures
            final(self).data_follows(old(self)),
            final(self).wf(),
            final(self).table@ == old(self).table@.remove(pid),
            final(self).dpt@ == old(self).dpt@.remove(pid),
            *final(self) == (BufferPool {
                frames: final(self).frames,
                table: final(self).table,
                dpt: final(self).dpt,
                ..*old(self)
            }),
            final(self).keeps_pinned(old(self)),
            final(self).frames@ == if old(self).resident_in(pid) {
                old(self).frames@.update(
                    old(self).table@[pid] as int,
                    Frame {
                        page_id: None,
                        dirty: false,
                        pin: 0,
                        ref_bit: false,
                        ..old(self).frame_of(pid)
                    },
                )
            } else {
                old(self).frames@
            },
            forall|p: PageId|
                p != pid ==> #[trigger] final(self).content(p) == old(self).content(p),
            final(self).content(pid) == old(self).durable(pid),
    {
        if let Some(idx) = self.resident(pid) {
            assert(self.frame_ok(idx as int));
            self.table.remove(&pid);
            self.frames[idx].page_id = None;
            self.frames[idx].dirty = false;
            self.frames[idx].pin = 0;
            self.frames[idx].ref_bit = false;
        }
        self.dpt.remove(&pid);
        proof {
            assert(self.table@ =~= old(self).table@.remove(pid));
            assert(self.dpt@ =~= old(self).dpt@.remove(pid));
            assert forall|i: int| 0 <= i < self.frames@.len() implies #[trigger] self.frame_ok(
                i,
            ) by {
                assert(old(self).frame_ok(i));
            }
            assert forall|p: PageId| p != pid implies #[trigger] self.content(p) == old(
                self).content(p) by {
                if old(self).resident_in(p) {
                    assert(old(self).frame_ok(old(self).table@[p] as int));
                }
            }
        }
    }

    /// Fetch a page for redo, reconstructing it if the on-disk copy is missing or
    /// fails its checksum (a torn/dropped page). Never errors on a bad page: the
    /// log is the source of truth and redo rebuilds it. Used only by recovery.
    pub fn fetch_write_for_redo(&mut self, pid: PageId) -> (r: Result<WriteGuard, BufferError>)
        requires
            old(self).wf(),
            pid < u32::MAX,
            old(self).resident_in(pid) ==> old(self).frame_of(pid).pin == 0,
        ensures
            old(self).resident_in(pid) ==> {
                let f = old(self).frame_of(pid);
                &&& *final(self) == (BufferPool {
                    frames: final(self).frames,
                    stats: final(self).stats,
                    ..*old(self)
                })
                &&& final(self).frames@ == old(self).frames@.update(
                    old(self).table@[pid] as int,
                    Frame { pin: (f.pin + 1) as u32, ref_bit: true, writer: true, ..f },
                )
                &&& final(self).stats == old(self).stats
            },
            !old(self).resident_in(pid) && r is Ok ==> {
                let idx = r->Ok_0.frame;
                &&& final(self).made_room(old(self), idx as int)
                &&& final(self).table@ == old(self).table_but(idx as int).insert(pid, idx)
                &&& final(self).stats == evicted_from(
                    old(self).stats,
                    old(self).frames@[idx as int],
                )
            },
            final(self).steal == old(self).steal,
            !old(self).steal ==> final(self).file.image() == old(self).file.image(),
            final(self).data_follows(old(self)),
            final(self).wf(),
            forall|p: PageId|
                p != pid && (#[trigger] old(self).content(p)) is Some ==> final(self).content(p)
                    == old(self).content(p),
            final(self).steady() == old(self).steady(),
            final(self).firm() == old(self).firm(),
            match r {
                Ok(g) => {
                    &&& g.pid == pid
                    &&& final(self).writes(&g)
                    &&& final(self).keeps_pinned_but(old(self), g.frame as int)
                    &&& final(self).resident_in(pid)
                    &&& final(self).table@[pid] == g.frame
                    &&& old(self).resident_in(pid) ==> {
                        &&& final(self).frame_of(pid).page == old(self).frame_of(pid).page
                        &&& final(self).next_page == old(self).next_page
                    }
                    &&& !old(self).resident_in(pid) ==> {
                        let good = pid < old(self).next_page && page_good(
                            final(self).file.image(),
                            pid,
                        );
                        let page = final(self).frame_of(pid).page@;
                        &&& page == zero_page() || (good && page == page_at(
                            final(self).file.image(),
                            pid,
                        ))
                        &&& old(self).steady() && good ==> page == page_at(
                            final(self).file.image(),
                            pid,
                        )
                        &&& final(self).frame_of(pid).dirty
                        &&& final(self).next_page == if pid >= old(self).next_page {
                            (pid + 1) as u32
                        } else {
                            old(self).next_page
                        }
                    }
                },
                Err(BufferError::Exhausted) => {
                    &&& !old(self).resident_in(pid)
                    &&& final(self).no_room(old(self))
                },
                Err(BufferError::Io(_)) => {
                    &&& !old(self).resident_in(pid)
                    &&& !old(self).steady()
                    &&& exists|idx: int| #[trigger] final(self).stuck(old(self), idx)
                },
                Err(BufferError::Corrupt(_)) => false,
            },
            r is Err ==> final(self).keeps_pinned(old(self)),
    {
        if let Some(idx) = self.resident(pid) {
            assert(self.frame_ok(idx as int));
            self.frames[idx].pin = self.frames[idx].pin + 1;
            self.frames[idx].ref_bit = true;
            self.frames[idx].writer = true;
            proof {
                assert(self.frames@ =~= old(self).frames@.update(
                    idx as int,
                    Frame {
                        pin: (old(self).frame_of(pid).pin + 1) as u32,
                        ref_bit: true,
                        writer: true,
                        ..old(self).frame_of(pid)
                    },
                ));
                lemma_pinned_once_more(old(self), self, idx as int);
            }
            return Ok(WriteGuard { frame: idx, pid });
        }
        let idx: usize = match self.make_room() {
            Ok(i) => i,
            Err(e) => {
                return Err(e);
            },
        };
        let ghost mid = *self;
        assert(mid.frame_ok(idx as int));
        let mut buf: Vec<u8> = vec![0u8; PAGE_SIZE];
        let mut readable: bool = false;
        if pid < self.next_page {
            match self.file.read_at(&mut buf, page_offset(pid)) {
                Ok(()) => {
                    readable = raw::verify_checksum(buf.as_slice());
                },
                Err(e) => {},
            }
        }
        if !readable {
            zero_fill(buf.as_mut_slice());
            assert(buf@ =~= zero_page());
        }
        self.frames[idx].page = buf;
        self.frames[idx].page_id = Some(pid);
        self.frames[idx].dirty = true;
        self.frames[idx].ref_bit = true;
        self.frames[idx].pin = self.frames[idx].pin + 1;
        self.frames[idx].writer = true;
        if pid >= self.next_page {
            self.next_page = pid + 1;
        }
        self.table.insert(pid, idx);
        proof {
            assert(self.made_room(old(self), idx as int)) by {
                reveal(BufferPool::hand_at);
            }
            assert forall|i: int| 0 <= i < self.frames@.len() implies #[trigger] self.frame_ok(
                i,
            ) by {
                assert(mid.frame_ok(i));
            }
            assert forall|p: PageId|
                p != pid && (#[trigger] old(self).content(p)) is Some implies self.content(p)
                == old(self).content(p) by {
                assert(mid.content(p) == old(self).content(p));
                if mid.resident_in(p) {
                    assert(mid.frame_ok(mid.table@[p] as int));
                }
            }
            assert forall|i: int| 0 <= i < old(self).frames@.len() && i != idx implies
                #[trigger] self.pinned_alike(old(self), i) by {
                assert(mid.pinned_alike(old(self), i));
            }
        }
        Ok(WriteGuard { frame: idx, pid })
    }
}

/// Pinning changes nothing that a page holds.
proof fn lemma_pinned_once_more<F: BlockFile, W: WalSync>(
    a: &BufferPool<F, W>,
    b: &BufferPool<F, W>,
    idx: int,
)
    requires
        a.wf(),
        0 <= idx < a.frames@.len(),
        a.frames@[idx].page_id is Some,
        b.frames@.len() == a.frames@.len(),
        forall|i: int| 0 <= i < a.frames@.len() && i != idx ==> b.frames@[i] == a.frames@[i],
        b.frames@[idx].page == a.frames@[idx].page,
        b.frames@[idx].page_id == a.frames@[idx].page_id,
        b.frames@[idx].dirty == a.frames@[idx].dirty,
        b.frames@[idx].writer || !a.frames@[idx].writer,
        b.frames@[idx].writer ==> b.frames@[idx].pin == 1,
        b.table == a.table,
        b.next_page == a.next_page,
        b.clock == a.clock,
        b.file == a.file,
    ensures
        b.wf(),
        b.keeps(a),
{
    assert forall|i: int| 0 <= i < b.frames@.len() implies #[trigger] b.frame_ok(i) by {
        assert(a.frame_ok(i));
    }
    assert forall|p: PageId| (#[trigger] a.content(p)) is Some implies b.content(p) == a.content(
        p,
    ) by {
        if a.resident_in(p) {
            assert(a.frame_ok(a.table@[p] as int));
        }
    }
}

proof fn lemma_new_page_keeps<F: BlockFile, W: WalSync>(
    a: &BufferPool<F, W>,
    mid: &BufferPool<F, W>,
    b: &BufferPool<F, W>,
    pid: PageId,
)
    requires
        a.wf(),
        mid.keeps(a),
        pid == a.next_page,
        forall|p: PageId| p != pid ==> #[trigger] b.content(p) == mid.content(p),
    ensures
        b.keeps(a),
{
    assert(a.content(pid) is None) by {
        if a.resident_in(pid) {
            assert(a.frame_ok(a.table@[pid] as int));
        }
    }
    assert forall|p: PageId| (#[trigger] a.content(p)) is Some implies b.content(p) == a.content(
        p,
    ) by {
        assert(mid.content(p) == a.content(p));
    }
}


impl<F: BlockFile> BufferPool<F, NoWal> {
    /// Convenience: open with no WAL.
    pub fn open_default(file: F, n_frames: usize) -> (r: Result<Self, BufferError>)
        requires
            n_frames > 0,
            file.image().len() < 0x2000_0000_0000,
        ensures
            match r {
                Ok(p) => {
                    &&& p.wf()
                    &&& p.file.image() == file.image()
                    &&& p.file.reliable() == file.reliable()
                    &&& p.file.synced() == file.synced()
                    &&& p.frames@.len() == n_frames
                    &&& forall|i: int| 0 <= i < n_frames ==> (#[trigger] p.frames@[i]).pin == 0
                    &&& p.table@ == Map::<PageId, usize>::empty()
                    &&& p.next_page == file.image().len() as int / PAGE_SIZE as int
                    &&& p.dpt@ == Map::<PageId, u64>::empty()
                    &&& p.steal
                },
                Err(e) => e is Io && !file.reliable(),
            },
    {
        BufferPool::open(file, n_frames, NoWal)
    }
}

impl ReadGuard {
    pub fn page_id(&self) -> (p: PageId)
        ensures
            p == self.pid,
    {
        self.pid
    }

    /// The page's bytes.
    pub fn bytes<'a, F: BlockFile, W: WalSync>(&self, pool: &'a BufferPool<F, W>) -> (s: &'a [u8])
        requires
            pool.wf(),
            pool.reads(self),
        ensures
            s@ == pool.frames@[self.frame as int].page@,
            s@.len() == PAGE_SIZE,
            Some(body_of(s@)) == pool.content(self.pid),
    {
        assert(pool.frame_ok(self.frame as int));
        pool.frames[self.frame].page.as_slice()
    }

    /// A slotted-page view of a copy of this frame.
    pub fn page<F: BlockFile, W: WalSync>(&self, pool: &BufferPool<F, W>) -> (p: SlottedPage)
        requires
            pool.wf(),
            pool.reads(self),
        ensures
            p@ == pool.frames@[self.frame as int].page@,
            p@.len() == PAGE_SIZE,
    {
        SlottedPage::from_bytes(PageBuf::from_vec(copy_bytes(self.bytes(pool))))
    }
}

impl WriteGuard {
    pub fn page_id(&self) -> (p: PageId)
        ensures
            p == self.pid,
    {
        self.pid
    }

    /// The page's bytes.
    pub fn bytes<'a, F: BlockFile, W: WalSync>(&self, pool: &'a BufferPool<F, W>) -> (s: &'a [u8])
        requires
            pool.wf(),
            pool.writes(self),
        ensures
            s@ == pool.frames@[self.frame as int].page@,
            s@.len() == PAGE_SIZE,
            Some(body_of(s@)) == pool.content(self.pid),
    {
        assert(pool.frame_ok(self.frame as int));
        pool.frames[self.frame].page.as_slice()
    }

    /// A slotted-page view of a copy of this frame.
    pub fn page<F: BlockFile, W: WalSync>(&self, pool: &BufferPool<F, W>) -> (p: SlottedPage)
        requires
            pool.wf(),
            pool.writes(self),
        ensures
            p@ == pool.frames@[self.frame as int].page@,
            p@.len() == PAGE_SIZE,
    {
        SlottedPage::from_bytes(PageBuf::from_vec(copy_bytes(self.bytes(pool))))
    }

    /// Replace the page's contents, the only way to change them.
    pub fn page_mut<F: BlockFile, W: WalSync>(&self, pool: &mut BufferPool<F, W>, page: &[u8])
        requires
            old(pool).wf(),
            old(pool).writes(self),
            page@.len() == PAGE_SIZE,
        ensures
            final(pool).data_follows(old(pool)),
            final(pool).wf(),
            final(pool).writes(self),
            final(pool).frames@[self.frame as int].page@ == page@,
            final(pool).frames@ == old(pool).frames@.update(
                self.frame as int,
                Frame {
                    page: final(pool).frames@[self.frame as int].page,
                    ..old(pool).frames@[self.frame as int]
                },
            ),
            *final(pool) == (BufferPool { frames: final(pool).frames, ..*old(pool) }),
            final(pool).content(self.pid) == Some(body_of(page@)),
            forall|p: PageId|
                p != self.pid ==> #[trigger] final(pool).content(p) == old(pool).content(p),
    {
        assert(pool.frame_ok(self.frame as int));
        pool.frames[self.frame].page = copy_bytes(page);
        proof {
            assert forall|i: int| 0 <= i < pool.frames@.len() implies #[trigger] pool.frame_ok(
                i,
            ) by {
                assert(old(pool).frame_ok(i));
            }
            assert forall|p: PageId| p != self.pid implies #[trigger] pool.content(p) == old(
                pool).content(p) by {
                if old(pool).resident_in(p) {
                    assert(old(pool).frame_ok(old(pool).table@[p] as int));
                }
            }
        }
    }

    /// Stamp the page LSN.
    pub fn set_page_lsn<F: BlockFile, W: WalSync>(&self, pool: &mut BufferPool<F, W>, lsn: u64)
        requires
            old(pool).wf(),
            old(pool).writes(self),
        ensures
            final(pool).data_follows(old(pool)),
            final(pool).wf(),
            final(pool).writes(self),
            final(pool).frames@[self.frame as int].page@ == splice(
                old(pool).frames@[self.frame as int].page@,
                4,
                crate::bytes::le64_bytes(lsn),
            ),
            le64(final(pool).frames@[self.frame as int].page@, 4) == lsn,
            *final(pool) == (BufferPool { frames: final(pool).frames, ..*old(pool) }),
            forall|p: PageId|
                p != self.pid ==> #[trigger] final(pool).content(p) == old(pool).content(p),
    {
        let mut page: Vec<u8> = copy_bytes(self.bytes(pool));
        raw::set_page_lsn(page.as_mut_slice(), lsn);
        self.page_mut(pool, page.as_slice());
    }
}

/// An evicted page comes back unchanged: whatever a fetch evicted or loaded, every
/// page that could be had still holds what it held.
pub proof fn law_contents_survive_eviction<F: BlockFile, W: WalSync>(
    a: &BufferPool<F, W>,
    b: &BufferPool<F, W>,
    c: &BufferPool<F, W>,
)
    requires
        b.keeps(a),
        c.keeps(b),
    ensures
        c.keeps(a),
{
    assert forall|p: PageId| (#[trigger] a.content(p)) is Some implies c.content(p) == a.content(
        p,
    ) by {
        assert(b.content(p) == a.content(p));
    }
}

/// What a checkpoint wrote survives a reopening: a pool over the same file image
/// has every page that the checkpointed pool had.
pub proof fn law_checkpoint_survives_reopen<F: BlockFile, W: WalSync>(
    a: &BufferPool<F, W>,
    b: &BufferPool<F, W>,
    p: PageId,
)
    requires
        a.flushed_out(),
        a.content(p) is Some,
        a.resident_in(p) ==> !a.frame_of(p).writer,
        b.table@ == Map::<PageId, usize>::empty(),
        b.file.image() == a.file.image(),
    ensures
        b.content(p) == a.content(p),
{
}

/// A checkpoint is a barrier: what a pool held when it ended is found again by a pool
/// opened on the disk after any loss of power.
pub proof fn law_checkpoint_survives_power_loss<W: WalSync>(
    a: &BufferPool<FaultDisk, W>,
    order: Seq<usize>,
    fates: Seq<FateView>,
    b: &BufferPool<FaultDisk, W>,
    p: PageId,
)
    requires
        a.flushed_out(),
        a.file.synced(),
        a.content(p) is Some,
        a.resident_in(p) ==> !a.frame_of(p).writer,
        plan_ok(ops_of(a.file.pending@), order, fates, a.file.sector as int),
        b.table@ == Map::<PageId, usize>::empty(),
        b.file.image() == crash_image(
            a.file.durable@,
            ops_of(a.file.pending@),
            order,
            fates,
            a.file.sector as int,
            order.len() as int,
        ),
    ensures
        b.file.image() == a.file.image(),
        b.content(p) == a.content(p),
{
    law_synced_disk_survives_a_crash(&a.file, order, fates);
    law_checkpoint_survives_reopen(a, b, p);
}

/// Where data has followed the log since the file was empty, or since the log was ahead of
/// it, the log is durable through the LSN of every page of the file that verifies.
pub proof fn law_data_follows_the_log<F: BlockFile, W: WalSync>(
    first: &BufferPool<F, W>,
    last: &BufferPool<F, W>,
    p: PageId,
)
    requires
        first.firm(),
        first.file.image().len() == 0 || first.log_ahead(),
        last.data_follows(first),
        page_good(last.file.image(), p),
    ensures
        first.log_ahead(),
        last.log_ahead(),
        le64(page_at(last.file.image(), p), 4) <= last.wal.flushed(),
{
    reveal(ahead);
}

/// The abort path: where the file has stayed as it was since the page was clean, as it does
/// under no-steal through every fetch and allocation, invalidating the page gives back what it
/// held then.
pub proof fn law_invalidate_gives_back_the_durable_page<F: BlockFile, W: WalSync>(
    clean: &BufferPool<F, W>,
    changed: &BufferPool<F, W>,
    invalidated: &BufferPool<F, W>,
    p: PageId,
)
    requires
        clean.wf(),
        clean.resident_in(p) ==> !clean.frame_of(p).dirty && !clean.frame_of(p).writer,
        changed.file.image() == clean.file.image(),
        invalidated.content(p) == changed.durable(p),
    ensures
        invalidated.content(p) == clean.durable(p),
        invalidated.content(p) == clean.content(p),
{
    if clean.resident_in(p) {
        assert(clean.frame_ok(clean.table@[p] as int));
    }
}

} // verus!
