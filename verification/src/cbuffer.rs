//! A page cache whose disk I/O happens while its directory is not held.
//!
//! [`dir::Dir`] holds the protocol: a miss reserves a frame, the I/O is done, and
//! the page is published or the reservation undone. [`PageCache`] is the cache for
//! one caller at a time, every step of it taken through the directory. Dirty pages
//! are written under WAL-before-data, and where the page format has a checksum it is
//! stamped on every write and verified on every read.

use std::collections::HashMap;

use vstd::prelude::*;

use crate::buffer::{
    body_of, has_page, is_snapshot, lemma_damage_page, lemma_stamped_body, lemma_write_page,
    offset_of, page_at, page_offset, snapshot_of, NoWal, PageId, WalSync,
};
use crate::bytes::{copy_bytes, le64, rd_u64, zero_fill};
use crate::cbuffer::dir::{empty_slot, open_slots, pins_to, Abort, Dir, FlushStep, Slot, Step};
use crate::faultfs::{
    crash_image, law_synced_disk_survives_a_crash, ops_of, plan_ok, FateView, FaultDisk,
};
use crate::page::{checksum_ok, raw, stamped, PAGE_SIZE};
use crate::text::{around, decimal};
use crate::vfs::{differs_only_at, overwritten, BlockFile, IoError};

pub mod dir;

verus! {

broadcast use vstd::std_specs::hash::group_hash_axioms;

/// Leave a page's integrity field alone.
pub fn no_stamp(page: &mut Vec<u8>)
    ensures
        final(page)@ == old(page)@,
{
}

/// Take any page as it is.
pub fn always_valid(page: &[u8]) -> (r: bool)
    ensures
        r,
{
    true
}

/// The LSN of a page without one: nothing to order against.
pub fn no_lsn(page: &[u8]) -> (r: u64)
    ensures
        r == 0,
{
    0
}

/// How the cache reads a page's LSN, and whether it stamps and checks the page's
/// checksum.
#[derive(Clone, Copy, Debug, PartialEq, Eq, Structural)]
pub struct PageFormat {
    /// Where the page's LSN stands, if it has one.
    pub lsn_at: Option<usize>,
    /// The page carries a checksum.
    pub checked: bool,
}

impl PageFormat {
    /// The LSN lies in the page.
    pub open spec fn fits(self) -> bool {
        self.lsn_at matches Some(k) ==> k + 8 <= PAGE_SIZE
    }

    pub open spec fn lsn(self, page: Seq<u8>) -> int {
        match self.lsn_at {
            Some(k) => le64(page, k as int),
            None => 0,
        }
    }

    /// The page as it is written.
    pub open spec fn sealed(self, page: Seq<u8>) -> Seq<u8> {
        if self.checked {
            stamped(page)
        } else {
            page
        }
    }

    /// The page may be taken as it was read.
    pub open spec fn valid(self, page: Seq<u8>) -> bool {
        self.checked ==> checksum_ok(page)
    }

    /// What of a page the cache promises to keep: all but the checksum field, which
    /// is brought up to date only on writing.
    pub open spec fn gist(self, page: Seq<u8>) -> Seq<u8> {
        if self.checked {
            body_of(page)
        } else {
            page
        }
    }

    /// Pages are opaque bytes: no LSN ordering, no stamping, no checking.
    pub fn opaque() -> (f: PageFormat)
        ensures
            f == (PageFormat { lsn_at: None, checked: false }),
    {
        PageFormat { lsn_at: None, checked: false }
    }

    /// The layout of this crate's pages: an LSN for WAL-before-data, and a checksum
    /// stamped on every write and verified on every read.
    pub fn keel_page() -> (f: PageFormat)
        ensures
            f == (PageFormat { lsn_at: Some(4), checked: true }),
    {
        PageFormat { lsn_at: Some(4), checked: true }
    }

    pub fn lsn_of(&self, page: &[u8]) -> (r: u64)
        requires
            self.fits(),
            page@.len() == PAGE_SIZE,
        ensures
            r == self.lsn(page@),
    {
        match self.lsn_at {
            Some(k) => rd_u64(page, k),
            None => no_lsn(page),
        }
    }

    pub fn stamp(&self, page: &mut Vec<u8>)
        requires
            old(page)@.len() == PAGE_SIZE,
        ensures
            final(page)@ == self.sealed(old(page)@),
    {
        if self.checked {
            raw::stamp_checksum(page.as_mut_slice());
        } else {
            no_stamp(page);
        }
    }

    pub fn verify(&self, page: &[u8]) -> (r: bool)
        requires
            page@.len() == PAGE_SIZE,
        ensures
            r == self.valid(page@),
    {
        if self.checked {
            raw::verify_checksum(page)
        } else {
            always_valid(page)
        }
    }
}

proof fn lemma_sealed(f: PageFormat, page: Seq<u8>)
    requires
        page.len() == PAGE_SIZE,
    ensures
        f.sealed(page).len() == PAGE_SIZE,
        f.valid(f.sealed(page)),
        f.gist(f.sealed(page)) == f.gist(page),
{
    lemma_stamped_body(page);
}

/// The file is made of whole pages, and the log is durable through the LSN of each of
/// them that passes the check; the LSN lies outside the checksum.
#[verifier::opaque]
pub open spec fn ahead_of(fmt: PageFormat, image: Seq<u8>, flushed: u64) -> bool {
    &&& image.len() % PAGE_SIZE as nat == 0
    &&& fmt.fits()
    &&& fmt.checked && fmt.lsn_at is Some ==> fmt.lsn_at->0 >= 4
    &&& forall|p: PageId|
        has_page(image, p) && fmt.valid(#[trigger] page_at(image, p)) ==> fmt.lsn(
            page_at(image, p),
        ) <= flushed
}

/// A page whose LSN the log is durable through may be written.
proof fn lemma_ahead_written(
    fmt: PageFormat,
    image: Seq<u8>,
    before: u64,
    pid: PageId,
    page: Seq<u8>,
    flushed: u64,
)
    requires
        ahead_of(fmt, image, before),
        before <= flushed,
        page.len() == PAGE_SIZE,
        fmt.lsn(page) <= flushed,
    ensures
        ahead_of(fmt, overwritten(image, offset_of(pid), fmt.sealed(page)), flushed),
{
    reveal(ahead_of);
    let d = fmt.sealed(page);
    let b = overwritten(image, offset_of(pid), d);
    lemma_sealed(fmt, page);
    lemma_stamped_body(page);
    lemma_write_page(image, pid, d);
    assert forall|p: PageId| has_page(b, p) && fmt.valid(#[trigger] page_at(b, p)) implies fmt.lsn(
        page_at(b, p),
    ) <= flushed by {
        if p == pid {
            assert(page_at(b, p) == d);
            if fmt.checked {
                assert forall|i: int| 4 <= i < PAGE_SIZE implies #[trigger] d[i] == page[i] by {
                    assert(body_of(d)[i - 4] == body_of(page)[i - 4]);
                }
            }
        } else if has_page(image, p) {
            assert(page_at(b, p) == page_at(image, p));
        } else {
            let c = page_at(b, p);
            assert(image.len() <= offset_of(p));
            assert forall|i: int| 0 <= i < PAGE_SIZE implies #[trigger] c[i] == 0 by {
                assert(c[i] == b[offset_of(p) + i]);
            }
        }
    }
}

/// Errors from the cache.
#[derive(Clone, Copy, Debug, PartialEq, Eq, Structural)]
pub enum CacheError {
    Io(IoError),
    /// Every frame is pinned; no victim could be found.
    Exhausted,
    /// A page failed its format's integrity check on load.
    Corrupt(PageId),
}

/// The text of an error, where `io` is what the file says of its own failure.
pub open spec fn cache_error_text(e: CacheError, io: Seq<char>) -> Seq<char> {
    match e {
        CacheError::Io(_) => "io: "@ + io,
        CacheError::Exhausted => "page cache exhausted (all frames pinned)"@,
        CacheError::Corrupt(p) => "page "@ + decimal(p as nat) + " failed its integrity check"@,
    }
}

impl CacheError {
    /// The text of the error, where `io` is what the file says of its own failure.
    pub fn text(&self, io: &str) -> (t: String)
        ensures
            t@ == cache_error_text(*self, io@),
    {
        match self {
            CacheError::Io(_) => "io: ".to_owned().concat(io),
            CacheError::Exhausted => "page cache exhausted (all frames pinned)".to_owned(),
            CacheError::Corrupt(p) => around("page ", *p, " failed its integrity check"),
        }
    }
}

/// A fixed-capacity page cache over one backing file.
pub struct PageCache<F: BlockFile, W: WalSync> {
    pub file: F,
    pub wal: W,
    pub fmt: PageFormat,
    pub dir: Dir,
    pub bufs: Vec<Vec<u8>>,
    /// Dirty page table: page to recLSN, the oldest log record that dirtied it.
    pub dpt: HashMap<PageId, u64>,
    pub hits: u64,
    pub loads: u64,
    pub evictions: u64,
    pub flushes: u64,
    pub allocations: u64,
}

/// A pinned handle to a resident page, to be given back to [`PageCache::release`].
pub struct PageRef {
    pub idx: usize,
    pub pid: PageId,
}

impl<F: BlockFile, W: WalSync> PageCache<F, W> {
    pub open spec fn resident(&self, p: PageId) -> bool {
        self.dir.map@.dom().contains(p)
    }

    /// The bytes of the frame that holds `p`.
    pub open spec fn buf_of(&self, p: PageId) -> Seq<u8> {
        self.bufs@[self.dir.map@[p] as int]@
    }

    pub open spec fn slot_of(&self, p: PageId) -> Slot {
        self.dir.frames@[self.dir.map@[p] as int]
    }

    /// The file holds `p`, and it passes the check.
    pub open spec fn good(&self, p: PageId) -> bool {
        has_page(self.file.image(), p) && self.fmt.valid(page_at(self.file.image(), p))
    }

    /// What the file holds of `p`.
    pub open spec fn disk(&self, p: PageId) -> Seq<u8> {
        self.fmt.gist(page_at(self.file.image(), p))
    }

    /// What page `p` holds, if it can be had.
    pub open spec fn content(&self, p: PageId) -> Option<Seq<u8>> {
        if self.resident(p) {
            Some(self.fmt.gist(self.buf_of(p)))
        } else if self.good(p) {
            Some(self.disk(p))
        } else {
            None
        }
    }

    /// What the file holds for page `p`, if it passes the check.
    pub open spec fn durable(&self, p: PageId) -> Option<Seq<u8>> {
        if self.good(p) {
            Some(self.disk(p))
        } else {
            None
        }
    }

    /// The file holds page `p`, but it does not pass the check, and the cache has no other.
    pub open spec fn damaged(&self, p: PageId) -> bool {
        !self.resident(p) && has_page(self.file.image(), p) && !self.good(p)
    }

    /// The file holds page `p`, but it does not pass the check.
    pub open spec fn hurt(&self, p: PageId) -> bool {
        has_page(self.file.image(), p) && !self.good(p)
    }

    /// What was damaged still is.
    pub open spec fn scarred(&self, before: &Self) -> bool {
        forall|p: PageId| #[trigger] before.damaged(p) ==> self.damaged(p)
    }

    /// The log is durable through every page of the file.
    pub open spec fn log_ahead(&self) -> bool {
        ahead_of(self.fmt, self.file.image(), self.wal.flushed())
    }

    /// Data follows the log, whether or not the log can be forced: where it was ahead of the
    /// file, it still is.
    pub open spec fn data_follows(&self, before: &Self) -> bool {
        before.firm() && before.log_ahead() ==> self.log_ahead()
    }

    /// A clean frame holds what the file holds.
    pub open spec fn clean_ok(&self, i: int) -> bool {
        let s = self.dir.frames@[i];
        s.pid matches Some(p) ==> !s.dirty ==> self.good(p) && self.disk(p) == self.fmt.gist(
            self.bufs@[i]@,
        )
    }

    /// Frames and buffers go together, and the file holds no page that was not
    /// handed out.
    pub open spec fn shape(&self) -> bool {
        &&& self.dir.wf()
        &&& self.fmt.fits()
        &&& self.bufs@.len() == self.dir.frames@.len()
        &&& forall|i: int|
            0 <= i < self.bufs@.len() ==> (#[trigger] self.bufs@[i])@.len() == PAGE_SIZE
        &&& self.file.image().len() < offset_of(self.dir.next_page) + PAGE_SIZE
    }

    /// Nothing is in transition, and clean frames agree with the file.
    pub open spec fn wf(&self) -> bool {
        &&& self.shape()
        &&& self.dir.quiet()
        &&& forall|i: int| 0 <= i < self.bufs@.len() ==> #[trigger] self.clean_ok(i)
    }

    /// What every page holds is kept.
    pub open spec fn keeps(&self, before: &Self) -> bool {
        forall|p: PageId|
            (#[trigger] before.content(p)) is Some ==> self.content(p) == before.content(p)
    }

    /// What every page but `but` holds is kept.
    pub open spec fn keeps_but(&self, before: &Self, but: PageId) -> bool {
        forall|p: PageId|
            (#[trigger] before.content(p)) is Some && p != but ==> self.content(p)
                == before.content(p)
    }

    /// Frame `i` is pinned as it was, and if it was, holds what it held.
    pub open spec fn pinned_alike(&self, before: &Self, i: int) -> bool {
        let s = self.dir.frames@[i];
        let t = before.dir.frames@[i];
        &&& s.pins == t.pins
        &&& t.pins > 0 ==> s.pid == t.pid && self.bufs@[i] == before.bufs@[i]
    }

    /// Every frame but `but` is pinned as it was.
    pub open spec fn keeps_pinned_but(&self, before: &Self, but: int) -> bool {
        &&& self.bufs@.len() == before.bufs@.len()
        &&& forall|i: int|
            0 <= i < before.bufs@.len() && i != but ==> #[trigger] self.pinned_alike(before, i)
    }

    /// The file does not fail, and every page's place is an address.
    pub open spec fn firm(&self) -> bool {
        &&& self.file.reliable()
        &&& 0x2000_0000_0000 <= usize::MAX
    }

    /// Neither file nor log fails, and every page's place is an address.
    pub open spec fn steady(&self) -> bool {
        &&& self.firm()
        &&& self.wal.dependable()
    }

    /// A cache with a WAL seam and a page format.
    pub fn open_formatted(file: F, cap: usize, wal: W, fmt: PageFormat) -> (c: Self)
        requires
            cap > 0,
            fmt.fits(),
            file.image().len() < 0x2000_0000_0000,
        ensures
            c.dir.next_page == file.image().len() as int / PAGE_SIZE as int ==> c.wf(),
            c.file.image() == file.image(),
            c.file.reliable() == file.reliable(),
            c.file.synced() == file.synced(),
            c.wal == wal,
            c.fmt == fmt,
            c.dir.frames@ == Seq::new(cap as nat, |i: int| empty_slot()),
            c.dir.map@ == Map::<PageId, usize>::empty(),
            c.dir.next_page == file.image().len() as int / PAGE_SIZE as int || !file.reliable()
                && c.dir.next_page == 0,
            c.dir.steal,
            c.dpt@ == Map::<PageId, u64>::empty(),
            c.hits == 0 && c.loads == 0 && c.evictions == 0 && c.flushes == 0 && c.allocations == 0,
    {
        let mut file: F = file;
        let size: u64 = match file.size() {
            Ok(n) => n,
            Err(_) => 0,
        };
        let next_page: PageId = (size / 8192) as PageId;
        let mut bufs: Vec<Vec<u8>> = Vec::new();
        let mut i: usize = 0;
        while i < cap
            invariant
                i <= cap,
                bufs@.len() == i,
                forall|j: int| 0 <= j < i ==> (#[trigger] bufs@[j])@.len() == PAGE_SIZE,
            decreases cap - i,
        {
            bufs.push(vec![0u8; PAGE_SIZE]);
            i = i + 1;
        }
        let c = PageCache {
            file,
            wal,
            fmt,
            dir: Dir::new(cap, next_page),
            bufs,
            dpt: HashMap::new(),
            hits: 0,
            loads: 0,
            evictions: 0,
            flushes: 0,
            allocations: 0,
        };
        assert forall|j: int| 0 <= j < c.bufs@.len() implies #[trigger] c.clean_ok(j) by {
            assert(c.dir.frames@[j] == empty_slot());
        }
        c
    }

    /// A cache with a WAL seam that reads the page LSN at `lsn_at`.
    pub fn open_wal(file: F, cap: usize, wal: W, lsn_at: usize) -> (c: Self)
        requires
            cap > 0,
            lsn_at + 8 <= PAGE_SIZE,
            file.image().len() < 0x2000_0000_0000,
        ensures
            c.dir.next_page == file.image().len() as int / PAGE_SIZE as int ==> c.wf(),
            c.file.image() == file.image(),
            c.file.reliable() == file.reliable(),
            c.file.synced() == file.synced(),
            c.wal == wal,
            c.fmt == (PageFormat { lsn_at: Some(lsn_at), checked: false }),
            c.dir.frames@ == Seq::new(cap as nat, |i: int| empty_slot()),
            c.dir.map@ == Map::<PageId, usize>::empty(),
            c.dir.next_page == file.image().len() as int / PAGE_SIZE as int || !file.reliable()
                && c.dir.next_page == 0,
            c.dir.steal,
            c.dpt@ == Map::<PageId, u64>::empty(),
            c.hits == 0 && c.loads == 0 && c.evictions == 0 && c.flushes == 0 && c.allocations == 0,
    {
        let mut fmt: PageFormat = PageFormat::opaque();
        fmt.lsn_at = Some(lsn_at);
        Self::open_formatted(file, cap, wal, fmt)
    }

    /// Write the bytes of frame `idx` as page `pid`, sealed, once the log is durable
    /// through the page's LSN. The seal goes into a scratch copy, so the frame's bytes
    /// stay as they are.
    fn write_frame(&mut self, idx: usize, pid: PageId) -> (r: Result<(), IoError>)
        requires
            old(self).fmt.fits(),
            idx < old(self).bufs@.len(),
            old(self).bufs@[idx as int]@.len() == PAGE_SIZE,
        ensures
            final(self).data_follows(old(self)),
            *final(self) == (PageCache {
                file: final(self).file,
                wal: final(self).wal,
                ..*old(self)
            }),
            final(self).steady() == old(self).steady(),
            final(self).firm() == old(self).firm(),
            ({
                let b = old(self).bufs@[idx as int]@;
                let lsn = old(self).fmt.lsn(b);
                let before = old(self).file.image();
                let after = final(self).file.image();
                &&& r is Ok ==> after == overwritten(
                    before,
                    offset_of(pid),
                    old(self).fmt.sealed(b),
                ) && final(self).wal.flushed() >= lsn
                &&& r is Err ==> !old(self).steady() && differs_only_at(
                    before,
                    after,
                    offset_of(pid),
                    PAGE_SIZE as int,
                ) && (after.len() <= before.len() || after.len() <= offset_of(pid) + PAGE_SIZE)
                &&& r is Err && old(self).firm() ==> final(self).file == old(self).file
                // Data follows the log.
                &&& final(self).wal.flushed() < lsn ==> after == before
            }),
    {
        let mut out: Vec<u8> = copy_bytes(self.bufs[idx].as_slice());
        let lsn: u64 = self.fmt.lsn_of(out.as_slice());
        if lsn > self.wal.flushed_lsn() {
            match self.wal.flush_until(lsn) {
                Ok(()) => {},
                Err(e) => {
                    proof {
                        reveal(ahead_of);
                    }
                    return Err(e);
                },
            }
        }
        self.fmt.stamp(&mut out);
        proof {
            lemma_sealed(self.fmt, old(self).bufs@[idx as int]@);
        }
        let ghost image = self.file.image();
        let r: Result<(), IoError> = self.file.write_at(&out, page_offset(pid));
        proof {
            if r is Ok && old(self).log_ahead() {
                lemma_ahead_written(
                    self.fmt,
                    image,
                    old(self).wal.flushed(),
                    pid,
                    old(self).bufs@[idx as int]@,
                    self.wal.flushed(),
                );
            }
        }
        r
    }

    /// The frames but `idx`, which CLOCK settled on, are as they were, but that those that
    /// the hand passed spent their second chance.
    #[verifier::opaque]
    pub open spec fn hand_at(&self, before: &Self, idx: int) -> bool {
        let n = before.dir.frames@.len() as int;
        &&& before.dir.chosen(idx)
        &&& self.dir.hand == crate::clock::reached(idx, 1, n)
        &&& self.dir.frames@.len() == n
        &&& self.bufs@.len() == before.bufs@.len()
        &&& forall|i: int|
            0 <= i < n && i != idx ==> (#[trigger] self.dir.frames@[i])
                == before.dir.after_choice(idx)[i]
        &&& forall|i: int|
            0 <= i < before.bufs@.len() && i != idx ==> (#[trigger] self.bufs@[i])
                == before.bufs@[i]
    }

    /// No frame but `idx` holds other bytes.
    pub open spec fn bufs_but(&self, before: &Self, idx: int) -> bool {
        &&& self.bufs@.len() == before.bufs@.len()
        &&& forall|i: int|
            0 <= i < before.bufs@.len() && i != idx ==> #[trigger] self.bufs@[i] == before.bufs@[i]
    }

    /// Room was made in frame `idx`, the one that CLOCK settled on: what it held was written
    /// if dirty, and nothing else was.
    pub open spec fn made_room(&self, before: &Self, idx: int) -> bool {
        let f = before.dir.frames@[idx];
        let b = before.bufs@[idx]@;
        &&& self.hand_at(before, idx)
        &&& f.pins == 0 && (before.dir.steal || !f.dirty)
        &&& self.bufs_but(before, idx)
        &&& self.file.image() == if f.dirty {
            overwritten(before.file.image(), offset_of(f.pid->0), before.fmt.sealed(b))
        } else {
            before.file.image()
        }
        &&& self.flushes == if f.dirty {
            before.flushes.wrapping_add(1)
        } else {
            before.flushes
        }
        &&& if f.dirty {
            self.wal.flushed() >= before.fmt.lsn(b)
        } else {
            self.wal == before.wal
        }
    }

    /// The map without the page that frame `idx` held.
    pub open spec fn map_but(&self, idx: int) -> Map<PageId, usize> {
        match self.dir.frames@[idx].pid {
            Some(p) => self.dir.map@.remove(p),
            None => self.dir.map@,
        }
    }

    /// Room was made in frame `idx`, and it holds no page.
    pub open spec fn emptied(&self, before: &Self, idx: int) -> bool {
        &&& self.made_room(before, idx)
        &&& self.dir.frames@[idx] == empty_slot()
        &&& self.dir.map@ == before.map_but(idx)
    }

    /// The dirty page of frame `idx`, which CLOCK settled on, could not be written and stays.
    pub open spec fn stuck(&self, before: &Self, idx: int) -> bool {
        let f = before.dir.frames@[idx];
        &&& self.hand_at(before, idx)
        &&& before.dir.steal && f.dirty && f.pins == 0
        &&& self.dir.frames@[idx] == (Slot { ref_bit: true, ..f })
        &&& self.bufs == before.bufs
        &&& self.dir.map@ == before.dir.map@
        &&& self.flushes == before.flushes
        &&& before.firm() ==> self.file.image() == before.file.image()
    }

    /// No frame may be taken: nothing but the hand moved.
    pub open spec fn no_room(&self, before: &Self) -> bool {
        let n = before.dir.frames@.len() as int;
        &&& !before.dir.has_victim()
        &&& *self == (PageCache { dir: self.dir, ..*before })
        &&& self.dir.frames@ == before.dir.frames@
        &&& self.dir.map@ == before.dir.map@
        &&& self.dir.hand == crate::clock::reached(before.dir.hand as int, 1, n)
    }

    /// Why no frame was free for a page, and what is left then.
    pub open spec fn refused(&self, before: &Self, e: CacheError) -> bool {
        match e {
            CacheError::Exhausted => self.no_room(before),
            CacheError::Corrupt(_) => exists|idx: int| #[trigger] self.emptied(before, idx),
            CacheError::Io(_) => (exists|idx: int| #[trigger] self.emptied(before, idx)) || (
            !before.steady() && exists|idx: int| #[trigger] self.stuck(before, idx)),
        }
    }

    /// A frame is reserved for `pid`, since `before`, and what it held is on disk.
    pub open spec fn reserved(&self, before: &Self, victim: int, pid: PageId) -> bool {
        let f = before.dir.frames@[victim];
        &&& self.shape()
        &&& before.wf()
        &&& self.fmt == before.fmt
        &&& before.dir.chosen(victim)
        &&& !before.dir.map@.dom().contains(pid)
        &&& self.dir.frames@ == before.dir.after_choice(victim).update(
            victim,
            Slot { pid: f.pid, pins: 1, ref_bit: true, dirty: f.dirty, incoming: Some(pid) },
        )
        &&& self.dir.map@ == before.dir.map@.insert(pid, victim as usize)
        &&& self.bufs@.len() == before.bufs@.len()
        &&& forall|i: int|
            0 <= i < self.bufs@.len() && i != victim ==> #[trigger] self.bufs@[i] == before.bufs@[i]
        &&& forall|i: int| 0 <= i < self.bufs@.len() && i != victim ==> #[trigger] self.clean_ok(i)
        &&& self.on_disk(before, victim)
    }

    /// What every page held is on disk, but for those that other frames hold.
    pub open spec fn on_disk(&self, before: &Self, victim: int) -> bool {
        forall|q: PageId|
            (#[trigger] before.content(q)) is Some && !(before.resident(q) && before.dir.map@[q]
                != victim) ==> self.good(q) && self.disk(q) == before.content(q)->0
    }
}

/// A failed flush leaves the old page resident and dirty.
proof fn lemma_kept_dirty<F: BlockFile, W: WalSync>(
    a: &PageCache<F, W>,
    b: &PageCache<F, W>,
    victim: int,
)
    requires
        a.wf(),
        a.dir.chosen(victim),
        a.dir.frames@[victim].pid is Some,
        b.shape(),
        b.fmt == a.fmt,
        b.bufs == a.bufs,
        b.dir.map@ == a.dir.map@,
        b.dir.frames@ == a.dir.after_choice(victim).update(
            victim,
            Slot {
                pid: a.dir.frames@[victim].pid,
                pins: 0,
                ref_bit: true,
                dirty: true,
                incoming: None,
            },
        ),
        forall|q: PageId| #[trigger]
            has_page(a.file.image(), q) && Some(q) != a.dir.frames@[victim].pid ==> has_page(
                b.file.image(),
                q,
            ) && page_at(b.file.image(), q) == page_at(a.file.image(), q),
    ensures
        b.wf(),
        b.keeps(a),
        b.keeps_pinned_but(a, -1),
{
    let old = a.dir.frames@[victim].pid;
    assert(a.dir.slot_ok(victim));
    assert forall|i: int| 0 <= i < b.dir.frames@.len() implies (
    #[trigger] b.dir.frames@[i]).incoming is None by {
        assert(a.dir.frames@[i].incoming is None);
    }
    assert forall|i: int| 0 <= i < b.bufs@.len() implies #[trigger] b.clean_ok(i) by {
        assert(a.clean_ok(i));
        assert(a.dir.slot_ok(i));
        if i != victim && a.dir.frames@[i].pid is Some {
            let p = a.dir.frames@[i].pid->0;
            assert(Some(p) != old);
            if !a.dir.frames@[i].dirty {
                assert(has_page(a.file.image(), p));
            }
        }
    }
    assert forall|q: PageId| (#[trigger] a.content(q)) is Some implies b.content(q) == a.content(q) by {
        if !a.resident(q) {
            assert(has_page(a.file.image(), q));
            assert(Some(q) != old);
        }
    }
    assert forall|i: int| 0 <= i < a.bufs@.len() && i != -1 implies #[trigger] b.pinned_alike(a, i) by {}
}

/// After the frame was emptied, every page is in its frame or on disk.
proof fn lemma_discarded<F: BlockFile, W: WalSync>(
    a: &PageCache<F, W>,
    m: &PageCache<F, W>,
    b: &PageCache<F, W>,
    victim: int,
    pid: PageId,
)
    requires
        m.reserved(a, victim, pid),
        b.shape(),
        b.fmt == m.fmt,
        b.bufs@.len() == m.bufs@.len(),
        forall|i: int|
            0 <= i < m.bufs@.len() && i != victim ==> #[trigger] b.bufs@[i] == m.bufs@[i],
        b.file.image() == m.file.image(),
        b.dir.frames@ == m.dir.frames@.update(victim, empty_slot()),
        b.dir.map@ == match m.dir.frames@[victim].pid {
            Some(was) => m.dir.map@.remove(pid).remove(was),
            None => m.dir.map@.remove(pid),
        },
    ensures
        b.wf(),
        b.keeps(a),
        b.keeps_pinned_but(a, -1),
{
    assert(a.dir.slot_ok(victim));
    assert forall|i: int| 0 <= i < b.dir.frames@.len() implies (
    #[trigger] b.dir.frames@[i]).incoming is None by {
        assert(a.dir.frames@[i].incoming is None);
    }
    assert forall|i: int| 0 <= i < b.bufs@.len() implies #[trigger] b.clean_ok(i) by {
        if i != victim {
            assert(m.clean_ok(i));
            assert(b.bufs@[i] == m.bufs@[i]);
        }
    }
    assert forall|q: PageId| (#[trigger] a.content(q)) is Some implies b.content(q) == a.content(q) by {
        if a.resident(q) && a.dir.map@[q] != victim {
            let i = a.dir.map@[q] as int;
            assert(b.bufs@[i] == m.bufs@[i] && m.bufs@[i] == a.bufs@[i]);
            assert(a.dir.frames@[victim].pid != Some(q));
        }
    }
    assert forall|i: int| 0 <= i < a.bufs@.len() && i != -1 implies #[trigger] b.pinned_alike(a, i) by {
        if i != victim {
            assert(b.bufs@[i] == m.bufs@[i] && m.bufs@[i] == a.bufs@[i]);
        }
    }
}

/// After the page was published, every other page is in its frame or on disk.
proof fn lemma_published<F: BlockFile, W: WalSync>(
    a: &PageCache<F, W>,
    m: &PageCache<F, W>,
    b: &PageCache<F, W>,
    victim: int,
    pid: PageId,
    dirty: bool,
)
    requires
        m.reserved(a, victim, pid),
        b.shape(),
        b.fmt == m.fmt,
        b.bufs@.len() == m.bufs@.len(),
        forall|i: int|
            0 <= i < m.bufs@.len() && i != victim ==> #[trigger] b.bufs@[i] == m.bufs@[i],
        b.file.image() == m.file.image(),
        b.dir.frames@ == m.dir.frames@.update(
            victim,
            Slot { pid: Some(pid), dirty, incoming: None, ..m.dir.frames@[victim] },
        ),
        b.dir.map@ == match m.dir.frames@[victim].pid {
            Some(was) => m.dir.map@.remove(was),
            None => m.dir.map@,
        },
        !dirty ==> b.good(pid) && b.disk(pid) == b.fmt.gist(b.bufs@[victim]@),
    ensures
        b.wf(),
        b.keeps_but(a, pid),
        (a.content(pid) is Some ==> b.fmt.gist(b.bufs@[victim]@) == a.content(pid)->0) ==> b.keeps(
            a,
        ),
        b.keeps_pinned_but(a, victim),
        b.content(pid) == Some(b.fmt.gist(b.bufs@[victim]@)),
        b.dir.map@[pid] == victim,
        b.resident(pid),
{
    assert(a.dir.slot_ok(victim));
    assert(m.dir.slot_ok(victim));
    assert forall|i: int| 0 <= i < b.dir.frames@.len() implies (
    #[trigger] b.dir.frames@[i]).incoming is None by {
        assert(a.dir.frames@[i].incoming is None);
    }
    assert forall|i: int| 0 <= i < b.bufs@.len() implies #[trigger] b.clean_ok(i) by {
        if i != victim {
            assert(m.clean_ok(i));
            assert(b.bufs@[i] == m.bufs@[i]);
        }
    }
    assert forall|q: PageId| (#[trigger] a.content(q)) is Some && q != pid implies b.content(q)
        == a.content(q) by {
        if a.resident(q) && a.dir.map@[q] != victim {
            let i = a.dir.map@[q] as int;
            assert(b.bufs@[i] == m.bufs@[i] && m.bufs@[i] == a.bufs@[i]);
            assert(a.dir.frames@[victim].pid != Some(q));
        }
    }
    assert forall|i: int| 0 <= i < a.bufs@.len() && i != victim implies #[trigger] b.pinned_alike(
        a,
        i,
    ) by {
        assert(b.bufs@[i] == m.bufs@[i] && m.bufs@[i] == a.bufs@[i]);
    }
}

impl<F: BlockFile, W: WalSync> PageCache<F, W> {
    /// Write back what a reserved frame held, where that is dirty.
    fn flush_old(&mut self, victim: usize, pid: PageId, Ghost(before): Ghost<Self>) -> (r: Result<
        (),
        IoError,
    >)
        requires
            before.wf(),
            before.dir.chosen(victim as int),
            !before.resident(pid),
            old(self).shape(),
            *old(self) == (PageCache { dir: old(self).dir, ..before }),
            old(self).dir.frames@ == before.dir.after_choice(victim as int).update(
                victim as int,
                Slot {
                    pid: before.dir.frames@[victim as int].pid,
                    pins: 1,
                    ref_bit: true,
                    dirty: before.dir.frames@[victim as int].dirty,
                    incoming: Some(pid),
                },
            ),
            old(self).dir.map@ == before.dir.map@.insert(pid, victim),
        ensures
            forall|p: PageId| #[trigger] before.damaged(p) ==> final(self).hurt(p),
            final(self).data_follows(old(self)),
            final(self).steady() == old(self).steady(),
            final(self).firm() == old(self).firm(),
            ({
                let f = before.dir.frames@[victim as int];
                match r {
                    Ok(()) => {
                        &&& final(self).reserved(&before, victim as int, pid)
                        &&& *final(self) == (PageCache {
                            file: final(self).file,
                            wal: final(self).wal,
                            flushes: if f.dirty {
                                before.flushes.wrapping_add(1)
                            } else {
                                before.flushes
                            },
                            ..*old(self)
                        })
                        &&& f.dirty ==> final(self).wal.flushed() >= before.fmt.lsn(
                            before.bufs@[victim as int]@,
                        )
                        &&& !f.dirty ==> final(self).file == before.file && final(self).wal
                            == before.wal
                        &&& f.dirty ==> final(self).file.image() == overwritten(
                            before.file.image(),
                            offset_of(f.pid->0),
                            before.fmt.sealed(before.bufs@[victim as int]@),
                        )
                    },
                    Err(_) => {
                        &&& f.dirty
                        &&& final(self).dir.hand == old(self).dir.hand
                        &&& final(self).dir.frames@ == old(self).dir.frames@.update(
                            victim as int,
                            Slot { ref_bit: true, pins: 0, ..f },
                        )
                        &&& before.firm() ==> final(self).file == before.file
                        &&& !old(self).steady()
                        &&& final(self).wf()
                        &&& final(self).keeps(&before)
                        &&& final(self).keeps_pinned_but(&before, -1)
                        &&& final(self).dir.map@ == before.dir.map@
                        &&& final(self).dir.next_page == old(self).dir.next_page
                        &&& final(self).dir.steal == old(self).dir.steal
                        &&& *final(self) == (PageCache {
                            file: final(self).file,
                            wal: final(self).wal,
                            dir: final(self).dir,
                            ..*old(self)
                        })
                        &&& final(self).file.image().len() < offset_of(before.dir.next_page)
                            + PAGE_SIZE
                    },
                }
            }),
    {
        let s: Slot = self.dir.frames[victim];
        let ghost start = *self;
        proof {
            assert(before.dir.slot_ok(victim as int));
            assert(before.clean_ok(victim as int));
            assert(start.dir.slot_ok(victim as int));
        }
        if s.dirty {
            if let Some(was) = s.pid {
                let ghost image = self.file.image();
                match self.write_frame(victim, was) {
                    Ok(()) => {
                        self.flushes = self.flushes.wrapping_add(1);
                        proof {
                            let b = before.bufs@[victim as int]@;
                            lemma_sealed(self.fmt, b);
                            lemma_write_page(image, was, self.fmt.sealed(b));
                            assert forall|i: int|
                                0 <= i < self.bufs@.len() && i != victim implies #[trigger] self.clean_ok(
                                i,
                            ) by {
                                assert(before.clean_ok(i));
                                assert(before.dir.slot_ok(i));
                                if before.dir.frames@[i].pid is Some {
                                    let p = before.dir.frames@[i].pid->0;
                                    assert(p != was);
                                    if !before.dir.frames@[i].dirty {
                                        assert(has_page(image, p));
                                    }
                                }
                            }
                            assert forall|q: PageId|
                                (#[trigger] before.content(q)) is Some && !(before.resident(q)
                                    && before.dir.map@[q] != victim) implies self.good(q)
                                && self.disk(q) == before.content(q)->0 by {
                                if q != was {
                                    assert(!before.resident(q));
                                    assert(has_page(image, q));
                                }
                            }
                            assert(self.on_disk(&before, victim as int));
                            assert(self.shape());
                            assert(self.reserved(&before, victim as int, pid));
                        }
                        return Ok(());
                    },
                    Err(e) => {
                        let ghost mid = *self;
                        self.dir.abort_reservation(victim, Abort::KeepOldDirty);
                        proof {
                            lemma_damage_page(image, self.file.image(), was);
                            assert(self.dir.map@ =~= before.dir.map@);
                            assert(self.dir.frames@ =~= before.dir.after_choice(
                                victim as int,
                            ).update(
                                victim as int,
                                Slot {
                                    pid: before.dir.frames@[victim as int].pid,
                                    pins: 0,
                                    ref_bit: true,
                                    dirty: true,
                                    incoming: None,
                                },
                            ));
                            assert(mid.dir.slot_ok(victim as int));
                            lemma_kept_dirty(&before, self, victim as int);
                        }
                        return Err(e);
                    },
                }
            }
        }
        proof {
            assert forall|i: int| 0 <= i < self.bufs@.len() && i != victim implies #[trigger] self.clean_ok(
                i,
            ) by {
                assert(before.clean_ok(i));
            }
            assert forall|q: PageId|
                (#[trigger] before.content(q)) is Some && !(before.resident(q) && before.dir.map@[q]
                    != victim) implies self.good(q) && self.disk(q) == before.content(q)->0 by {
                if before.resident(q) {
                    assert(before.dir.frames@[victim as int].pid == Some(q));
                }
            }
        }
        Ok(())
    }
}

/// A page of zeros.
pub open spec fn zeros() -> Seq<u8> {
    Seq::new(PAGE_SIZE as nat, |i: int| 0u8)
}

impl<F: BlockFile, W: WalSync> PageCache<F, W> {
    /// Page `pid` is in frame `idx`, pinned once more than it was.
    pub open spec fn pinned_in(&self, before: &Self, idx: int, pid: PageId) -> bool {
        &&& self.resident(pid)
        &&& self.dir.map@[pid] == idx
        &&& 0 <= idx < self.bufs@.len()
        &&& self.dir.frames@[idx].pins == if before.resident(pid) {
            before.slot_of(pid).pins + 1
        } else {
            1
        }
        &&& self.keeps_pinned_but(before, idx)
    }

    /// The frame of `pid` holds what the file holds of it, verified, or zeros.
    pub open spec fn rebuilt(&self, pid: PageId) -> bool {
        self.buf_of(pid) == zeros() || self.good(pid) && self.buf_of(pid) == page_at(
            self.file.image(),
            pid,
        )
    }

    /// The frame that a fetch would take is dirty, so that it has to be flushed first.
    pub open spec fn takes_dirty(&self) -> bool {
        exists|v: int| #[trigger] self.dir.chosen(v) && self.dir.frames@[v].dirty
    }

    /// Why a page that is not resident could not be had.
    pub open spec fn unreadable(&self, pid: PageId, e: CacheError) -> bool {
        match e {
            CacheError::Io(_) => !self.steady() || !has_page(self.file.image(), pid),
            CacheError::Corrupt(p) => {
                &&& p == pid
                &&& has_page(self.file.image(), pid)
                &&& !self.good(pid)
            },
            CacheError::Exhausted => false,
        }
    }

    /// Read a page into the frame that is reserved for it, and publish it or undo
    /// the reservation.
    fn fill(&mut self, victim: usize, pid: PageId, redo: bool, Ghost(before): Ghost<Self>) -> (r:
        Result<PageRef, CacheError>)
        requires
            old(self).reserved(&before, victim as int, pid),
            old(self).dir.next_page == before.dir.next_page,
            redo ==> pid < u32::MAX,
        ensures
            !redo ==> forall|p: PageId|
                !before.resident(p) && #[trigger] old(self).hurt(p) ==> final(self).damaged(p),
            final(self).data_follows(old(self)),
            final(self).wf(),
            final(self).keeps_but(&before, pid),
            !redo || old(self).steady() ==> final(self).keeps(&before),
            final(self).steady() == old(self).steady(),
            final(self).firm() == old(self).firm(),
            *final(self) == (PageCache {
                file: final(self).file,
                dir: final(self).dir,
                bufs: final(self).bufs,
                evictions: final(self).evictions,
                loads: final(self).loads,
                ..*old(self)
            }),
            final(self).file.image() == old(self).file.image(),
            final(self).dir.steal == old(self).dir.steal,
            final(self).dir.hand == old(self).dir.hand,
            forall|i: int|
                0 <= i < old(self).dir.frames@.len() && i != victim ==> (
                #[trigger] final(self).dir.frames@[i]) == old(self).dir.frames@[i],
            forall|i: int|
                0 <= i < old(self).bufs@.len() && i != victim ==> (#[trigger] final(self).bufs@[i])
                    == old(self).bufs@[i],
            final(self).dir.frames@.len() == old(self).dir.frames@.len(),
            final(self).dir.map@ == if r is Ok {
                before.map_but(victim as int).insert(pid, victim)
            } else {
                before.map_but(victim as int)
            },
            r is Ok ==> final(self).dir.frames@[victim as int] == (Slot {
                pid: Some(pid),
                pins: 1,
                ref_bit: true,
                dirty: redo,
                incoming: None,
            }),
            r is Err ==> final(self).dir.frames@[victim as int] == empty_slot(),
            match r {
                Ok(p) => {
                    &&& p.pid == pid
                    &&& p.idx == victim
                    &&& final(self).pinned_in(&before, victim as int, pid)
                    &&& final(self).loads == old(self).loads.wrapping_add(1)
                    &&& final(self).evictions == if before.dir.frames@[victim as int].pid is Some {
                        old(self).evictions.wrapping_add(1)
                    } else {
                        old(self).evictions
                    }
                    &&& !redo ==> {
                        &&& final(self).good(pid)
                        &&& final(self).buf_of(pid) == page_at(final(self).file.image(), pid)
                        &&& final(self).dir.next_page == before.dir.next_page
                        &&& !final(self).slot_of(pid).dirty
                    }
                    &&& redo ==> {
                        &&& final(self).slot_of(pid).dirty
                        &&& final(self).dir.next_page == if before.dir.next_page <= pid {
                            (pid + 1) as u32
                        } else {
                            before.dir.next_page
                        }
                        &&& final(self).rebuilt(pid)
                        &&& old(self).steady() ==> final(self).buf_of(pid) == if final(self).good(
                            pid,
                        ) {
                            page_at(final(self).file.image(), pid)
                        } else {
                            zeros()
                        }
                    }
                },
                Err(e) => {
                    &&& !redo
                    &&& final(self).unreadable(pid, e)
                    &&& final(self).keeps_pinned_but(&before, -1)
                    &&& !final(self).resident(pid)
                    &&& final(self).dir.next_page == before.dir.next_page
                    &&& final(self).loads == old(self).loads
                    &&& final(self).evictions == old(self).evictions
                },
            },
    {
        let ghost m = *self;
        let was: Option<PageId> = self.dir.frames[victim].pid;
        let mut buf: Vec<u8> = vec![0u8; PAGE_SIZE];
        let io: Result<(), IoError> = self.file.read_at(&mut buf, page_offset(pid));
        let valid: bool = self.fmt.verify(buf.as_slice());
        proof {
            assert(before.dir.slot_ok(victim as int));
            assert(m.dir.slot_ok(victim as int));
            if has_page(m.file.image(), pid) && io is Ok {
                assert(buf@ == page_at(m.file.image(), pid));
            }
            // What was on disk of the page is there still.
            if before.content(pid) is Some {
                assert(m.good(pid) && m.disk(pid) == before.content(pid)->0);
            }
        }
        if redo {
            if io.is_err() || !valid {
                zero_fill(buf.as_mut_slice());
                assert(buf@ =~= zeros());
            }
        } else {
            if let Err(e) = io {
                self.bufs[victim] = buf;
                self.dir.abort_reservation(victim, Abort::Discard);
                proof {
                    lemma_discarded(&before, &m, self, victim as int, pid);
                }
                return Err(CacheError::Io(e));
            }
            if !valid {
                self.bufs[victim] = buf;
                self.dir.abort_reservation(victim, Abort::Discard);
                proof {
                    lemma_discarded(&before, &m, self, victim as int, pid);
                }
                return Err(CacheError::Corrupt(pid));
            }
        }
        self.bufs[victim] = buf;
        proof {
            if !redo {
                assert(offset_of(pid) + PAGE_SIZE <= m.file.image().len());
                assert(pid < m.dir.next_page);
            }
        }
        self.dir.publish(victim, redo, redo);
        if was.is_some() {
            self.evictions = self.evictions.wrapping_add(1);
        }
        self.loads = self.loads.wrapping_add(1);
        proof {
            if before.content(pid) is Some && redo {
                if io is Ok {
                    assert(valid);
                }
            }
            lemma_published(&before, &m, self, victim as int, pid, redo);
        }
        Ok(PageRef { idx: victim, pid })
    }
}

/// One more pin changes no page.
proof fn lemma_hit<F: BlockFile, W: WalSync>(a: &PageCache<F, W>, b: &PageCache<F, W>, idx: int)
    requires
        a.wf(),
        0 <= idx < a.bufs@.len(),
        b.dir.wf(),
        b.fmt == a.fmt,
        b.bufs == a.bufs,
        b.file == a.file,
        b.dir.map@ == a.dir.map@,
        b.dir.next_page == a.dir.next_page,
        b.dir.frames@.len() == a.dir.frames@.len(),
        forall|i: int|
            0 <= i < a.dir.frames@.len() && i != idx ==> #[trigger] b.dir.frames@[i]
                == a.dir.frames@[i],
        b.dir.frames@[idx].pid == a.dir.frames@[idx].pid,
        b.dir.frames@[idx].incoming is None,
        b.dir.frames@[idx].dirty || !a.dir.frames@[idx].dirty,
    ensures
        b.wf(),
        b.keeps(a),
        forall|p: PageId| #[trigger] b.content(p) == a.content(p),
        b.keeps_pinned_but(a, idx),
{
    assert forall|i: int| 0 <= i < b.dir.frames@.len() implies (
    #[trigger] b.dir.frames@[i]).incoming is None by {
        if i != idx {
            assert(a.dir.frames@[i].incoming is None);
        }
    }
    assert forall|i: int| 0 <= i < b.bufs@.len() implies #[trigger] b.clean_ok(i) by {
        assert(a.clean_ok(i));
        if i != idx {
            assert(b.dir.frames@[i] == a.dir.frames@[i]);
        }
    }
    assert forall|i: int| 0 <= i < a.bufs@.len() && i != idx implies #[trigger] b.pinned_alike(a, i) by {
        assert(b.dir.frames@[i] == a.dir.frames@[i]);
    }
}

impl<F: BlockFile, W: WalSync> PageCache<F, W> {
    /// Pin the frame that holds `pid`, reading the page over a CLOCK-chosen victim if
    /// it is not resident; the victim is flushed first if dirty.
    fn fetch_mode(&mut self, pid: PageId, redo: bool) -> (r: Result<PageRef, CacheError>)
        requires
            old(self).wf(),
            old(self).resident(pid) ==> old(self).slot_of(pid).pins < u32::MAX,
            redo ==> pid < u32::MAX,
        ensures
            !old(self).resident(pid) && r is Ok ==> {
                let idx = r->Ok_0.idx;
                &&& final(self).made_room(old(self), idx as int)
                &&& final(self).dir.map@ == old(self).map_but(idx as int).insert(pid, idx)
                &&& final(self).slot_of(pid) == (Slot {
                    pid: Some(pid),
                    pins: 1,
                    ref_bit: true,
                    dirty: redo,
                    incoming: None,
                })
            },
            old(self).resident(pid) ==> final(self).dir.frames@ == old(self).dir.frames@.update(
                old(self).dir.map@[pid] as int,
                Slot {
                    pins: (old(self).slot_of(pid).pins + 1) as u32,
                    ref_bit: true,
                    ..old(self).slot_of(pid)
                },
            ) && final(self).dir.hand == old(self).dir.hand,
            r matches Err(e) ==> final(self).refused(old(self), e),
            !old(self).dir.steal ==> final(self).file.image() == old(self).file.image(),
            !redo ==> final(self).scarred(old(self)),
            final(self).data_follows(old(self)),
            final(self).wf(),
            final(self).keeps_but(old(self), pid),
            !redo || old(self).steady() ==> final(self).keeps(old(self)),
            final(self).steady() == old(self).steady(),
            final(self).firm() == old(self).firm(),
            final(self).fmt == old(self).fmt,
            final(self).dpt == old(self).dpt,
            final(self).dir.steal == old(self).dir.steal,
            final(self).allocations == old(self).allocations,
            match r {
                Ok(p) => {
                    &&& p.pid == pid
                    &&& final(self).pinned_in(old(self), p.idx as int, pid)
                    &&& old(self).resident(pid) ==> {
                        &&& *final(self) == (PageCache {
                            dir: final(self).dir,
                            hits: old(self).hits.wrapping_add(1),
                            ..*old(self)
                        })
                        &&& final(self).dir.map@ == old(self).dir.map@
                        &&& final(self).dir.next_page == old(self).dir.next_page
                        &&& final(self).slot_of(pid).dirty == old(self).slot_of(pid).dirty
                    }
                    &&& !old(self).resident(pid) ==> {
                        let f = old(self).dir.frames@[p.idx as int];
                        &&& old(self).dir.chosen(p.idx as int)
                        &&& final(self).hits == old(self).hits
                        &&& final(self).loads == old(self).loads.wrapping_add(1)
                        &&& final(self).evictions == if f.pid is Some {
                            old(self).evictions.wrapping_add(1)
                        } else {
                            old(self).evictions
                        }
                        &&& final(self).flushes == if f.dirty {
                            old(self).flushes.wrapping_add(1)
                        } else {
                            old(self).flushes
                        }
                        &&& f.dirty ==> final(self).wal.flushed() >= old(self).fmt.lsn(
                            old(self).bufs@[p.idx as int]@,
                        )
                        &&& !redo ==> {
                            &&& final(self).good(pid)
                            &&& final(self).buf_of(pid) == page_at(final(self).file.image(), pid)
                            &&& final(self).dir.next_page == old(self).dir.next_page
                            &&& !final(self).slot_of(pid).dirty
                        }
                        &&& redo ==> {
                            &&& final(self).slot_of(pid).dirty
                            &&& final(self).dir.next_page == if old(self).dir.next_page <= pid {
                                (pid + 1) as u32
                            } else {
                                old(self).dir.next_page
                            }
                            &&& final(self).rebuilt(pid)
                            &&& old(self).steady() ==> final(self).buf_of(pid) == if final(
                                self).good(pid) {
                                page_at(final(self).file.image(), pid)
                            } else {
                                zeros()
                            }
                        }
                    }
                },
                Err(e) => {
                    &&& !old(self).resident(pid)
                    &&& !final(self).resident(pid)
                    &&& final(self).keeps(old(self))
                    &&& final(self).keeps_pinned_but(old(self), -1)
                    &&& final(self).dir.next_page == old(self).dir.next_page
                    &&& final(self).hits == old(self).hits
                    &&& final(self).loads == old(self).loads
                    &&& final(self).evictions == old(self).evictions
                    &&& e is Exhausted <==> !old(self).dir.has_victim()
                    &&& !(e is Exhausted) ==> !redo && final(self).unreadable(pid, e)
                        || e is Io && !old(self).steady() && old(self).takes_dirty()
                },
            },
    {
        let ghost a = *self;
        match self.dir.begin_fetch(pid) {
            Step::Hit(idx) => {
                self.hits = self.hits.wrapping_add(1);
                proof {
                    lemma_hit(&a, self, idx as int);
                }
                Ok(PageRef { idx, pid })
            },
            Step::Wait => {
                proof {
                    assert(a.dir.frames@[a.dir.map@[pid] as int].incoming is None);
                }
                Err(CacheError::Exhausted)
            },
            Step::Exhausted => {
                proof {
                    assert(self.dir.frames@ == a.dir.frames@);
                    lemma_hit(&a, self, 0);
                    assert forall|i: int| 0 <= i < a.bufs@.len() && i != -1 implies #[trigger] self.pinned_alike(
                        &a,
                        i,
                    ) by {}
                }
                Err(CacheError::Exhausted)
            },
            Step::Reserved { victim, old: was, old_dirty } => {
                proof {
                    assert(open_slots(a.dir.frames@, a.dir.steal)[victim as int]);
                }
                match self.flush_old(victim, pid, Ghost(a)) {
                    Ok(()) => {},
                    Err(e) => {
                        proof {
                            assert(self.hand_at(&a, victim as int)) by {
                                reveal(PageCache::hand_at);
                            }
                            assert(self.stuck(&a, victim as int));
                        }
                        return Err(CacheError::Io(e));
                    },
                }
                let r: Result<PageRef, CacheError> = self.fill(victim, pid, redo, Ghost(a));
                proof {
                    assert(self.hand_at(&a, victim as int)) by {
                        reveal(PageCache::hand_at);
                    }
                    assert(self.made_room(&a, victim as int));
                    if r is Err {
                        assert(self.emptied(&a, victim as int));
                    }
                }
                r
            },
        }
    }

    /// Pin the frame that holds `pid`, reading the page if it is not resident.
    pub fn fetch(&mut self, pid: PageId) -> (r: Result<PageRef, CacheError>)
        requires
            old(self).wf(),
            old(self).resident(pid) ==> old(self).slot_of(pid).pins < u32::MAX,
        ensures
            r is Err ==> final(self).hits == old(self).hits && final(self).loads == old(self).loads
                && final(self).evictions == old(self).evictions,
            !old(self).resident(pid) && r is Ok ==> {
                let idx = r->Ok_0.idx;
                &&& final(self).made_room(old(self), idx as int)
                &&& final(self).dir.map@ == old(self).map_but(idx as int).insert(pid, idx)
                &&& final(self).slot_of(pid) == (Slot {
                    pid: Some(pid),
                    pins: 1,
                    ref_bit: true,
                    dirty: false,
                    incoming: None,
                })
            },
            old(self).resident(pid) ==> final(self).dir.frames@ == old(self).dir.frames@.update(
                old(self).dir.map@[pid] as int,
                Slot {
                    pins: (old(self).slot_of(pid).pins + 1) as u32,
                    ref_bit: true,
                    ..old(self).slot_of(pid)
                },
            ) && final(self).dir.hand == old(self).dir.hand,
            r matches Err(e) ==> final(self).refused(old(self), e),
            !old(self).dir.steal ==> final(self).file.image() == old(self).file.image(),
            final(self).scarred(old(self)),
            final(self).data_follows(old(self)),
            final(self).wf(),
            final(self).keeps(old(self)),
            final(self).steady() == old(self).steady(),
            final(self).firm() == old(self).firm(),
            final(self).fmt == old(self).fmt,
            final(self).dpt == old(self).dpt,
            final(self).dir.steal == old(self).dir.steal,
            final(self).dir.next_page == old(self).dir.next_page,
            final(self).allocations == old(self).allocations,
            match r {
                Ok(p) => {
                    &&& p.pid == pid
                    &&& final(self).pinned_in(old(self), p.idx as int, pid)
                    &&& old(self).resident(pid) ==> {
                        &&& *final(self) == (PageCache {
                            dir: final(self).dir,
                            hits: old(self).hits.wrapping_add(1),
                            ..*old(self)
                        })
                        &&& final(self).dir.map@ == old(self).dir.map@
                        &&& final(self).slot_of(pid).dirty == old(self).slot_of(pid).dirty
                    }
                    &&& !old(self).resident(pid) ==> {
                        let f = old(self).dir.frames@[p.idx as int];
                        &&& old(self).dir.chosen(p.idx as int)
                        &&& final(self).good(pid)
                        &&& final(self).buf_of(pid) == page_at(final(self).file.image(), pid)
                        &&& !final(self).slot_of(pid).dirty
                        &&& final(self).hits == old(self).hits
                        &&& final(self).loads == old(self).loads.wrapping_add(1)
                        &&& final(self).evictions == if f.pid is Some {
                            old(self).evictions.wrapping_add(1)
                        } else {
                            old(self).evictions
                        }
                        &&& final(self).flushes == if f.dirty {
                            old(self).flushes.wrapping_add(1)
                        } else {
                            old(self).flushes
                        }
                        &&& f.dirty ==> final(self).wal.flushed() >= old(self).fmt.lsn(
                            old(self).bufs@[p.idx as int]@,
                        )
                    }
                },
                Err(e) => {
                    &&& !old(self).resident(pid)
                    &&& !final(self).resident(pid)
                    &&& final(self).keeps_pinned_but(old(self), -1)
                    &&& e is Exhausted <==> !old(self).dir.has_victim()
                    &&& !(e is Exhausted) ==> final(self).unreadable(pid, e) || e is Io && !old(
                        self).steady() && old(self).takes_dirty()
                },
            },
    {
        self.fetch_mode(pid, false)
    }

    /// Fetch a page for redo, rebuilding it blank where it is missing or fails its
    /// integrity check: during recovery the log is the source of truth. The watermark
    /// moves past the page. Recovery only.
    pub fn fetch_for_redo(&mut self, pid: PageId) -> (r: Result<PageRef, CacheError>)
        requires
            old(self).wf(),
            old(self).resident(pid) ==> old(self).slot_of(pid).pins < u32::MAX,
            pid < u32::MAX,
        ensures
            !old(self).resident(pid) && r is Ok ==> {
                let idx = r->Ok_0.idx;
                &&& final(self).made_room(old(self), idx as int)
                &&& final(self).dir.map@ == old(self).map_but(idx as int).insert(pid, idx)
                &&& final(self).slot_of(pid) == (Slot {
                    pid: Some(pid),
                    pins: 1,
                    ref_bit: true,
                    dirty: true,
                    incoming: None,
                })
            },
            old(self).resident(pid) ==> final(self).dir.frames@ == old(self).dir.frames@.update(
                old(self).dir.map@[pid] as int,
                Slot {
                    pins: (old(self).slot_of(pid).pins + 1) as u32,
                    ref_bit: true,
                    ..old(self).slot_of(pid)
                },
            ) && final(self).dir.hand == old(self).dir.hand,
            final(self).allocations == old(self).allocations,
            old(self).resident(pid) ==> *final(self) == (PageCache {
                dir: final(self).dir,
                hits: old(self).hits.wrapping_add(1),
                ..*old(self)
            }),
            !old(self).resident(pid) ==> final(self).hits == old(self).hits,
            !old(self).resident(pid) ==> match r {
                Ok(p) => {
                    let f = old(self).dir.frames@[p.idx as int];
                    &&& final(self).loads == old(self).loads.wrapping_add(1)
                    &&& final(self).evictions == if f.pid is Some {
                        old(self).evictions.wrapping_add(1)
                    } else {
                        old(self).evictions
                    }
                },
                Err(_) => final(self).loads == old(self).loads && final(self).evictions == old(
                    self).evictions,
            },
            r matches Err(e) ==> final(self).refused(old(self), e),
            !old(self).dir.steal ==> final(self).file.image() == old(self).file.image(),
            final(self).data_follows(old(self)),
            final(self).wf(),
            final(self).keeps_but(old(self), pid),
            old(self).steady() ==> final(self).keeps(old(self)),
            final(self).steady() == old(self).steady(),
            final(self).firm() == old(self).firm(),
            final(self).fmt == old(self).fmt,
            final(self).dpt == old(self).dpt,
            final(self).dir.steal == old(self).dir.steal,
            match r {
                Ok(p) => {
                    &&& p.pid == pid
                    &&& final(self).pinned_in(old(self), p.idx as int, pid)
                    &&& old(self).resident(pid) ==> final(self).dir.next_page == old(
                        self).dir.next_page && final(self).bufs == old(self).bufs
                    &&& !old(self).resident(pid) ==> {
                        &&& final(self).slot_of(pid).dirty
                        &&& final(self).dir.next_page == if old(self).dir.next_page <= pid {
                            (pid + 1) as u32
                        } else {
                            old(self).dir.next_page
                        }
                        &&& final(self).rebuilt(pid)
                        &&& old(self).steady() ==> final(self).buf_of(pid) == if final(self).good(
                            pid,
                        ) {
                            page_at(final(self).file.image(), pid)
                        } else {
                            zeros()
                        }
                    }
                },
                Err(e) => {
                    &&& !old(self).resident(pid)
                    &&& final(self).keeps(old(self))
                    &&& e is Exhausted <==> !old(self).dir.has_victim()
                    &&& !(e is Exhausted) ==> e is Io && !old(self).steady() && old(
                        self).takes_dirty()
                },
            },
    {
        self.fetch_mode(pid, true)
    }

    /// Allocate a fresh page: the next page number, with a zeroed frame that is dirty,
    /// so a flush puts it on disk. There is no read, but a dirty victim is flushed
    /// first.
    pub fn new_page(&mut self) -> (r: Result<PageRef, CacheError>)
        requires
            old(self).wf(),
            old(self).dir.next_page < u32::MAX,
        ensures
            r is Err ==> final(self).evictions == old(self).evictions,
            r matches Ok(p) ==> {
                let idx = p.idx as int;
                &&& final(self).made_room(old(self), idx)
                &&& final(self).dir.map@ == old(self).map_but(idx).insert(p.pid, p.idx)
                &&& final(self).slot_of(p.pid) == (Slot {
                    pid: Some(p.pid),
                    pins: 1,
                    ref_bit: true,
                    dirty: true,
                    incoming: None,
                })
            },
            r matches Err(e) ==> final(self).refused(old(self), e),
            !old(self).dir.steal ==> final(self).file.image() == old(self).file.image(),
            final(self).data_follows(old(self)),
            final(self).wf(),
            final(self).keeps(old(self)),
            final(self).steady() == old(self).steady(),
            final(self).firm() == old(self).firm(),
            final(self).fmt == old(self).fmt,
            final(self).dpt == old(self).dpt,
            final(self).dir.steal == old(self).dir.steal,
            final(self).hits == old(self).hits,
            final(self).loads == old(self).loads,
            match r {
                Ok(p) => {
                    let f = old(self).dir.frames@[p.idx as int];
                    &&& p.pid == old(self).dir.next_page
                    &&& final(self).dir.next_page == old(self).dir.next_page + 1
                    &&& !old(self).resident(p.pid)
                    &&& final(self).pinned_in(old(self), p.idx as int, p.pid)
                    &&& final(self).buf_of(p.pid) == zeros()
                    &&& final(self).slot_of(p.pid).dirty
                    &&& old(self).dir.chosen(p.idx as int)
                    &&& final(self).allocations == old(self).allocations.wrapping_add(1)
                    &&& final(self).evictions == if f.pid is Some {
                        old(self).evictions.wrapping_add(1)
                    } else {
                        old(self).evictions
                    }
                    &&& final(self).flushes == if f.dirty {
                        old(self).flushes.wrapping_add(1)
                    } else {
                        old(self).flushes
                    }
                },
                Err(e) => {
                    &&& final(self).dir.next_page == old(self).dir.next_page
                    &&& final(self).keeps_pinned_but(old(self), -1)
                    &&& final(self).allocations == old(self).allocations
                    &&& e is Exhausted <==> !old(self).dir.has_victim()
                    &&& !(e is Exhausted) ==> e is Io && !old(self).steady()
                },
            },
    {
        let ghost a = *self;
        proof {
            assert(!a.resident(a.dir.next_page)) by {
                if a.resident(a.dir.next_page) {
                    let i = a.dir.map@[a.dir.next_page] as int;
                    assert(a.dir.slot_ok(i));
                    assert(a.dir.frames@[i].incoming is None);
                }
            }
            assert(a.content(a.dir.next_page) is None);
        }
        let (pid, step): (PageId, Step) = self.dir.begin_new();
        let (victim, was): (usize, Option<PageId>) = match step {
            Step::Reserved { victim, old: was, old_dirty } => (victim, was),
            _ => {
                proof {
                    lemma_hit(&a, self, 0);
                    assert forall|i: int| 0 <= i < a.bufs@.len() && i != -1 implies #[trigger] self.pinned_alike(
                        &a,
                        i,
                    ) by {}
                }
                return Err(CacheError::Exhausted);
            },
        };
        proof {
            assert(open_slots(a.dir.frames@, a.dir.steal)[victim as int]);
        }
        match self.flush_old(victim, pid, Ghost(a)) {
            Ok(()) => {},
            Err(e) => {
                let ghost mid = *self;
                self.dir.give_back(pid);
                proof {
                    lemma_given_back(&a, &mid, self, pid);
                    assert(self.hand_at(&a, victim as int)) by {
                        reveal(PageCache::hand_at);
                    }
                    assert(self.stuck(&a, victim as int));
                }
                return Err(CacheError::Io(e));
            },
        }
        let ghost m = *self;
        let buf: Vec<u8> = vec![0u8; PAGE_SIZE];
        assert(buf@ =~= zeros());
        self.bufs[victim] = buf;
        self.dir.publish(victim, true, false);
        if was.is_some() {
            self.evictions = self.evictions.wrapping_add(1);
        }
        self.allocations = self.allocations.wrapping_add(1);
        proof {
            assert(self.hand_at(&a, victim as int)) by {
                reveal(PageCache::hand_at);
            }
            assert(a.dir.slot_ok(victim as int));
            lemma_published(&a, &m, self, victim as int, pid, true);
        }
        Ok(PageRef { idx: victim, pid })
    }

    /// Give a handle back.
    pub fn release(&mut self, r: PageRef)
        requires
            old(self).wf(),
            r.idx < old(self).bufs@.len(),
            old(self).dir.frames@[r.idx as int].pins > 0,
        ensures
            final(self).scarred(old(self)),
            final(self).data_follows(old(self)),
            final(self).wf(),
            *final(self) == (PageCache { dir: final(self).dir, ..*old(self) }),
            final(self).dir.map@ == old(self).dir.map@,
            final(self).dir.next_page == old(self).dir.next_page,
            final(self).dir.steal == old(self).dir.steal,
            forall|p: PageId| #[trigger] final(self).content(p) == old(self).content(p),
            final(self).dir.frames@ == old(self).dir.frames@.update(
                r.idx as int,
                Slot {
                    pins: (old(self).dir.frames@[r.idx as int].pins - 1) as u32,
                    ..old(self).dir.frames@[r.idx as int]
                },
            ),
    {
        let ghost a = *self;
        assert(self.dir.frames@[r.idx as int].incoming is None);
        self.dir.unpin(r.idx);
        proof {
            lemma_hit(&a, self, r.idx as int);
        }
    }

    pub fn hits(&self) -> (n: u64)
        ensures
            n == self.hits,
    {
        self.hits
    }

    pub fn loads(&self) -> (n: u64)
        ensures
            n == self.loads,
    {
        self.loads
    }

    pub fn evictions(&self) -> (n: u64)
        ensures
            n == self.evictions,
    {
        self.evictions
    }

    pub fn flushes(&self) -> (n: u64)
        ensures
            n == self.flushes,
    {
        self.flushes
    }

    pub fn allocations(&self) -> (n: u64)
        ensures
            n == self.allocations,
    {
        self.allocations
    }

    /// Switch to the no-steal policy: a dirty page is never written during eviction.
    pub fn set_no_steal(&mut self)
        requires
            old(self).wf(),
        ensures
            final(self).data_follows(old(self)),
            final(self).wf(),
            *final(self) == (PageCache { dir: final(self).dir, ..*old(self) }),
            final(self).dir == (Dir { steal: false, ..old(self).dir }),
    {
        let ghost a = *self;
        self.dir.steal = false;
        proof {
            assert forall|j: int| 0 <= j < self.dir.frames@.len() implies #[trigger] self.dir.slot_ok(
                j,
            ) by {
                assert(a.dir.slot_ok(j));
            }
            lemma_hit(&a, self, 0);
        }
    }

    /// Record that `pid` became dirty at `reclsn`, if not already tracked: the first
    /// writer wins.
    pub fn note_dirty(&mut self, pid: PageId, reclsn: u64)
        ensures
            final(self).data_follows(old(self)),
            final(self).dpt@ == if old(self).dpt@.dom().contains(pid) {
                old(self).dpt@
            } else {
                old(self).dpt@.insert(pid, reclsn)
            },
            *final(self) == (PageCache { dpt: final(self).dpt, ..*old(self) }),
    {
        if !self.dpt.contains_key(&pid) {
            self.dpt.insert(pid, reclsn);
        }
    }

    /// A sorted snapshot of the dirty page table, for a checkpoint.
    pub fn dpt_snapshot(&self) -> (v: Vec<(PageId, u64)>)
        ensures
            is_snapshot(v@, self.dpt@),
    {
        snapshot_of(&self.dpt)
    }

    /// Drop a resident page without flushing it: the next fetch reloads what is on
    /// disk. No handle to the page may be live.
    pub fn invalidate(&mut self, pid: PageId)
        requires
            old(self).wf(),
            old(self).resident(pid) ==> old(self).slot_of(pid).pins == 0,
        ensures
            final(self).data_follows(old(self)),
            final(self).wf(),
            !final(self).resident(pid),
            *final(self) == (PageCache { dir: final(self).dir, dpt: final(self).dpt, ..*old(self) }),
            final(self).dpt@ == old(self).dpt@.remove(pid),
            final(self).dir.next_page == old(self).dir.next_page,
            final(self).dir.steal == old(self).dir.steal,
            final(self).content(pid) == old(self).durable(pid),
            forall|p: PageId| p != pid ==> #[trigger] final(self).content(p) == old(self).content(p),
            final(self).keeps_pinned_but(old(self), -1),
    {
        let ghost a = *self;
        self.dir.forget(pid);
        self.dpt.remove(&pid);
        proof {
            assert forall|i: int| 0 <= i < self.dir.frames@.len() implies (
            #[trigger] self.dir.frames@[i]).incoming is None by {
                assert(a.dir.frames@[i].incoming is None);
            }
            assert forall|i: int| 0 <= i < self.bufs@.len() implies #[trigger] self.clean_ok(i) by {
                assert(a.clean_ok(i));
            }
            assert forall|i: int| 0 <= i < a.bufs@.len() && i != -1 implies #[trigger] self.pinned_alike(
                &a,
                i,
            ) by {
                if a.resident(pid) && i == a.dir.map@[pid] {
                    assert(a.slot_of(pid).pins == 0);
                }
            }
        }
    }

    /// Write frame `idx` if it still holds `pid` and is dirty.
    fn flush_one(&mut self, idx: usize, pid: PageId) -> (r: Result<(), IoError>)
        requires
            old(self).wf(),
            idx < old(self).bufs@.len(),
        ensures
            final(self).data_follows(old(self)),
            final(self).wf(),
            final(self).keeps(old(self)),
            final(self).steady() == old(self).steady(),
            final(self).firm() == old(self).firm(),
            *final(self) == (PageCache {
                file: final(self).file,
                wal: final(self).wal,
                dir: final(self).dir,
                flushes: final(self).flushes,
                dpt: final(self).dpt,
                ..*old(self)
            }),
            final(self).dir.map@ == old(self).dir.map@,
            final(self).dir.next_page == old(self).dir.next_page,
            final(self).dir.steal == old(self).dir.steal,
            ({
                let s = old(self).dir.frames@[idx as int];
                let b = old(self).bufs@[idx as int]@;
                if s.pid != Some(pid) || !s.dirty {
                    r is Ok && *final(self) == *old(self)
                } else {
                    &&& r is Ok ==> {
                        &&& final(self).dir.hand == old(self).dir.hand
                        &&& final(self).dir.frames@ == old(self).dir.frames@.update(
                            idx as int,
                            Slot { dirty: false, ..s },
                        )
                        &&& final(self).file.image() == overwritten(
                            old(self).file.image(),
                            offset_of(pid),
                            old(self).fmt.sealed(b),
                        )
                        &&& final(self).wal.flushed() >= old(self).fmt.lsn(b)
                        &&& final(self).dpt@ == old(self).dpt@.remove(pid)
                        &&& final(self).flushes == old(self).flushes.wrapping_add(1)
                    }
                    &&& r is Err ==> !old(self).steady() && final(self).dir == old(self).dir
                        && final(self).dpt == old(self).dpt && final(self).flushes == old(
                        self).flushes && (old(self).firm() ==> final(self).file == old(self).file)
                    // Data follows the log.
                    &&& final(self).wal.flushed() < old(self).fmt.lsn(b) ==> final(
                        self).file.image() == old(self).file.image()
                }
            }),
    {
        let ghost a = *self;
        proof {
            assert(a.dir.frames@[idx as int].incoming is None);
            assert(a.dir.slot_ok(idx as int));
        }
        match self.dir.flush_step(idx, pid) {
            FlushStep::Write => {},
            _ => {
                return Ok(());
            },
        }
        let ghost image = self.file.image();
        match self.write_frame(idx, pid) {
            Ok(()) => {},
            Err(e) => {
                proof {
                    lemma_damage_page(image, self.file.image(), pid);
                    lemma_one_written(&a, self, idx as int, pid);
                }
                return Err(e);
            },
        }
        self.flushes = self.flushes.wrapping_add(1);
        self.dir.flush_done(idx, pid);
        self.dpt.remove(&pid);
        proof {
            let b = a.bufs@[idx as int]@;
            lemma_sealed(self.fmt, b);
            lemma_write_page(image, pid, self.fmt.sealed(b));
            lemma_one_written(&a, self, idx as int, pid);
        }
        Ok(())
    }

    /// Flush one page if it is resident and dirty.
    pub fn flush_page(&mut self, pid: PageId) -> (r: Result<(), IoError>)
        requires
            old(self).wf(),
        ensures
            *final(self) == (PageCache {
                file: final(self).file,
                wal: final(self).wal,
                dir: final(self).dir,
                flushes: final(self).flushes,
                dpt: final(self).dpt,
                ..*old(self)
            }),
            r is Ok && old(self).resident(pid) && old(self).slot_of(pid).dirty ==> {
                &&& final(self).dir.hand == old(self).dir.hand
                &&& final(self).dir.frames@ == old(self).dir.frames@.update(
                    old(self).dir.map@[pid] as int,
                    Slot { dirty: false, ..old(self).slot_of(pid) },
                )
                &&& final(self).file.image() == overwritten(
                    old(self).file.image(),
                    offset_of(pid),
                    old(self).fmt.sealed(old(self).buf_of(pid)),
                )
                &&& final(self).flushes == old(self).flushes.wrapping_add(1)
            },
            r is Err ==> final(self).dir == old(self).dir && final(self).dpt == old(self).dpt
                && final(self).flushes == old(self).flushes && (old(self).firm() ==> final(
                self).file == old(self).file),
            final(self).data_follows(old(self)),
            final(self).wf(),
            final(self).keeps(old(self)),
            final(self).steady() == old(self).steady(),
            final(self).firm() == old(self).firm(),
            final(self).bufs == old(self).bufs,
            final(self).dir.map@ == old(self).dir.map@,
            final(self).dir.next_page == old(self).dir.next_page,
            final(self).dir.steal == old(self).dir.steal,
            r is Err ==> !old(self).steady(),
            r is Ok && old(self).resident(pid) ==> {
                &&& !final(self).slot_of(pid).dirty
                &&& final(self).good(pid)
                &&& final(self).disk(pid) == old(self).content(pid)->0
            },
            r is Ok && old(self).resident(pid) && old(self).slot_of(pid).dirty ==> final(
                self).wal.flushed() >= old(self).fmt.lsn(old(self).buf_of(pid)) && final(self).dpt@
                == old(self).dpt@.remove(pid),
            !(old(self).resident(pid) && old(self).slot_of(pid).dirty) ==> *final(self) == *old(
                self),
    {
        let ghost a = *self;
        let at: Option<usize> = match self.dir.map.get(&pid) {
            Some(i) => Some(*i),
            None => None,
        };
        if let Some(idx) = at {
            proof {
                assert(a.dir.frames@[idx as int].incoming is None);
            }
            match self.flush_one(idx, pid) {
                Ok(()) => {},
                Err(e) => {
                    return Err(e);
                },
            }
            assert(self.clean_ok(idx as int));
        }
        Ok(())
    }

    /// Make everything already written durable, without flushing the cache.
    pub fn sync(&mut self) -> (r: Result<(), IoError>)
        requires
            old(self).wf(),
        ensures
            final(self).data_follows(old(self)),
            final(self).wf(),
            *final(self) == (PageCache { file: final(self).file, ..*old(self) }),
            final(self).file.image() == old(self).file.image(),
            final(self).steady() == old(self).steady(),
            final(self).firm() == old(self).firm(),
            forall|p: PageId| #[trigger] final(self).content(p) == old(self).content(p),
            r is Ok ==> final(self).file.synced(),
            r is Err ==> !old(self).steady(),
    {
        let ghost a = *self;
        let r: Result<(), IoError> = self.file.sync();
        proof {
            assert forall|i: int| 0 <= i < self.bufs@.len() implies #[trigger] self.clean_ok(i) by {
                assert(a.clean_ok(i));
            }
        }
        r
    }

    /// One past the highest page number that was handed out.
    pub fn page_count(&self) -> (n: PageId)
        ensures
            n == self.dir.next_page,
    {
        self.dir.next_page
    }

    /// Total pins held across all frames.
    pub fn live_pins(&self) -> (n: u32)
        requires
            pins_to(self.dir.frames@, self.dir.frames@.len() as int) <= u32::MAX,
        ensures
            n == pins_to(self.dir.frames@, self.dir.frames@.len() as int),
    {
        self.dir.live_pins()
    }

    /// No frame is dirty.
    pub open spec fn all_clean(&self) -> bool {
        forall|i: int| 0 <= i < self.dir.frames@.len() ==> !(#[trigger] self.dir.frames@[i]).dirty
    }

    /// Every frame is pinned as often as before.
    pub open spec fn same_pins(&self, before: &Self) -> bool {
        &&& self.dir.frames@.len() == before.dir.frames@.len()
        &&& forall|i: int|
            0 <= i < before.dir.frames@.len() ==> (#[trigger] self.dir.frames@[i]).pins
                == before.dir.frames@[i].pins
    }

    /// The file after the dirty ones of the first `n` frames were written, in order.
    pub open spec fn image_flushed(&self, n: int) -> Seq<u8>
        decreases n,
    {
        if n <= 0 {
            self.file.image()
        } else if self.dir.frames@[n - 1].dirty {
            overwritten(
                self.image_flushed(n - 1),
                offset_of(self.dir.frames@[n - 1].pid->0),
                self.fmt.sealed(self.bufs@[n - 1]@),
            )
        } else {
            self.image_flushed(n - 1)
        }
    }

    /// The dirty page table after the dirty ones of the first `n` frames were written.
    pub open spec fn dpt_flushed(&self, n: int) -> Map<PageId, u64>
        decreases n,
    {
        if n <= 0 {
            self.dpt@
        } else if self.dir.frames@[n - 1].dirty {
            self.dpt_flushed(n - 1).remove(self.dir.frames@[n - 1].pid->0)
        } else {
            self.dpt_flushed(n - 1)
        }
    }

    /// The flushes counted after the dirty ones of the first `n` frames were written.
    pub open spec fn flushes_to(&self, n: int) -> u64
        decreases n,
    {
        if n <= 0 {
            self.flushes
        } else if self.dir.frames@[n - 1].dirty {
            self.flushes_to(n - 1).wrapping_add(1)
        } else {
            self.flushes_to(n - 1)
        }
    }

    /// The frames with the first `n` clean.
    pub open spec fn frames_flushed(&self, n: int) -> Seq<Slot> {
        Seq::new(
            self.dir.frames@.len(),
            |i: int|
                if i < n {
                    Slot { dirty: false, ..self.dir.frames@[i] }
                } else {
                    self.dir.frames@[i]
                },
        )
    }

    /// Frames `m` to `n` are clean: there is nothing to write.
    proof fn lemma_clean_between(&self, m: int, n: int)
        requires
            0 <= m <= n <= self.dir.frames@.len(),
            forall|i: int| m <= i < n ==> !(#[trigger] self.dir.frames@[i]).dirty,
        ensures
            self.image_flushed(n) == self.image_flushed(m),
            self.dpt_flushed(n) == self.dpt_flushed(m),
            self.flushes_to(n) == self.flushes_to(m),
            self.frames_flushed(n) == self.frames_flushed(m),
        decreases n - m,
    {
        if m < n {
            self.lemma_clean_between(m, n - 1);
            assert(!self.dir.frames@[n - 1].dirty);
        }
        assert(self.frames_flushed(n) =~= self.frames_flushed(m));
    }

    /// The first `n` frames were flushed, and nothing else: their pages are clean and have no
    /// entry in the dirty page table.
    pub open spec fn flushed_to(&self, before: &Self, n: int) -> bool {
        &&& *self == (PageCache {
            file: self.file,
            wal: self.wal,
            dir: self.dir,
            flushes: before.flushes_to(n),
            dpt: self.dpt,
            ..*before
        })
        &&& self.dir.hand == before.dir.hand
        &&& self.dir.frames@ == before.frames_flushed(n)
        &&& self.dpt@ == before.dpt_flushed(n)
    }

    /// A flush of all frames stopped at the dirty frame `n`.
    pub open spec fn stopped_at(&self, before: &Self, n: int) -> bool {
        &&& 0 <= n < before.dir.frames@.len()
        &&& before.dir.frames@[n].dirty
        &&& self.flushed_to(before, n)
        &&& before.firm() ==> self.file.image() == before.image_flushed(n)
    }

    /// Every frame was flushed.
    pub open spec fn all_flushed(&self, before: &Self) -> bool {
        let n = before.dir.frames@.len() as int;
        &&& self.flushed_to(before, n)
        &&& self.file.image() == before.image_flushed(n)
    }

    /// Flush every resident dirty page.
    pub fn flush_all(&mut self) -> (r: Result<(), IoError>)
        requires
            old(self).wf(),
        ensures
            match r {
                Ok(()) => final(self).all_flushed(old(self)),
                Err(_) => exists|n: int| #[trigger] final(self).stopped_at(old(self), n),
            },
            final(self).data_follows(old(self)),
            final(self).wf(),
            final(self).keeps(old(self)),
            final(self).steady() == old(self).steady(),
            final(self).firm() == old(self).firm(),
            final(self).bufs == old(self).bufs,
            final(self).fmt == old(self).fmt,
            final(self).dir.map@ == old(self).dir.map@,
            final(self).dir.next_page == old(self).dir.next_page,
            final(self).dir.steal == old(self).dir.steal,
            final(self).same_pins(old(self)),
            r is Ok ==> final(self).all_clean(),
            r is Err ==> !old(self).steady(),
    {
        let ghost a = *self;
        let pending: Vec<(usize, PageId)> = self.dir.dirty_pages();
        let mut k: usize = 0;
        let ghost n = a.dir.frames@.len() as int;
        let ghost mut done: int = 0;
        proof {
            assert(self.dir.frames@ =~= a.frames_flushed(0));
        }
        while k < pending.len()
            invariant
                n == a.dir.frames@.len(),
                0 <= done <= n,
                self.flushed_to(&a, done),
                self.file.image() == a.image_flushed(done),
                forall|j: int| 0 <= j < k ==> (#[trigger] pending@[j]).0 < done,
                forall|j: int| k <= j < pending@.len() ==> done <= (#[trigger] pending@[j]).0,
                forall|i: int, j: int|
                    0 <= i < j < pending@.len() ==> (#[trigger] pending@[i]).0 < (
                    #[trigger] pending@[j]).0,
                self.data_follows(old(self)),
                k <= pending@.len(),
                self.wf(),
                a.wf(),
                a == *old(self),
                self.keeps(&a),
                self.steady() == a.steady(),
                self.firm() == a.firm(),
                self.bufs == a.bufs,
                self.fmt == a.fmt,
                self.dir.map@ == a.dir.map@,
                self.dir.next_page == a.dir.next_page,
                self.dir.steal == a.dir.steal,
                self.dir.frames@.len() == a.dir.frames@.len(),
                forall|j: int|
                    0 <= j < pending@.len() ==> (#[trigger] pending@[j]).0 < a.dir.frames@.len()
                        && a.dir.frames@[pending@[j].0 as int].dirty
                        && a.dir.frames@[pending@[j].0 as int].pid == Some(pending@[j].1),
                forall|i: int|
                    0 <= i < a.dir.frames@.len() && (#[trigger] a.dir.frames@[i]).dirty
                        && a.dir.frames@[i].pid is Some ==> exists|j: int|
                        0 <= j < pending@.len() && (#[trigger] pending@[j]).0 == i,
                forall|i: int|
                    0 <= i < a.dir.frames@.len() ==> (#[trigger] self.dir.frames@[i]).pid
                        == a.dir.frames@[i].pid && self.dir.frames@[i].pins
                        == a.dir.frames@[i].pins && (self.dir.frames@[i].dirty
                        ==> a.dir.frames@[i].dirty),
                forall|j: int|
                    0 <= j < k ==> !self.dir.frames@[(#[trigger] pending@[j]).0 as int].dirty,
            decreases pending@.len() - k,
        {
            let (idx, pid): (usize, PageId) = pending[k];
            proof {
                assert(done <= idx) by {
                    assert(done <= pending@[k as int].0);
                }
                assert forall|i: int| done <= i < idx implies !(
                #[trigger] a.dir.frames@[i]).dirty by {
                    assert(a.dir.slot_ok(i));
                    if a.dir.frames@[i].dirty {
                        let j = choose|j: int|
                            0 <= j < pending@.len() && (#[trigger] pending@[j]).0 == i;
                        if j < k {
                            assert(pending@[j].0 < done);
                        } else if j > k {
                            assert(pending@[k as int].0 < pending@[j].0);
                        }
                    }
                }
                a.lemma_clean_between(done, idx as int);
            }
            let ghost m = *self;
            match self.flush_one(idx, pid) {
                Ok(()) => {},
                Err(e) => {
                    proof {
                        lemma_keeps_trans(&a, &m, self);
                        assert(self.stopped_at(old(self), idx as int));
                    }
                    return Err(e);
                },
            }
            proof {
                lemma_keeps_trans(&a, &m, self);
                assert(m.dir.frames@[idx as int].pid == Some(pid));
                assert(m.dir.frames@[idx as int].dirty);
                assert(self.dir.frames@ =~= a.frames_flushed(idx + 1));
                done = idx + 1;
                assert forall|j: int| 0 <= j < k + 1 implies (#[trigger] pending@[j]).0 < done by {
                    if j < k {
                        assert(pending@[j].0 < pending@[k as int].0);
                    }
                }
                assert forall|j: int| k + 1 <= j < pending@.len() implies done <= (
                #[trigger] pending@[j]).0 by {
                    assert(pending@[k as int].0 < pending@[j].0);
                }
                assert forall|i: int| 0 <= i < a.dir.frames@.len() implies (
                #[trigger] self.dir.frames@[i]).pid == a.dir.frames@[i].pid
                    && self.dir.frames@[i].pins == a.dir.frames@[i].pins && (
                self.dir.frames@[i].dirty ==> a.dir.frames@[i].dirty) by {
                    assert(m.dir.frames@[i].pid == a.dir.frames@[i].pid);
                }
            }
            k = k + 1;
        }
        proof {
            assert forall|i: int| done <= i < n implies !(#[trigger] a.dir.frames@[i]).dirty by {
                assert(a.dir.slot_ok(i));
                if a.dir.frames@[i].dirty {
                    let j = choose|j: int| 0 <= j < pending@.len() && (#[trigger] pending@[j]).0 == i;
                    assert(pending@[j].0 < done);
                }
            }
            a.lemma_clean_between(done, n);
            assert forall|i: int| 0 <= i < self.dir.frames@.len() implies !(
            #[trigger] self.dir.frames@[i]).dirty by {
                assert(a.dir.slot_ok(i));
                if self.dir.frames@[i].dirty {
                    assert(a.dir.frames@[i].dirty);
                    let j = choose|j: int| 0 <= j < pending@.len() && (#[trigger] pending@[j]).0 == i;
                    assert(!self.dir.frames@[pending@[j].0 as int].dirty);
                }
            }
        }
        Ok(())
    }

    /// A durability barrier: flush every dirty page, then sync the file.
    pub fn checkpoint(&mut self) -> (r: Result<(), IoError>)
        requires
            old(self).wf(),
        ensures
            match r {
                Ok(()) => final(self).all_flushed(old(self)),
                Err(_) => final(self).all_flushed(old(self)) || exists|n: int| #[trigger]
                    final(self).stopped_at(old(self), n),
            },
            final(self).data_follows(old(self)),
            final(self).wf(),
            final(self).keeps(old(self)),
            final(self).steady() == old(self).steady(),
            final(self).firm() == old(self).firm(),
            final(self).bufs == old(self).bufs,
            final(self).fmt == old(self).fmt,
            final(self).dir.map@ == old(self).dir.map@,
            final(self).dir.next_page == old(self).dir.next_page,
            final(self).dir.steal == old(self).dir.steal,
            final(self).same_pins(old(self)),
            r is Ok ==> final(self).file.synced(),
            r is Ok ==> final(self).all_clean(),
            r is Err ==> !old(self).steady(),
    {
        let ghost a = *self;
        match self.flush_all() {
            Ok(()) => {},
            Err(e) => {
                return Err(e);
            },
        }
        let ghost m = *self;
        let r: Result<(), IoError> = self.sync();
        proof {
            lemma_keeps_trans(&a, &m, self);
        }
        r
    }
}

impl PageRef {
    /// The page that this handle pins.
    pub fn pid(&self) -> (p: PageId)
        ensures
            p == self.pid,
    {
        self.pid
    }

    /// The pinned page's bytes.
    pub fn read<'a, F: BlockFile, W: WalSync>(&self, cache: &'a PageCache<F, W>) -> (b: &'a Vec<u8>)
        requires
            cache.wf(),
            self.idx < cache.bufs@.len(),
        ensures
            *b == cache.bufs@[self.idx as int],
            b@.len() == PAGE_SIZE,
    {
        &cache.bufs[self.idx]
    }

    /// Replace the pinned page's bytes, marking the frame dirty so it is flushed
    /// before it is ever reused.
    pub fn write<F: BlockFile, W: WalSync>(&self, cache: &mut PageCache<F, W>, bytes: &[u8])
        requires
            old(cache).wf(),
            self.idx < old(cache).bufs@.len(),
            old(cache).resident(self.pid),
            old(cache).dir.map@[self.pid] == self.idx,
            bytes@.len() == PAGE_SIZE,
        ensures
            final(cache).data_follows(old(cache)),
            final(cache).wf(),
            *final(cache) == (PageCache {
                dir: final(cache).dir,
                bufs: final(cache).bufs,
                ..*old(cache)
            }),
            final(cache).dir.map@ == old(cache).dir.map@,
            final(cache).dir.next_page == old(cache).dir.next_page,
            final(cache).dir.steal == old(cache).dir.steal,
            final(cache).dir.frames@ == old(cache).dir.frames@.update(
                self.idx as int,
                Slot { dirty: true, ..old(cache).dir.frames@[self.idx as int] },
            ),
            final(cache).bufs@.len() == old(cache).bufs@.len(),
            final(cache).bufs@[self.idx as int]@ == bytes@,
            final(cache).content(self.pid) == Some(old(cache).fmt.gist(bytes@)),
            forall|p: PageId|
                p != self.pid ==> #[trigger] final(cache).content(p) == old(cache).content(p),
            forall|i: int|
                0 <= i < old(cache).bufs@.len() && i != self.idx ==> #[trigger] final(cache).bufs@[i]
                    == old(cache).bufs@[i],
    {
        let ghost a = *cache;
        proof {
            assert(a.dir.frames@[self.idx as int].incoming is None);
            assert(a.dir.slot_ok(self.idx as int));
        }
        let copy: Vec<u8> = copy_bytes(bytes);
        cache.bufs[self.idx] = copy;
        cache.dir.mark_dirty(self.idx);
        proof {
            assert forall|i: int| 0 <= i < cache.dir.frames@.len() implies (
            #[trigger] cache.dir.frames@[i]).incoming is None by {
                assert(a.dir.frames@[i].incoming is None);
            }
            assert forall|i: int| 0 <= i < cache.bufs@.len() implies #[trigger] cache.clean_ok(i) by {
                assert(a.clean_ok(i));
            }
            assert forall|p: PageId| p != self.pid implies #[trigger] cache.content(p) == a.content(
                p,
            ) by {
                if a.resident(p) {
                    assert(a.dir.frames@[a.dir.map@[p] as int].incoming is None);
                    assert(a.dir.map@[p] != self.idx);
                }
            }
        }
    }
}

proof fn lemma_keeps_trans<F: BlockFile, W: WalSync>(
    a: &PageCache<F, W>,
    m: &PageCache<F, W>,
    b: &PageCache<F, W>,
)
    requires
        m.keeps(a),
        b.keeps(m),
    ensures
        b.keeps(a),
{
    assert forall|p: PageId| (#[trigger] a.content(p)) is Some implies b.content(p) == a.content(p) by {
        assert(m.content(p) == a.content(p));
    }
}

/// A page number that was given back.
proof fn lemma_given_back<F: BlockFile, W: WalSync>(
    a: &PageCache<F, W>,
    m: &PageCache<F, W>,
    b: &PageCache<F, W>,
    pid: PageId,
)
    requires
        m.wf(),
        m.keeps(a),
        m.keeps_pinned_but(a, -1),
        pid == a.dir.next_page,
        m.dir.next_page == pid + 1,
        *b == (PageCache { dir: b.dir, ..*m }),
        b.dir.wf(),
        b.dir == (Dir { next_page: pid, ..m.dir }),
        a.wf(),
        m.dir.map@ == a.dir.map@,
        m.file.image().len() < offset_of(pid) + PAGE_SIZE,
    ensures
        b.wf(),
        b.keeps(a),
        b.keeps_pinned_but(a, -1),
{
    assert forall|i: int| 0 <= i < b.bufs@.len() implies #[trigger] b.clean_ok(i) by {
        assert(m.clean_ok(i));
    }
    assert forall|p: PageId| (#[trigger] a.content(p)) is Some implies b.content(p) == a.content(p) by {
        assert(m.content(p) == a.content(p));
    }
    assert forall|i: int| 0 <= i < a.bufs@.len() && i != -1 implies #[trigger] b.pinned_alike(a, i) by {
        assert(m.pinned_alike(a, i));
    }
}

/// The file changed in page `pid` alone, whose frame is dirty still or holds what
/// the file now holds.
proof fn lemma_one_written<F: BlockFile, W: WalSync>(
    a: &PageCache<F, W>,
    b: &PageCache<F, W>,
    idx: int,
    pid: PageId,
)
    requires
        a.wf(),
        0 <= idx < a.bufs@.len(),
        a.dir.frames@[idx].pid == Some(pid),
        b.fmt == a.fmt,
        b.bufs == a.bufs,
        b.dir.wf(),
        b.dir.map@ == a.dir.map@,
        b.dir.next_page == a.dir.next_page,
        b.dir.frames@.len() == a.dir.frames@.len(),
        forall|i: int|
            0 <= i < a.dir.frames@.len() && i != idx ==> #[trigger] b.dir.frames@[i]
                == a.dir.frames@[i],
        b.dir.frames@[idx] == (Slot { dirty: b.dir.frames@[idx].dirty, ..a.dir.frames@[idx] }),
        b.dir.frames@[idx].dirty || (b.good(pid) && b.disk(pid) == b.fmt.gist(b.bufs@[idx]@)),
        forall|q: PageId| #[trigger]
            has_page(a.file.image(), q) && q != pid ==> has_page(b.file.image(), q) && page_at(
                b.file.image(),
                q,
            ) == page_at(a.file.image(), q),
        b.file.image().len() <= a.file.image().len() || b.file.image().len() <= offset_of(pid)
            + PAGE_SIZE,
    ensures
        b.wf(),
        b.keeps(a),
{
    assert(a.dir.slot_ok(idx));
    assert forall|i: int| 0 <= i < b.dir.frames@.len() implies (
    #[trigger] b.dir.frames@[i]).incoming is None by {
        assert(a.dir.frames@[i].incoming is None);
    }
    assert forall|i: int| 0 <= i < b.bufs@.len() implies #[trigger] b.clean_ok(i) by {
        assert(a.clean_ok(i));
        assert(a.dir.slot_ok(i));
        if i != idx && a.dir.frames@[i].pid is Some {
            let p = a.dir.frames@[i].pid->0;
            assert(b.dir.frames@[i] == a.dir.frames@[i]);
            assert(p != pid);
            if !a.dir.frames@[i].dirty {
                assert(has_page(a.file.image(), p));
            }
        }
    }
    assert forall|q: PageId| (#[trigger] a.content(q)) is Some implies b.content(q) == a.content(q) by {
        if !a.resident(q) {
            assert(has_page(a.file.image(), q));
        }
    }
}

// ---- whole pages, one at a time ----

impl<F: BlockFile, W: WalSync> PageCache<F, W> {
    /// No handle is live.
    pub open spec fn idle(&self) -> bool {
        forall|i: int| 0 <= i < self.dir.frames@.len() ==> (#[trigger] self.dir.frames@[i]).pins == 0
    }

    /// Page `p` is in memory with bytes that do not pass the check, as a page may be until it
    /// is written out.
    pub open spec fn unsealed(&self, p: PageId) -> bool {
        self.resident(p) && !self.fmt.valid(self.buf_of(p))
    }

    /// A copy of page `pid`.
    pub fn copy_of(&mut self, pid: PageId) -> (r: Result<Vec<u8>, CacheError>)
        requires
            old(self).wf(),
            old(self).idle(),
        ensures
            final(self).dir.frames@.len() == old(self).dir.frames@.len(),
            old(self).resident(pid) ==> r is Ok,
            forall|p: PageId| #[trigger] final(self).unsealed(p) ==> old(self).unsealed(p),
            r matches Ok(b) ==> {
                &&& !old(self).fmt.valid(b@) ==> old(self).unsealed(pid)
                &&& old(self).fmt.valid(b@) ==> !final(self).unsealed(pid)
            },
            !old(self).dir.steal ==> final(self).file.image() == old(self).file.image(),
            final(self).scarred(old(self)),
            final(self).data_follows(old(self)),
            final(self).wf(),
            final(self).idle(),
            final(self).keeps(old(self)),
            final(self).steady() == old(self).steady(),
            final(self).firm() == old(self).firm(),
            final(self).fmt == old(self).fmt,
            final(self).dir.steal == old(self).dir.steal,
            final(self).dir.next_page == old(self).dir.next_page,
            match r {
                Ok(b) => {
                    &&& b@.len() == PAGE_SIZE
                    &&& final(self).content(pid) == Some(final(self).fmt.gist(b@))
                    &&& old(self).content(pid) is Some ==> old(self).content(pid) == Some(
                        old(self).fmt.gist(b@),
                    )
                },
                Err(e) => {
                    &&& !final(self).resident(pid)
                    &&& e is Exhausted ==> !old(self).dir.steal && !old(self).dir.has_victim()
                    &&& !(e is Exhausted) ==> final(self).unreadable(pid, e) || e is Io && !old(
                        self).steady()
                },
            },
            old(self).steady() && old(self).dir.has_victim() && old(self).content(pid) is Some
                ==> r is Ok,
    {
        let ghost a = *self;
        proof {
            lemma_may_fetch(self, pid);
        }
        let g: PageRef = match self.fetch(pid) {
            Ok(g) => g,
            Err(e) => {
                proof {
                    lemma_idle_again(&a, self);
                    lemma_unsealed_refused(&a, self, e);
                }
                return Err(e);
            },
        };
        let b: Vec<u8> = copy_bytes(g.read(self).as_slice());
        let ghost mid = *self;
        let ghost at = g.idx as int;
        proof {
            lemma_unsealed_fetched(&a, self, pid, at);
        }
        self.release(g);
        proof {
            assert forall|p: PageId| #[trigger] self.unsealed(p) implies a.unsealed(p) by {
                assert(mid.unsealed(p));
            }
            assert(self.content(pid) == mid.content(pid));
            assert forall|p: PageId| (#[trigger] a.content(p)) is Some implies self.content(p)
                == a.content(p) by {
                assert(self.content(p) == mid.content(p));
            }
            assert forall|i: int| 0 <= i < self.dir.frames@.len() implies (
            #[trigger] self.dir.frames@[i]).pins == 0 by {
                if i != at {
                    assert(mid.pinned_alike(&a, i));
                }
            }
        }
        Ok(b)
    }

    /// Put `bytes` into a pinned page and give it back.
    fn finish_write(&mut self, r: PageRef, bytes: &[u8], Ghost(before): Ghost<Self>)
        requires
            old(self).wf(),
            before.wf(),
            before.idle(),
            old(self).pinned_in(&before, r.idx as int, r.pid),
            old(self).dir.frames@[r.idx as int].pins == 1,
            bytes@.len() == PAGE_SIZE,
        ensures
            final(self).dir.frames@.len() == old(self).dir.frames@.len(),
            *final(self) == (PageCache {
                dir: final(self).dir,
                bufs: final(self).bufs,
                ..*old(self)
            }),
            final(self).data_follows(old(self)),
            final(self).wf(),
            final(self).idle(),
            final(self).steady() == old(self).steady(),
            final(self).firm() == old(self).firm(),
            final(self).fmt == old(self).fmt,
            final(self).dir.steal == old(self).dir.steal,
            final(self).dir.next_page == old(self).dir.next_page,
            final(self).resident(r.pid),
            final(self).slot_of(r.pid).dirty,
            final(self).buf_of(r.pid) == bytes@,
            final(self).content(r.pid) == Some(old(self).fmt.gist(bytes@)),
            forall|p: PageId|
                p != r.pid ==> #[trigger] final(self).content(p) == old(self).content(p),
    {
        let ghost m = *self;
        r.write(self, bytes);
        let ghost w = *self;
        let ghost at = r.idx as int;
        let ghost pid = r.pid;
        self.release(r);
        proof {
            assert(self.content(pid) == w.content(pid));
            assert forall|i: int| 0 <= i < self.dir.frames@.len() implies (
            #[trigger] self.dir.frames@[i]).pins == 0 by {
                if i != at {
                    assert(m.pinned_alike(&before, i));
                }
            }
        }
    }

    /// Page `pid` held `b` and holds `c`, and is marked as changed; a page that was resident
    /// is counted as one hit.
    pub open spec fn edited(&self, before: &Self, pid: PageId, b: Seq<u8>, c: Seq<u8>) -> bool {
        &&& self.keeps_but(before, pid)
        &&& b.len() == PAGE_SIZE
        &&& before.content(pid) is Some ==> before.content(pid) == Some(before.fmt.gist(b))
        &&& before.resident(pid) ==> b == before.buf_of(pid)
        &&& self.content(pid) == Some(before.fmt.gist(c))
        &&& self.resident(pid)
        &&& self.buf_of(pid) == c
        &&& self.slot_of(pid).dirty
        &&& self.hits == if before.resident(pid) {
            before.hits.wrapping_add(1)
        } else {
            before.hits
        }
    }

    /// Hand page `pid` to `f` and put what it makes of it in its place. The page is marked
    /// as changed whatever that is.
    pub fn edit<T, G: FnOnce(Vec<u8>) -> (Vec<u8>, T)>(&mut self, pid: PageId, f: G) -> (r: Result<
        T,
        CacheError,
    >)
        requires
            old(self).wf(),
            old(self).idle(),
            forall|b: Vec<u8>|
                b@.len() == PAGE_SIZE && !old(self).damaged(pid) && pid < old(self).dir.next_page && (
                old(self).content(pid) is Some ==> old(self).content(pid) == Some(
                    old(self).fmt.gist(b@),
                )) ==> #[trigger] f.requires((b,)),
            forall|b: Vec<u8>, c: Vec<u8>, t: T| #[trigger]
                f.ensures((b,), (c, t)) ==> c@.len() == PAGE_SIZE,
        ensures
            final(self).dir.frames@.len() == old(self).dir.frames@.len(),
            old(self).resident(pid) ==> r is Ok,
            !old(self).dir.steal ==> final(self).file.image() == old(self).file.image(),
            final(self).data_follows(old(self)),
            final(self).wf(),
            final(self).idle(),
            final(self).steady() == old(self).steady(),
            final(self).firm() == old(self).firm(),
            final(self).fmt == old(self).fmt,
            final(self).dir.steal == old(self).dir.steal,
            final(self).dir.next_page == old(self).dir.next_page,
            match r {
                Ok(t) => exists|b: Vec<u8>, c: Vec<u8>| #[trigger]
                    final(self).edited(old(self), pid, b@, c@) && f.ensures((b,), (c, t)),
                Err(e) => {
                    &&& final(self).keeps(old(self))
                    &&& !final(self).resident(pid)
                    &&& e is Exhausted ==> !old(self).dir.steal && !old(self).dir.has_victim()
                    &&& !(e is Exhausted) ==> final(self).unreadable(pid, e) || e is Io && !old(
                        self).steady()
                },
            },
            old(self).damaged(pid) || pid >= old(self).dir.next_page ==> r is Err,
            old(self).steady() && old(self).dir.has_victim() && old(self).content(pid) is Some
                ==> r is Ok,
    {
        let ghost a = *self;
        proof {
            lemma_may_fetch(self, pid);
        }
        let g: PageRef = match self.fetch(pid) {
            Ok(g) => g,
            Err(e) => {
                proof {
                    lemma_idle_again(&a, self);
                }
                return Err(e);
            },
        };
        let ghost mid = *self;
        let b: Vec<u8> = copy_bytes(g.read(self).as_slice());
        proof {
            assert(a.damaged(pid) ==> mid.damaged(pid));
            assert(mid.dir.frames@[g.idx as int].incoming is None);
            assert(mid.dir.slot_ok(g.idx as int));
            assert(mid.content(pid) == Some(mid.fmt.gist(b@)));
        }
        let ghost seen = b;
        let (c, t): (Vec<u8>, T) = f(b);
        self.finish_write(g, c.as_slice(), Ghost(a));
        proof {
            assert forall|p: PageId| (#[trigger] a.content(p)) is Some && p != pid implies self.content(
                p,
            ) == a.content(p) by {
                assert(self.content(p) == mid.content(p));
            }
            assert(f.ensures((seen,), (c, t)));
            assert(self.edited(&a, pid, seen@, c@));
        }
        Ok(t)
    }

    /// Allocate a fresh page with these bytes.
    pub fn append(&mut self, bytes: &[u8]) -> (r: Result<PageId, CacheError>)
        requires
            old(self).wf(),
            old(self).idle(),
            old(self).dir.next_page < u32::MAX,
            bytes@.len() == PAGE_SIZE,
        ensures
            final(self).dir.frames@.len() == old(self).dir.frames@.len(),
            !old(self).dir.steal ==> final(self).file.image() == old(self).file.image(),
            final(self).data_follows(old(self)),
            final(self).wf(),
            final(self).idle(),
            final(self).keeps(old(self)),
            final(self).steady() == old(self).steady(),
            final(self).firm() == old(self).firm(),
            final(self).fmt == old(self).fmt,
            final(self).dir.steal == old(self).dir.steal,
            match r {
                Ok(pid) => {
                    &&& pid == old(self).dir.next_page
                    &&& final(self).dir.next_page == old(self).dir.next_page + 1
                    &&& final(self).content(pid) == Some(old(self).fmt.gist(bytes@))
                    &&& old(self).content(pid) is None
                },
                Err(e) => {
                    &&& final(self).dir.next_page == old(self).dir.next_page
                    &&& e is Exhausted ==> !old(self).dir.steal && !old(self).dir.has_victim()
                    &&& !(e is Exhausted) ==> e is Io && !old(self).steady()
                },
            },
    {
        let ghost a = *self;
        proof {
            lemma_may_fetch(self, 0);
            lemma_unallocated(self);
        }
        let g: PageRef = match self.new_page() {
            Ok(g) => g,
            Err(e) => {
                proof {
                    lemma_idle_again(&a, self);
                }
                return Err(e);
            },
        };
        let pid: PageId = g.pid;
        let ghost mid = *self;
        self.finish_write(g, bytes, Ghost(a));
        proof {
            assert forall|p: PageId| (#[trigger] a.content(p)) is Some implies self.content(p)
                == a.content(p) by {
                assert(self.content(p) == mid.content(p));
            }
        }
        Ok(pid)
    }
}

/// In an idle cache no page is pinned, and where it may steal some frame may be taken.
proof fn lemma_may_fetch<F: BlockFile, W: WalSync>(c: &PageCache<F, W>, pid: PageId)
    requires
        c.wf(),
        c.idle(),
    ensures
        c.resident(pid) ==> c.slot_of(pid).pins == 0,
        c.dir.steal ==> c.dir.has_victim(),
{
    if c.resident(pid) {
        assert(c.dir.frames@[c.dir.map@[pid] as int].pins == 0);
    }
    if c.dir.steal {
        assert(c.dir.frames@[0].pins == 0);
        assert(c.dir.frames@[0].incoming is None);
        assert(open_slots(c.dir.frames@, c.dir.steal)[0]);
    }
}

/// A cache whose pins did not change is idle still.
proof fn lemma_idle_again<F: BlockFile, W: WalSync>(a: &PageCache<F, W>, b: &PageCache<F, W>)
    requires
        a.idle(),
        a.wf(),
        b.wf(),
        b.keeps_pinned_but(a, -1),
    ensures
        b.idle(),
{
    assert forall|i: int| 0 <= i < b.dir.frames@.len() implies (#[trigger] b.dir.frames@[i]).pins == 0 by {
        assert(b.pinned_alike(a, i));
    }
}

/// The next page number names no page yet.
proof fn lemma_unallocated<F: BlockFile, W: WalSync>(c: &PageCache<F, W>)
    requires
        c.wf(),
    ensures
        c.content(c.dir.next_page) is None,
{
    let p = c.dir.next_page;
    if c.resident(p) {
        let i = c.dir.map@[p] as int;
        assert(c.dir.frames@[i].incoming is None);
        assert(c.dir.slot_ok(i));
    }
}

impl<F: BlockFile> PageCache<F, NoWal> {
    /// A clean cache without a log: pages are opaque.
    pub fn open(file: F, cap: usize) -> (c: Self)
        requires
            cap > 0,
            file.image().len() < 0x2000_0000_0000,
        ensures
            c.dir.next_page == file.image().len() as int / PAGE_SIZE as int ==> c.wf(),
            c.file.image() == file.image(),
            c.file.reliable() == file.reliable(),
            c.file.synced() == file.synced(),
            c.fmt == (PageFormat { lsn_at: None, checked: false }),
            c.dir.frames@ == Seq::new(cap as nat, |i: int| empty_slot()),
            c.dir.map@ == Map::<PageId, usize>::empty(),
            c.dir.next_page == file.image().len() as int / PAGE_SIZE as int || !file.reliable()
                && c.dir.next_page == 0,
            c.dir.steal,
            c.dpt@ == Map::<PageId, u64>::empty(),
            c.hits == 0 && c.loads == 0 && c.evictions == 0 && c.flushes == 0 && c.allocations == 0,
    {
        Self::open_formatted(file, cap, NoWal, PageFormat::opaque())
    }
}

/// What a checkpoint wrote survives a reopening: a cache over the same file image
/// has every page that the checkpointed cache had.
pub proof fn law_checkpoint_survives_reopen<F: BlockFile, W: WalSync>(
    a: &PageCache<F, W>,
    b: &PageCache<F, W>,
    p: PageId,
)
    requires
        a.wf(),
        a.all_clean(),
        a.content(p) is Some,
        b.dir.map@ == Map::<PageId, usize>::empty(),
        b.file.image() == a.file.image(),
        b.fmt == a.fmt,
    ensures
        b.content(p) == a.content(p),
{
    if a.resident(p) {
        let i = a.dir.map@[p] as int;
        assert(a.dir.frames@[i].incoming is None);
        assert(a.clean_ok(i));
    }
}

/// A checkpoint is a barrier: what a cache held when it ended is found again by a cache
/// opened on the disk after any loss of power.
pub proof fn law_checkpoint_survives_power_loss<W: WalSync>(
    a: &PageCache<FaultDisk, W>,
    order: Seq<usize>,
    fates: Seq<FateView>,
    b: &PageCache<FaultDisk, W>,
    p: PageId,
)
    requires
        a.wf(),
        a.all_clean(),
        a.file.synced(),
        a.content(p) is Some,
        plan_ok(ops_of(a.file.pending@), order, fates, a.file.sector as int),
        b.dir.map@ == Map::<PageId, usize>::empty(),
        b.fmt == a.fmt,
        b.file.image() == crash_image(
            a.file.durable@,
            ops_of(a.file.pending@),
            order,
            fates,
            a.file.sector as int,
            order.len() as int,
        ),
    ensures
        b.file.image() == a.file.image(),
        b.content(p) == a.content(p),
{
    law_synced_disk_survives_a_crash(&a.file, order, fates);
    law_checkpoint_survives_reopen(a, b, p);
}

/// Where data has followed the log since the log was ahead of the file, the log is durable
/// through the LSN of every page of the file that passes the check.
pub proof fn law_data_follows_the_log<F: BlockFile, W: WalSync>(
    first: &PageCache<F, W>,
    last: &PageCache<F, W>,
    p: PageId,
)
    requires
        first.firm(),
        first.log_ahead(),
        last.data_follows(first),
        last.good(p),
    ensures
        last.log_ahead(),
        last.fmt.lsn(page_at(last.file.image(), p)) <= last.wal.flushed(),
{
    reveal(ahead_of);
}

/// The log is ahead of a file that holds nothing, where the LSN of a page lies outside
/// its checksum.
pub proof fn law_empty_files_are_behind<F: BlockFile, W: WalSync>(cache: &PageCache<F, W>)
    requires
        cache.file.image().len() == 0,
        cache.fmt.fits(),
        cache.fmt.checked && cache.fmt.lsn_at is Some ==> cache.fmt.lsn_at->0 >= 4,
    ensures
        cache.log_ahead(),
{
    reveal(ahead_of);
}

/// The abort path: where the file has stayed as it was since the page was clean, as it does
/// under no-steal through every fetch and allocation, invalidating the page gives back what it
/// held then.
pub proof fn law_invalidate_gives_back_the_durable_page<F: BlockFile, W: WalSync>(
    clean: &PageCache<F, W>,
    changed: &PageCache<F, W>,
    invalidated: &PageCache<F, W>,
    p: PageId,
)
    requires
        clean.wf(),
        clean.resident(p) ==> !clean.slot_of(p).dirty,
        changed.fmt == clean.fmt,
        changed.file.image() == clean.file.image(),
        invalidated.content(p) == changed.durable(p),
    ensures
        invalidated.content(p) == clean.durable(p),
        invalidated.content(p) == clean.content(p),
{
    if clean.resident(p) {
        assert(clean.clean_ok(clean.dir.map@[p] as int));
    }
}

/// Fetching a page leaves no other with bytes that do not pass the check.
proof fn lemma_unsealed_fetched<F: BlockFile, W: WalSync>(
    a: &PageCache<F, W>,
    b: &PageCache<F, W>,
    pid: PageId,
    idx: int,
)
    requires
        a.wf(),
        b.wf(),
        b.fmt == a.fmt,
        a.resident(pid) ==> b.bufs == a.bufs && b.dir.map@ == a.dir.map@,
        !a.resident(pid) ==> b.made_room(a, idx) && b.dir.map@ == a.map_but(idx).insert(
            pid,
            idx as usize,
        ) && b.good(pid) && b.buf_of(pid) == page_at(b.file.image(), pid),
        b.resident(pid),
        0 <= idx < a.bufs@.len(),
        a.resident(pid) ==> a.dir.map@[pid] == idx,
    ensures
        forall|p: PageId| #[trigger] b.unsealed(p) ==> a.unsealed(p),
{
    assert forall|p: PageId| #[trigger] b.unsealed(p) implies a.unsealed(p) by {
        if !a.resident(pid) && p != pid {
            assert(a.dir.map@.dom().contains(p));
            assert(a.resident(p));
            assert(b.dir.map@[p] == a.dir.map@[p]);
            let i = a.dir.map@[p] as int;
            assert(a.dir.frames@[i].pid == Some(p));
            assert(i != idx);
            assert(b.bufs@[i] == a.bufs@[i]);
        } else if a.resident(pid) {
            assert(a.dir.map@.dom().contains(p));
            assert(a.resident(p));
        }
    }
}

/// A refused fetch leaves no page with bytes that do not pass the check that had none.
proof fn lemma_unsealed_refused<F: BlockFile, W: WalSync>(
    a: &PageCache<F, W>,
    b: &PageCache<F, W>,
    e: CacheError,
)
    requires
        a.wf(),
        b.wf(),
        b.fmt == a.fmt,
        b.refused(a, e),
    ensures
        forall|p: PageId| #[trigger] b.unsealed(p) ==> a.unsealed(p),
{
    assert forall|p: PageId| #[trigger] b.unsealed(p) implies a.unsealed(p) by {
        if exists|idx: int| #[trigger] b.emptied(a, idx) {
            let idx = choose|idx: int| #[trigger] b.emptied(a, idx);
            assert(a.dir.map@.dom().contains(p));
            assert(a.resident(p));
            let i = a.dir.map@[p] as int;
            assert(a.dir.frames@[i].pid == Some(p));
            assert(i != idx);
            assert(b.bufs@[i] == a.bufs@[i]);
        } else {
            assert(b.dir.map@ == a.dir.map@ && b.bufs == a.bufs);
            assert(a.resident(p));
        }
    }
}

} // verus!
