//! Page-latch primitives: the protocol steps that a concurrent page cache stands
//! on, each one indivisible.
//!
//! * [`PageLatch`] is a reader/writer latch over a page's contents: many readers
//!   or one writer, never both.
//! * [`LatchTable`] is a find-or-install directory from page id to a latch. Asking
//!   twice for the same page gives the same latch; there is never a double
//!   install.
//! * [`write_two_ordered`] acquires two latches for writing in a globally
//!   consistent order (lower id first), so holders of latches never wait for one
//!   another in a circle.
//! * [`Frame`] couples a latch with a pin count and an eviction tombstone.
//! * [`ClockPool`] is a fixed-capacity page cache with CLOCK replacement.
//!
//! An acquisition that would block says so; the caller waits and asks again.

use std::collections::HashMap;

use vstd::prelude::*;

use crate::clock::{law_clock_takes_the_nearest, pick, reached, spent_to, step, takes};

verus! {

broadcast use vstd::std_specs::hash::group_hash_axioms;

/// A page number, the directory key.
pub type PageId = u32;

/// Shared access to the latch of one page. It is given back by
/// [`PageLatch::release_read`].
pub struct ReadGuard {
    pub id: PageId,
}

/// Exclusive access to the latch of one page. It is given back by
/// [`PageLatch::release_write`].
pub struct WriteGuard {
    pub id: PageId,
}

/// A reader/writer latch guarding one page's value of type `T`.
///
/// A latch is not a lock-manager lock: it is short-duration, protects physical
/// consistency of a single page, and is released the moment the operation on
/// that page finishes, whereas a lock is held to transaction end.
pub struct PageLatch<T> {
    pub id: PageId,
    pub value: T,
    /// How many hold shared access.
    pub readers: u32,
    /// Whether somebody holds exclusive access.
    pub writer: bool,
}

impl<T> PageLatch<T> {
    /// Many readers or one writer, never both.
    pub open spec fn wf(&self) -> bool {
        self.writer ==> self.readers == 0
    }

    pub open spec fn is_free(&self) -> bool {
        !self.writer && self.readers == 0
    }

    pub fn new(id: PageId, value: T) -> (l: PageLatch<T>)
        ensures
            l.wf(),
            l == (PageLatch { id, value, readers: 0, writer: false }),
    {
        PageLatch { id, value, readers: 0, writer: false }
    }

    /// The page this latch guards.
    pub fn id(&self) -> (id: PageId)
        ensures
            id == self.id,
    {
        self.id
    }

    /// Acquire shared (read) access. Coexists with other readers; `None` while a
    /// writer holds the latch.
    pub fn read(&mut self) -> (g: Option<ReadGuard>)
        requires
            old(self).wf(),
            old(self).readers < u32::MAX,
        ensures
            final(self).wf(),
            g is Some <==> !old(self).writer,
            g matches Some(r) ==> r.id == old(self).id,
            *final(self) == (PageLatch {
                readers: if old(self).writer {
                    old(self).readers
                } else {
                    (old(self).readers + 1) as u32
                },
                ..*old(self)
            }),
    {
        if self.writer {
            return None;
        }
        self.readers = self.readers + 1;
        Some(ReadGuard { id: self.id })
    }

    /// Acquire exclusive (write) access. `None` while anybody holds the latch.
    pub fn write(&mut self) -> (g: Option<WriteGuard>)
        requires
            old(self).wf(),
        ensures
            final(self).wf(),
            g is Some <==> old(self).is_free(),
            g matches Some(w) ==> w.id == old(self).id,
            *final(self) == (PageLatch {
                writer: old(self).writer || old(self).readers == 0,
                ..*old(self)
            }),
    {
        self.try_write()
    }

    /// Try to acquire exclusive access without waiting. `None` if held.
    pub fn try_write(&mut self) -> (g: Option<WriteGuard>)
        requires
            old(self).wf(),
        ensures
            final(self).wf(),
            g is Some <==> old(self).is_free(),
            g matches Some(w) ==> w.id == old(self).id,
            *final(self) == (PageLatch {
                writer: old(self).writer || old(self).readers == 0,
                ..*old(self)
            }),
    {
        if self.writer || self.readers > 0 {
            return None;
        }
        self.writer = true;
        Some(WriteGuard { id: self.id })
    }

    /// What the page holds, for a reader.
    pub fn get(&self, g: &ReadGuard) -> (v: &T)
        requires
            g.id == self.id,
            self.readers > 0,
        ensures
            *v == self.value,
    {
        &self.value
    }

    /// What the page holds, for the writer.
    pub fn get_mut(&mut self, g: &WriteGuard) -> (v: &mut T)
        requires
            g.id == old(self).id,
            old(self).writer,
        ensures
            *v == old(self).value,
            *final(self) == (PageLatch { value: *final(v), ..*old(self) }),
    {
        &mut self.value
    }

    /// Give shared access back.
    pub fn release_read(&mut self, g: ReadGuard)
        requires
            old(self).wf(),
            g.id == old(self).id,
            old(self).readers > 0,
        ensures
            final(self).wf(),
            *final(self) == (PageLatch { readers: (old(self).readers - 1) as u32, ..*old(self) }),
    {
        self.readers = self.readers - 1;
    }

    /// Give exclusive access back.
    pub fn release_write(&mut self, g: WriteGuard)
        requires
            old(self).wf(),
            g.id == old(self).id,
            old(self).writer,
        ensures
            final(self).wf(),
            *final(self) == (PageLatch { writer: false, ..*old(self) }),
    {
        self.writer = false;
    }
}

/// Names one latch of a [`LatchTable`]. It stays good after the page is dropped
/// from the directory.
#[derive(Clone, Copy, Debug, PartialEq, Eq, Structural)]
pub struct LatchRef {
    pub at: usize,
}

/// A find-or-install directory from page id to its latch.
///
/// The check and the insertion are one step, so callers converge on a single
/// latch per page. A latch that was dropped from the directory lives as long as
/// the table, so whoever holds it is never invalidated.
pub struct LatchTable<T> {
    pub dir: HashMap<PageId, usize>,
    pub latches: Vec<PageLatch<T>>,
    pub installs: u64,
}

impl<T> LatchTable<T> {
    /// Every directory entry names a latch of its page, and every install is
    /// counted.
    pub open spec fn wf(&self) -> bool {
        &&& self.installs == self.latches@.len()
        &&& forall|p: PageId| #[trigger]
            self.dir@.dom().contains(p) ==> self.dir@[p] < self.latches@.len()
                && self.latches@[self.dir@[p] as int].id == p
    }

    pub fn new() -> (t: LatchTable<T>)
        ensures
            t.wf(),
            t.dir@ == Map::<PageId, usize>::empty(),
            t.latches@ == Seq::<PageLatch<T>>::empty(),
            t.installs == 0,
    {
        LatchTable { dir: HashMap::new(), latches: Vec::new(), installs: 0 }
    }

    /// Return the latch for `pid`, installing one built by `make` if absent.
    /// `make` runs only on a real install.
    pub fn get_or_install<F: FnOnce() -> T>(&mut self, pid: PageId, make: F) -> (r: LatchRef)
        requires
            old(self).wf(),
            !old(self).dir@.dom().contains(pid) ==> old(self).installs < u64::MAX && make.requires(
                (),
            ),
        ensures
            final(self).wf(),
            final(self).dir@ == old(self).dir@.insert(pid, r.at),
            old(self).dir@.dom().contains(pid) ==> *final(self) == *old(self) && r.at
                == old(self).dir@[pid],
            !old(self).dir@.dom().contains(pid) ==> {
                &&& r.at == old(self).latches@.len()
                &&& final(self).installs == old(self).installs + 1
                &&& final(self).latches@.len() == old(self).latches@.len() + 1
                &&& final(self).latches@.drop_last() == old(self).latches@
                &&& final(self).latches@.last().id == pid
                &&& final(self).latches@.last().is_free()
                &&& make.ensures((), final(self).latches@.last().value)
            },
    {
        if let Some(at) = self.dir.get(&pid) {
            let r: LatchRef = LatchRef { at: *at };
            assert(self.dir@ =~= self.dir@.insert(pid, r.at));
            return r;
        }
        let at: usize = self.latches.len();
        self.latches.push(PageLatch::new(pid, make()));
        self.dir.insert(pid, at);
        self.installs = self.installs + 1;
        assert(self.latches@.drop_last() =~= old(self).latches@);
        LatchRef { at }
    }

    /// The latch for `pid` if resident, without installing.
    pub fn get(&self, pid: PageId) -> (r: Option<LatchRef>)
        ensures
            match r {
                Some(l) => self.dir@.dom().contains(pid) && l.at == self.dir@[pid],
                None => !self.dir@.dom().contains(pid),
            },
    {
        match self.dir.get(&pid) {
            Some(at) => Some(LatchRef { at: *at }),
            None => None,
        }
    }

    /// Drop `pid` from the directory. Whoever still holds the returned latch may
    /// go on using it.
    pub fn remove(&mut self, pid: PageId) -> (r: Option<LatchRef>)
        requires
            old(self).wf(),
        ensures
            final(self).wf(),
            final(self).dir@ == old(self).dir@.remove(pid),
            final(self).latches == old(self).latches,
            final(self).installs == old(self).installs,
            match r {
                Some(l) => old(self).dir@.dom().contains(pid) && l.at == old(self).dir@[pid],
                None => !old(self).dir@.dom().contains(pid),
            },
    {
        match self.dir.remove(&pid) {
            Some(at) => Some(LatchRef { at }),
            None => {
                assert(self.dir@ =~= old(self).dir@.remove(pid));
                None
            },
        }
    }

    /// The latch that `r` names.
    pub fn latch(&self, r: LatchRef) -> (l: &PageLatch<T>)
        requires
            r.at < self.latches@.len(),
        ensures
            *l == self.latches@[r.at as int],
    {
        &self.latches[r.at]
    }

    /// The latch that `r` names, to acquire or release it.
    pub fn latch_mut(&mut self, r: LatchRef) -> (l: &mut PageLatch<T>)
        requires
            r.at < old(self).latches@.len(),
        ensures
            *l == old(self).latches@[r.at as int],
            final(self).latches@ == old(self).latches@.update(r.at as int, *final(l)),
            final(self).dir == old(self).dir,
            final(self).installs == old(self).installs,
    {
        &mut self.latches[r.at]
    }

    /// How many latches have ever been installed: the double-install detector.
    pub fn installs(&self) -> (n: u64)
        ensures
            n == self.installs,
    {
        self.installs
    }

    /// Current resident latch count.
    pub fn len(&self) -> (n: usize)
        ensures
            n == self.dir@.len(),
    {
        self.dir.len()
    }

    pub fn is_empty(&self) -> (r: bool)
        ensures
            r == (self.dir@.len() == 0),
    {
        self.len() == 0
    }
}

/// How far an ordered acquisition of two latches got.
pub enum TwoWrites {
    /// Both are held, positionally.
    Both(WriteGuard, WriteGuard),
    /// The latch with the lower id is held by another: nothing was acquired.
    FirstBusy,
    /// The latch with the lower id was acquired, the other is held by another.
    SecondBusy(WriteGuard),
}

/// Acquire two distinct latches for writing in a globally consistent order
/// (lower page id first), returning the guards positionally as `(for a, for b)`.
///
/// Because every caller acquires in id order regardless of argument order, two
/// that want the same pair from opposite sides request the same underlying latch
/// first, so no wait-for cycle can form.
pub fn write_two_ordered<T>(a: &mut PageLatch<T>, b: &mut PageLatch<T>) -> (r: TwoWrites)
    requires
        old(a).wf(),
        old(b).wf(),
        old(a).id != old(b).id,
    ensures
        final(a).wf(),
        final(b).wf(),
        ({
            let a_first = old(a).id < old(b).id;
            let first_free = if a_first {
                old(a).is_free()
            } else {
                old(b).is_free()
            };
            match r {
                TwoWrites::Both(ga, gb) => {
                    &&& old(a).is_free() && old(b).is_free()
                    &&& ga.id == old(a).id && gb.id == old(b).id
                    &&& *final(a) == (PageLatch { writer: true, ..*old(a) })
                    &&& *final(b) == (PageLatch { writer: true, ..*old(b) })
                },
                TwoWrites::FirstBusy => {
                    &&& !first_free
                    &&& *final(a) == *old(a) && *final(b) == *old(b)
                },
                TwoWrites::SecondBusy(g) => {
                    &&& first_free && !(old(a).is_free() && old(b).is_free())
                    &&& a_first ==> g.id == old(a).id && *final(b) == *old(b) && *final(a) == (
                    PageLatch { writer: true, ..*old(a) })
                    &&& !a_first ==> g.id == old(b).id && *final(a) == *old(a) && *final(b) == (
                    PageLatch { writer: true, ..*old(b) })
                },
            }
        }),
{
    if a.id < b.id {
        match a.write() {
            None => TwoWrites::FirstBusy,
            Some(ga) => match b.write() {
                None => TwoWrites::SecondBusy(ga),
                Some(gb) => TwoWrites::Both(ga, gb),
            },
        }
    } else {
        match b.write() {
            None => TwoWrites::FirstBusy,
            Some(gb) => match a.write() {
                None => TwoWrites::SecondBusy(gb),
                Some(ga) => TwoWrites::Both(ga, gb),
            },
        }
    }
}

/// Latching in id order never deadlocks: where each of a ring of parties holds a
/// latch and wants one with a higher id, somebody wants a latch that the next in
/// the ring does not hold.
pub proof fn law_ordered_latching_has_no_cycle(held: Seq<PageId>, wanted: Seq<PageId>)
    requires
        held.len() > 0,
        held.len() == wanted.len(),
        forall|i: int| 0 <= i < held.len() ==> #[trigger] held[i] < wanted[i],
    ensures
        exists|i: int|
            0 <= i < held.len() && #[trigger] wanted[i] != held[if i + 1 < held.len() {
                i + 1
            } else {
                0
            }],
{
    let n = held.len() as int;
    if forall|i: int|
        0 <= i < n ==> #[trigger] wanted[i] == held[if i + 1 < n {
            i + 1
        } else {
            0
        }] {
        lemma_chain_grows(held, wanted, n - 1);
        assert(wanted[n - 1] == held[0]);
    }
}

proof fn lemma_chain_grows(held: Seq<PageId>, wanted: Seq<PageId>, k: int)
    requires
        0 <= k < held.len(),
        held.len() == wanted.len(),
        forall|i: int| 0 <= i < held.len() ==> #[trigger] held[i] < wanted[i],
        forall|i: int| 0 <= i < held.len() - 1 ==> #[trigger] wanted[i] == held[i + 1],
    ensures
        held[0] < wanted[k],
    decreases k,
{
    if k > 0 {
        lemma_chain_grows(held, wanted, k - 1);
        assert(wanted[k - 1] == held[k]);
        assert(held[k] < wanted[k]);
    }
}

/// A buffer frame's pin discipline: a page latch with a pin count and an
/// `evicted` tombstone, kept consistent with each other.
///
/// * a frame is never evicted while pinned (`try_evict` fails if `pins > 0`), and
/// * a frame is never pinned after its eviction has begun (`pin` returns `None`
///   once `evicted`).
///
/// Pins gate residency, latches gate access.
pub struct Frame<T> {
    pub latch: PageLatch<T>,
    pub pins: u32,
    pub evicted: bool,
}

/// Proof that a frame is pinned: until it is given to [`Frame::unpin`], the frame
/// cannot be evicted.
pub struct PinGuard {
    pub id: PageId,
}

impl<T> Frame<T> {
    /// Never pinned and evicted at once.
    pub open spec fn wf(&self) -> bool {
        &&& self.latch.wf()
        &&& self.evicted ==> self.pins == 0
    }

    /// A fresh, unpinned, resident frame holding `value` for page `id`.
    pub fn new(id: PageId, value: T) -> (f: Frame<T>)
        ensures
            f.wf(),
            f.latch == (PageLatch { id, value, readers: 0, writer: false }),
            f.pins == 0,
            !f.evicted,
    {
        Frame { latch: PageLatch::new(id, value), pins: 0, evicted: false }
    }

    /// The page this frame currently holds.
    pub fn id(&self) -> (id: PageId)
        ensures
            id == self.latch.id,
    {
        self.latch.id()
    }

    /// Pin the frame so it cannot be evicted until the guard is given back.
    /// Returns `None` if eviction has already begun: the caller must look the page
    /// up again rather than touch a frame that is being replaced.
    pub fn pin(&mut self) -> (g: Option<PinGuard>)
        requires
            old(self).wf(),
            old(self).pins < u32::MAX,
        ensures
            final(self).wf(),
            g is Some <==> !old(self).evicted,
            g matches Some(p) ==> p.id == old(self).latch.id,
            final(self).latch == old(self).latch,
            final(self).evicted == old(self).evicted,
            final(self).pins == old(self).pins + if old(self).evicted {
                0int
            } else {
                1
            },
    {
        if self.evicted {
            return None;
        }
        self.pins = self.pins + 1;
        Some(PinGuard { id: self.latch.id })
    }

    /// Give a pin back.
    pub fn unpin(&mut self, g: PinGuard)
        requires
            old(self).wf(),
            g.id == old(self).latch.id,
            old(self).pins > 0,
        ensures
            final(self).wf(),
            final(self).latch == old(self).latch,
            final(self).evicted == old(self).evicted,
            final(self).pins == old(self).pins - 1,
    {
        self.pins = self.pins - 1;
    }

    /// Attempt to evict: succeeds only if the frame is unpinned and not already
    /// evicted, in which case it is tombstoned so no further pins are granted.
    /// Returns whether this call performed the eviction.
    pub fn try_evict(&mut self) -> (r: bool)
        requires
            old(self).wf(),
        ensures
            final(self).wf(),
            r == (old(self).pins == 0 && !old(self).evicted),
            final(self).latch == old(self).latch,
            final(self).pins == old(self).pins,
            final(self).evicted == (old(self).evicted || r),
    {
        if self.pins == 0 && !self.evicted {
            self.evicted = true;
            true
        } else {
            false
        }
    }

    /// Whether eviction has begun on this frame.
    pub fn is_evicted(&self) -> (r: bool)
        ensures
            r == self.evicted,
    {
        self.evicted
    }

    /// The current pin count.
    pub fn pin_count(&self) -> (n: u32)
        ensures
            n == self.pins,
    {
        self.pins
    }
}

impl PinGuard {
    /// The pinned frame's content latch: take a read or write latch through it.
    pub fn latch<'a, T>(&self, frame: &'a mut Frame<T>) -> (l: &'a mut PageLatch<T>)
        requires
            old(frame).latch.id == self.id,
            old(frame).pins > 0,
        ensures
            *l == old(frame).latch,
            *final(frame) == (Frame { latch: *final(l), ..*old(frame) }),
    {
        &mut frame.latch
    }

    /// The pinned frame's page id.
    pub fn id(&self) -> (id: PageId)
        ensures
            id == self.id,
    {
        self.id
    }
}

/// One frame of a [`ClockPool`].
pub struct Slot<T> {
    pub pid: Option<PageId>,
    pub pins: u32,
    pub ref_bit: bool,
    pub val: Option<T>,
}

impl<T> Slot<T> {
    fn empty() -> (s: Slot<T>)
        ensures
            s == (Slot { pid: None, pins: 0, ref_bit: false, val: None::<T> }),
    {
        Slot { pid: None, pins: 0, ref_bit: false, val: None }
    }
}

/// Which frames are unpinned.
pub open spec fn unpinned<T>(frames: Seq<Slot<T>>) -> Seq<bool> {
    Seq::new(frames.len(), |h: int| frames[h].pins == 0)
}

/// Which frames have a second chance.
pub open spec fn ref_bits<T>(frames: Seq<Slot<T>>) -> Seq<bool> {
    Seq::new(frames.len(), |h: int| frames[h].ref_bit)
}

/// The frames with the given second chances.
pub open spec fn with_refs<T>(frames: Seq<Slot<T>>, refs: Seq<bool>) -> Seq<Slot<T>> {
    Seq::new(frames.len(), |h: int| Slot { ref_bit: refs[h], ..frames[h] })
}

/// The frames after CLOCK settled on frame `h`: unpinned ones that the hand passed lost
/// their second chance.
pub open spec fn swept_to<T>(frames: Seq<Slot<T>>, hand: int, h: int) -> Seq<Slot<T>> {
    with_refs(frames, spent_to(unpinned(frames), ref_bits(frames), hand, h))
}

/// CLOCK takes frame `h`: the first unpinned one that the hand reaches without a second
/// chance, or, where there is none, the first unpinned one.
pub open spec fn clock_takes<T>(frames: Seq<Slot<T>>, hand: int, h: int) -> bool {
    takes(unpinned(frames), ref_bits(frames), hand, h)
}

/// The number of frames that hold a page.
pub open spec fn occupied<T>(frames: Seq<Slot<T>>) -> nat
    decreases frames.len(),
{
    if frames.len() == 0 {
        0
    } else {
        occupied(frames.drop_last()) + if frames.last().pid is Some {
            1nat
        } else {
            0
        }
    }
}

proof fn lemma_occupied_bound<T>(frames: Seq<Slot<T>>)
    ensures
        occupied(frames) <= frames.len(),
    decreases frames.len(),
{
    if frames.len() > 0 {
        lemma_occupied_bound(frames.drop_last());
    }
}

proof fn lemma_none_occupied<T>(frames: Seq<Slot<T>>)
    requires
        forall|i: int| 0 <= i < frames.len() ==> (#[trigger] frames[i]).pid is None,
    ensures
        occupied(frames) == 0,
    decreases frames.len(),
{
    if frames.len() > 0 {
        lemma_none_occupied(frames.drop_last());
    }
}

/// Filling or refilling frame `h`, where the others hold what they held.
proof fn lemma_occupied_by<T>(a: Seq<Slot<T>>, b: Seq<Slot<T>>, h: int)
    requires
        a.len() == b.len(),
        0 <= h < a.len(),
        b[h].pid is Some,
        forall|i: int| 0 <= i < a.len() && i != h ==> (#[trigger] a[i]).pid is Some == b[i].pid is Some,
    ensures
        occupied(b) == occupied(a) + if a[h].pid is Some {
            0nat
        } else {
            1
        },
    decreases a.len(),
{
    if h < a.len() - 1 {
        assert(a.last() == a[a.len() - 1]);
        lemma_occupied_by(a.drop_last(), b.drop_last(), h);
    } else {
        lemma_occupied_alike(a.drop_last(), b.drop_last());
    }
}

proof fn lemma_occupied_alike<T>(a: Seq<Slot<T>>, b: Seq<Slot<T>>)
    requires
        a.len() == b.len(),
        forall|i: int| 0 <= i < a.len() ==> (#[trigger] a[i]).pid is Some == b[i].pid is Some,
    ensures
        occupied(b) == occupied(a),
    decreases a.len(),
{
    if a.len() > 0 {
        assert(a.last() == a[a.len() - 1]);
        lemma_occupied_alike(a.drop_last(), b.drop_last());
    }
}

/// A fixed-capacity page cache with CLOCK replacement.
///
/// Choosing a victim and taking it are one step: a frame cannot be pinned between
/// being selected as a victim and being replaced, and a pinned frame is never a
/// candidate.
pub struct ClockPool<T> {
    pub dir: HashMap<PageId, usize>,
    pub frames: Vec<Slot<T>>,
    pub hand: usize,
    pub hits: u64,
    pub loads: u64,
    pub evictions: u64,
}

/// A pinned handle into a [`ClockPool`] frame. Until it is given to
/// [`ClockPool::release`] the frame cannot be evicted, so the page it names stays
/// resident.
pub struct Pinned {
    pub idx: usize,
    pub pid: PageId,
}

/// The pins of all frames.
pub open spec fn total_pins<T>(frames: Seq<Slot<T>>) -> nat
    decreases frames.len(),
{
    if frames.len() == 0 {
        0
    } else {
        total_pins(frames.drop_last()) + frames.last().pins as nat
    }
}

impl<T> ClockPool<T> {
    /// Directory and frames agree, a pinned frame holds a page, and as many frames hold one
    /// as loads were not undone by evictions.
    pub open spec fn wf(&self) -> bool {
        &&& self.loads.wrapping_sub(self.evictions) == occupied(self.frames@)
        &&& 0 < self.frames@.len()
        &&& self.hand < self.frames@.len()
        &&& forall|p: PageId| #[trigger]
            self.dir@.dom().contains(p) ==> self.dir@[p] < self.frames@.len()
                && self.frames@[self.dir@[p] as int].pid == Some(p)
        &&& forall|i: int|
            0 <= i < self.frames@.len() ==> {
                &&& (#[trigger] self.frames@[i]).pid is Some <==> self.frames@[i].val is Some
                &&& self.frames@[i].pins > 0 ==> self.frames@[i].pid is Some
                &&& self.frames@[i].pid matches Some(p) ==> self.dir@.dom().contains(p)
                    && self.dir@[p] == i
            }
    }

    /// `g` names a pinned frame that holds its page.
    pub open spec fn holds(&self, g: &Pinned) -> bool {
        &&& g.idx < self.frames@.len()
        &&& self.frames@[g.idx as int].pid == Some(g.pid)
        &&& self.frames@[g.idx as int].pins > 0
    }

    /// A pool of `cap` frames, all initially empty.
    pub fn new(cap: usize) -> (p: ClockPool<T>)
        requires
            cap > 0,
        ensures
            p.wf(),
            p.dir@ == Map::<PageId, usize>::empty(),
            p.frames@ == Seq::new(
                cap as nat,
                |i: int| Slot { pid: None, pins: 0, ref_bit: false, val: None::<T> },
            ),
            p.hand == 0,
            p.hits == 0,
            p.loads == 0,
            p.evictions == 0,
    {
        let mut frames: Vec<Slot<T>> = Vec::new();
        let mut i: usize = 0;
        while i < cap
            invariant
                i <= cap,
                frames@ == Seq::new(
                    i as nat,
                    |j: int| Slot { pid: None, pins: 0, ref_bit: false, val: None::<T> },
                ),
            decreases cap - i,
        {
            frames.push(Slot::empty());
            assert(frames@ =~= Seq::new(
                (i + 1) as nat,
                |j: int| Slot { pid: None, pins: 0, ref_bit: false, val: None::<T> },
            ));
            i = i + 1;
        }
        proof {
            lemma_none_occupied(frames@);
        }
        ClockPool { dir: HashMap::new(), frames, hand: 0, hits: 0, loads: 0, evictions: 0 }
    }

    /// CLOCK: advance the hand past pinned frames, clearing ref-bits for a second
    /// chance, until an unpinned frame is found. `None` iff all frames are pinned.
    fn choose_victim(&mut self) -> (r: Option<usize>)
        requires
            old(self).wf(),
        ensures
            final(self).wf(),
            final(self).dir == old(self).dir,
            final(self).hits == old(self).hits,
            final(self).loads == old(self).loads,
            final(self).evictions == old(self).evictions,
            final(self).frames@.len() == old(self).frames@.len(),
            victim_chosen(
                old(self).frames@,
                old(self).hand as int,
                final(self).frames@,
                final(self).hand as int,
                r,
            ),
    {
        let ghost f0 = self.frames@;
        let n: usize = self.frames.len();
        let mut open: Vec<bool> = Vec::new();
        let mut refs: Vec<bool> = Vec::new();
        let mut i: usize = 0;
        while i < n
            invariant
                i <= n == f0.len(),
                self.frames@ == f0,
                open@ == unpinned(f0).take(i as int),
                refs@ == ref_bits(f0).take(i as int),
            decreases n - i,
        {
            open.push(self.frames[i].pins == 0);
            refs.push(self.frames[i].ref_bit);
            i = i + 1;
            assert(open@ =~= unpinned(f0).take(i as int));
            assert(refs@ =~= ref_bits(f0).take(i as int));
        }
        assert(open@ =~= unpinned(f0));
        assert(refs@ =~= ref_bits(f0));
        match pick(&open, &mut refs, self.hand) {
            None => {
                self.hand = step(self.hand, n);
                assert forall|k: int| 0 <= k < n implies (#[trigger] f0[k]).pins > 0 by {
                    assert(!open@[k]);
                }
                None
            },
            Some(h) => {
                i = 0;
                while i < n
                    invariant
                        i <= n == f0.len(),
                        refs@.len() == n,
                        self.frames@.len() == n,
                        self.dir == old(self).dir,
                        self.hand == old(self).hand,
                        self.hits == old(self).hits,
                        self.loads == old(self).loads,
                        self.evictions == old(self).evictions,
                        forall|k: int|
                            0 <= k < i ==> (#[trigger] self.frames@[k]) == with_refs(f0, refs@)[k],
                        forall|k: int| i <= k < n ==> (#[trigger] self.frames@[k]) == f0[k],
                    decreases n - i,
                {
                    self.frames[i].ref_bit = refs[i];
                    i = i + 1;
                }
                self.hand = step(h, n);
                proof {
                    assert(self.frames@ =~= swept_to(f0, old(self).hand as int, h as int));
                    lemma_occupied_alike(f0, self.frames@);
                }
                Some(h)
            },
        }
    }

    /// Pin the frame holding `pid`, loading it (over a CLOCK-chosen unpinned
    /// victim) if not resident. Returns `None` only when every frame is pinned:
    /// the honest "pool exhausted" signal, never a silent stall.
    pub fn acquire<F: FnOnce() -> T>(&mut self, pid: PageId, make: F) -> (r: Option<Pinned>)
        requires
            old(self).wf(),
            !old(self).dir@.dom().contains(pid) && (exists|k: int|
                0 <= k < old(self).frames@.len() && (#[trigger] old(self).frames@[k]).pins == 0)
                ==> make.requires(()),
            old(self).dir@.dom().contains(pid) ==> old(self).frames@[old(self).dir@[pid] as int].pins < u32::MAX,
        ensures
            final(self).wf(),
            final(self).frames@.len() == old(self).frames@.len(),
            r is None <==> !old(self).dir@.dom().contains(pid) && forall|k: int|
                0 <= k < old(self).frames@.len() ==> (#[trigger] old(self).frames@[k]).pins > 0,
            r matches Some(g) ==> g.pid == pid && final(self).holds(&g),
            old(self).dir@.dom().contains(pid) ==> {
                let at = old(self).dir@[pid] as int;
                let f = old(self).frames@[at];
                &&& r matches Some(g) && g.idx == at
                &&& final(self).frames@ == old(self).frames@.update(
                    at,
                    Slot { pins: (f.pins + 1) as u32, ref_bit: true, ..f },
                )
                &&& final(self).dir == old(self).dir
                &&& final(self).hand == old(self).hand
                &&& final(self).hits == old(self).hits.wrapping_add(1)
                &&& final(self).loads == old(self).loads
                &&& final(self).evictions == old(self).evictions
            },
            !old(self).dir@.dom().contains(pid) ==> {
                &&& final(self).hits == old(self).hits
                &&& match r {
                    None => {
                        &&& final(self).frames@ == old(self).frames@
                        &&& final(self).dir == old(self).dir
                        &&& final(self).hand == reached(
                            old(self).hand as int,
                            1,
                            old(self).frames@.len() as int,
                        )
                        &&& final(self).loads == old(self).loads
                        &&& final(self).evictions == old(self).evictions
                    },
                    Some(g) => {
                        let at = g.idx as int;
                        let evicted = old(self).frames@[at].pid;
                        &&& clock_takes(old(self).frames@, old(self).hand as int, at)
                        &&& final(self).hand == reached(
                            at,
                            1,
                            old(self).frames@.len() as int,
                        )
                        &&& final(self).frames@[at].pins == 1
                        &&& final(self).frames@[at].ref_bit
                        &&& final(self).frames@[at].val matches Some(v) && make.ensures((), v)
                        &&& forall|k: int|
                            0 <= k < old(self).frames@.len() && k != at ==> (
                            #[trigger] final(self).frames@[k]) == swept_to(
                                old(self).frames@,
                                old(self).hand as int,
                                at,
                            )[k]
                        &&& final(self).dir@ == (match evicted {
                            Some(p) => old(self).dir@.remove(p),
                            None => old(self).dir@,
                        }).insert(pid, g.idx)
                        &&& final(self).loads == old(self).loads.wrapping_add(1)
                        &&& final(self).evictions == if evicted is Some {
                            old(self).evictions.wrapping_add(1)
                        } else {
                            old(self).evictions
                        }
                    },
                }
            },
    {
        let found: Option<usize> = match self.dir.get(&pid) {
            Some(at) => Some(*at),
            None => None,
        };
        if let Some(idx) = found {
            self.frames[idx].pins = self.frames[idx].pins + 1;
            self.frames[idx].ref_bit = true;
            proof {
                lemma_occupied_alike(old(self).frames@, self.frames@);
            }
            self.hits = self.hits.wrapping_add(1);
            return Some(Pinned { idx, pid });
        }
        let victim: usize = match self.choose_victim() {
            Some(v) => v,
            None => {
                return None;
            },
        };
        assert(old(self).frames@[victim as int].pins == 0);
        let ghost settled = self.frames@;
        let gone: Option<PageId> = self.frames[victim].pid;
        if let Some(was) = gone {
            self.dir.remove(&was);
            self.evictions = self.evictions.wrapping_add(1);
        }
        let val: T = make();
        self.frames[victim] = Slot { pid: Some(pid), pins: 1, ref_bit: true, val: Some(val) };
        self.dir.insert(pid, victim);
        self.loads = self.loads.wrapping_add(1);
        proof {
            lemma_occupied_by(settled, self.frames@, victim as int);
            lemma_occupied_bound(self.frames@);
            lemma_occupied_alike(old(self).frames@, settled);
            assert(self.frames@.len() == self.frames.len());
        }
        Some(Pinned { idx: victim, pid })
    }

    /// Give a pin back.
    pub fn release(&mut self, g: Pinned)
        requires
            old(self).wf(),
            old(self).holds(&g),
        ensures
            final(self).wf(),
            final(self).frames@ == old(self).frames@.update(
                g.idx as int,
                Slot {
                    pins: (old(self).frames@[g.idx as int].pins - 1) as u32,
                    ..old(self).frames@[g.idx as int]
                },
            ),
            final(self).dir == old(self).dir,
            final(self).hand == old(self).hand,
            final(self).hits == old(self).hits,
            final(self).loads == old(self).loads,
            final(self).evictions == old(self).evictions,
    {
        self.frames[g.idx].pins = self.frames[g.idx].pins - 1;
        proof {
            lemma_occupied_alike(old(self).frames@, self.frames@);
        }
    }

    pub fn hits(&self) -> (n: u64)
        ensures
            n == self.hits,
    {
        self.hits
    }

    pub fn loads(&self) -> (n: u64)
        ensures
            n == self.loads,
    {
        self.loads
    }

    pub fn evictions(&self) -> (n: u64)
        ensures
            n == self.evictions,
    {
        self.evictions
    }

    /// Total pins currently held across all frames.
    pub fn live_pins(&self) -> (n: u32)
        requires
            total_pins(self.frames@) <= u32::MAX,
        ensures
            n == total_pins(self.frames@),
    {
        let mut sum: u32 = 0;
        let mut i: usize = 0;
        let n: usize = self.frames.len();
        assert(self.frames@.take(n as int) =~= self.frames@);
        while i < n
            invariant
                i <= n == self.frames@.len(),
                total_pins(self.frames@) <= u32::MAX,
                self.frames@.take(n as int) == self.frames@,
                sum == total_pins(self.frames@.take(i as int)),
            decreases n - i,
        {
            proof {
                assert(self.frames@.take(i + 1).drop_last() =~= self.frames@.take(i as int));
                lemma_pins_prefix(self.frames@, i + 1, n as int);
            }
            sum = sum + self.frames[i].pins;
            i = i + 1;
        }
        sum
    }
}

/// The outcome of choosing a victim: which frame, how far the hand went, and whose
/// second chance is spent.
pub open spec fn victim_chosen<T>(
    before: Seq<Slot<T>>,
    hand: int,
    after: Seq<Slot<T>>,
    new_hand: int,
    r: Option<usize>,
) -> bool {
    let n = before.len() as int;
    match r {
        None => {
            &&& forall|k: int| 0 <= k < n ==> (#[trigger] before[k]).pins > 0
            &&& after == before
            &&& new_hand == reached(hand, 1, n)
        },
        Some(h) => {
            &&& h < n
            &&& clock_takes(before, hand, h as int)
            &&& new_hand == reached(h as int, 1, n)
            &&& after == swept_to(before, hand, h as int)
        },
    }
}

proof fn lemma_pins_prefix<T>(frames: Seq<Slot<T>>, i: int, n: int)
    requires
        0 <= i <= n <= frames.len(),
    ensures
        total_pins(frames.take(i)) <= total_pins(frames.take(n)),
    decreases n,
{
    if i < n {
        lemma_pins_prefix(frames, i, n - 1);
        assert(frames.take(n).drop_last() =~= frames.take(n - 1));
    }
}

impl Pinned {
    /// The page id this handle pins.
    pub fn pid(&self) -> (p: PageId)
        ensures
            p == self.pid,
    {
        self.pid
    }

    /// The pinned page's value. The frame can't be evicted while this handle
    /// lives, so the value is always the one for `pid`.
    pub fn value<'a, T>(&self, pool: &'a ClockPool<T>) -> (v: &'a T)
        requires
            pool.wf(),
            pool.holds(self),
        ensures
            pool.frames@[self.idx as int].val == Some(*v),
    {
        pool.frames[self.idx].val.as_ref().unwrap()
    }
}

/// A pinned page is never evicted: whatever page is acquired, a handle that held
/// its page before holds it after, with the same value.
pub proof fn law_pinned_pages_stay<T>(
    before: Seq<Slot<T>>,
    hand: int,
    victim: int,
    pinned: int,
)
    requires
        0 <= hand < before.len(),
        0 <= pinned < before.len(),
        before[pinned].pins > 0,
        clock_takes(before, hand, victim),
    ensures
        victim != pinned,
        swept_to(before, hand, victim)[pinned] == before[pinned],
{
}

/// Until the counters wrap round, the pages loaded and not evicted are as many as the frames
/// that hold one, so they never outnumber the frames.
pub proof fn law_loads_minus_evictions<T>(pool: &ClockPool<T>)
    requires
        pool.wf(),
        pool.evictions <= pool.loads,
    ensures
        pool.loads - pool.evictions == occupied(pool.frames@),
        pool.loads - pool.evictions <= pool.frames@.len(),
{
    lemma_occupied_bound(pool.frames@);
}

/// A frame is chosen only if nobody has it pinned, and none is chosen only if all are pinned.
/// Choosing one changes nothing but second chances, and the hand goes on behind it.
pub proof fn law_victims_are_unpinned<T>(
    before: Seq<Slot<T>>,
    hand: int,
    after: Seq<Slot<T>>,
    new_hand: int,
    r: Option<usize>,
)
    requires
        0 <= hand < before.len(),
        victim_chosen(before, hand, after, new_hand, r),
    ensures
        r matches Some(h) ==> h < before.len() && before[h as int].pins == 0 && new_hand == (h + 1)
            % before.len() as int,
        r is None ==> forall|k: int| 0 <= k < before.len() ==> (#[trigger] before[k]).pins > 0,
        after.len() == before.len(),
        forall|k: int|
            0 <= k < before.len() ==> (#[trigger] after[k]).pid == before[k].pid && after[k].pins
                == before[k].pins && after[k].val == before[k].val,
        forall|k: int|
            0 <= k < before.len() && (#[trigger] after[k]).ref_bit ==> before[k].ref_bit,
{
    let n = before.len() as int;
    if let Some(h) = r {
        law_clock_takes_the_nearest(unpinned(before), ref_bits(before), hand, h as int);
        assert(unpinned(before)[h as int]);
        if h + 1 < n {
            assert((h + 1) % n == h + 1) by (nonlinear_arith)
                requires
                    0 <= h + 1 < n,
            ;
        } else {
            assert((h + 1) % n == 0) by (nonlinear_arith)
                requires
                    h + 1 == n,
                    n > 0,
            ;
        }
    }
}

} // verus!
