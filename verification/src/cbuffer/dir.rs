//! The directory of a concurrent page cache.
//!
//! Page I/O happens while the directory is not held, so a miss is split into
//! **reserve, I/O, publish**. Between reserve and publish a frame is busy, and both
//! the page that it held and the page that is coming resolve to it: whoever asks
//! for either waits, rather than load a second copy or read stale bytes.

use std::collections::HashMap;

use vstd::prelude::*;

use crate::buffer::PageId;
use crate::clock;

verus! {

broadcast use vstd::std_specs::hash::group_hash_axioms;

/// What the directory knows of one frame.
#[derive(Clone, Copy, Debug, PartialEq, Eq, Structural)]
pub struct Slot {
    pub pid: Option<PageId>,
    pub pins: u32,
    pub ref_bit: bool,
    pub dirty: bool,
    /// The page that is being brought in: the frame is busy.
    pub incoming: Option<PageId>,
}

/// An empty frame.
pub open spec fn empty_slot() -> Slot {
    Slot { pid: None, pins: 0, ref_bit: false, dirty: false, incoming: None }
}

/// What a fetch does next.
#[derive(Clone, Copy, Debug, PartialEq, Eq, Structural)]
pub enum Step {
    /// The page is in this frame, now pinned once more.
    Hit(usize),
    /// The page is in transition: wait, then ask again.
    Wait,
    /// Every frame is pinned or busy.
    Exhausted,
    /// This frame is reserved for the page. Flush what it held if that is dirty,
    /// fill it, then publish or abort.
    Reserved { victim: usize, old: Option<PageId>, old_dirty: bool },
}

/// How to undo a failed reservation.
#[derive(Clone, Copy, Debug, PartialEq, Eq, Structural)]
pub enum Abort {
    /// The flush failed: keep the old page resident and dirty so it is retried.
    KeepOldDirty,
    /// The read failed: the buffer may be half-written, so empty the frame.
    Discard,
}

/// What flushing a frame does next.
#[derive(Clone, Copy, Debug, PartialEq, Eq, Structural)]
pub enum FlushStep {
    /// The frame is in transition: wait, then ask again.
    Wait,
    /// The frame no longer holds the page, or the page is clean.
    Skip,
    /// Write the frame's bytes.
    Write,
}

/// Which page is where.
pub struct Dir {
    pub map: HashMap<PageId, usize>,
    pub frames: Vec<Slot>,
    pub hand: usize,
    pub next_page: PageId,
    pub steal: bool,
}

/// Which frames may be taken.
pub open spec fn open_slots(frames: Seq<Slot>, steal: bool) -> Seq<bool> {
    frames.map_values(|s: Slot| s.pins == 0 && s.incoming is None && (steal || !s.dirty))
}

pub open spec fn slot_refs(frames: Seq<Slot>) -> Seq<bool> {
    frames.map_values(|s: Slot| s.ref_bit)
}

/// The slots with these reference bits.
pub open spec fn with_refs(frames: Seq<Slot>, refs: Seq<bool>) -> Seq<Slot> {
    Seq::new(frames.len(), |i: int| Slot { ref_bit: refs[i], ..frames[i] })
}

impl Dir {
    /// Frame `i` and the map agree.
    pub open spec fn slot_ok(&self, i: int) -> bool {
        let s = self.frames@[i];
        &&& s.pid matches Some(p) ==> {
            &&& self.map@.dom().contains(p)
            &&& self.map@[p] == i
            &&& p < self.next_page
        }
        &&& s.incoming matches Some(q) ==> {
            &&& self.map@.dom().contains(q)
            &&& self.map@[q] == i
            &&& s.pid != Some(q)
            &&& s.pins == 1
        }
        &&& s.pid is None && s.incoming is None ==> s.pins == 0
        &&& s.pid is None ==> !s.dirty
    }

    /// Every page that the map knows is in its frame or on its way there, and every
    /// frame's pages are in the map. So no page is in two frames.
    pub open spec fn wf(&self) -> bool {
        &&& 0 < self.frames@.len()
        &&& self.hand < self.frames@.len()
        &&& forall|p: PageId| #[trigger]
            self.map@.dom().contains(p) ==> self.map@[p] < self.frames@.len() && (
            self.frames@[self.map@[p] as int].pid == Some(p)
                || self.frames@[self.map@[p] as int].incoming == Some(p))
        &&& forall|i: int| 0 <= i < self.frames@.len() ==> #[trigger] self.slot_ok(i)
    }

    /// No frame is busy.
    pub open spec fn quiet(&self) -> bool {
        forall|i: int| 0 <= i < self.frames@.len() ==> (#[trigger] self.frames@[i]).incoming is None
    }

    /// Some frame may be taken.
    pub open spec fn has_victim(&self) -> bool {
        exists|i: int|
            0 <= i < self.frames@.len() && #[trigger] open_slots(self.frames@, self.steal)[i]
    }

    /// CLOCK takes frame `h`, and this is left of the reference bits.
    pub open spec fn chosen(&self, h: int) -> bool {
        &&& 0 <= h < self.frames@.len()
        &&& open_slots(self.frames@, self.steal)[h]
        &&& clock::takes(
            open_slots(self.frames@, self.steal),
            slot_refs(self.frames@),
            self.hand as int,
            h,
        )
    }

    /// The frames after CLOCK settled on `h`.
    pub open spec fn after_choice(&self, h: int) -> Seq<Slot> {
        with_refs(
            self.frames@,
            clock::spent_to(
                open_slots(self.frames@, self.steal),
                slot_refs(self.frames@),
                self.hand as int,
                h,
            ),
        )
    }

    /// A directory of `cap` empty frames.
    pub fn new(cap: usize, next_page: PageId) -> (d: Dir)
        requires
            cap > 0,
        ensures
            d.wf(),
            d.quiet(),
            d.frames@ == Seq::new(cap as nat, |i: int| empty_slot()),
            d.map@ == Map::<PageId, usize>::empty(),
            d.hand == 0,
            d.next_page == next_page,
            d.steal,
    {
        let mut frames: Vec<Slot> = Vec::with_capacity(cap);
        let mut i: usize = 0;
        while i < cap
            invariant
                i <= cap,
                frames@.len() == i,
                forall|j: int| 0 <= j < i ==> #[trigger] frames@[j] == empty_slot(),
            decreases cap - i,
        {
            frames.push(Slot { pid: None, pins: 0, ref_bit: false, dirty: false, incoming: None });
            i = i + 1;
        }
        assert(frames@ =~= Seq::new(cap as nat, |i: int| empty_slot()));
        let d = Dir { map: HashMap::new(), frames, hand: 0, next_page, steal: true };
        assert forall|i: int| 0 <= i < d.frames@.len() implies #[trigger] d.slot_ok(i) by {
            assert(d.frames@[i] == empty_slot());
        }
        d
    }

    /// CLOCK: advance past pinned and busy frames, clearing reference bits for a
    /// second chance, until a reusable frame is found.
    pub fn choose_victim(&mut self) -> (r: Option<usize>)
        requires
            old(self).wf(),
        ensures
            final(self).wf(),
            *final(self) == (Dir {
                frames: final(self).frames,
                hand: final(self).hand,
                ..*old(self)
            }),
            match r {
                Some(h) => {
                    &&& old(self).chosen(h as int)
                    &&& final(self).frames@ == old(self).after_choice(h as int)
                    &&& final(self).hand == clock::reached(
                        h as int,
                        1,
                        old(self).frames@.len() as int,
                    )
                },
                None => {
                    &&& !old(self).has_victim()
                    &&& final(self).frames@ == old(self).frames@
                    &&& final(self).hand == clock::reached(
                        old(self).hand as int,
                        1,
                        old(self).frames@.len() as int,
                    )
                },
            },
    {
        let n: usize = self.frames.len();
        let ghost f0 = self.frames@;
        let ghost opened = open_slots(f0, self.steal);
        let mut open: Vec<bool> = Vec::new();
        let mut refs: Vec<bool> = Vec::new();
        let mut i: usize = 0;
        while i < n
            invariant
                i <= n == self.frames@.len(),
                *self == *old(self),
                f0 == self.frames@,
                opened == open_slots(f0, self.steal),
                open@.len() == i,
                refs@.len() == i,
                forall|j: int| 0 <= j < i ==> #[trigger] open@[j] == opened[j],
                forall|j: int| 0 <= j < i ==> #[trigger] refs@[j] == f0[j].ref_bit,
            decreases n - i,
        {
            let s: Slot = self.frames[i];
            open.push(s.pins == 0 && s.incoming.is_none() && (self.steal || !s.dirty));
            refs.push(s.ref_bit);
            i = i + 1;
        }
        assert(open@ =~= opened);
        assert(refs@ =~= slot_refs(f0));
        let picked: Option<usize> = clock::pick(&open, &mut refs, self.hand);
        let mut k: usize = 0;
        while k < n
            invariant
                k <= n == f0.len(),
                self.frames@.len() == n,
                refs@.len() == n,
                *self == (Dir { frames: self.frames, ..*old(self) }),
                f0 == old(self).frames@,
                forall|j: int|
                    0 <= j < k ==> #[trigger] self.frames@[j] == (Slot {
                        ref_bit: refs@[j],
                        ..f0[j]
                    }),
                forall|j: int| k <= j < n ==> #[trigger] self.frames@[j] == f0[j],
            decreases n - k,
        {
            let mut s: Slot = self.frames[k];
            s.ref_bit = refs[k];
            self.frames[k] = s;
            k = k + 1;
        }
        assert(self.frames@ =~= with_refs(f0, refs@));
        proof {
            if picked is None {
                assert(self.frames@ =~= f0) by {
                    assert forall|j: int| 0 <= j < n implies self.frames@[j] == f0[j] by {
                        assert(refs@[j] == slot_refs(f0)[j]);
                    }
                }
                assert forall|j: int| 0 <= j < n implies !#[trigger] opened[j] by {
                    assert(!open@[j]);
                }
            }
            assert forall|j: int| 0 <= j < self.frames@.len() implies #[trigger] self.slot_ok(j) by {
                assert(old(self).slot_ok(j));
            }
        }
        match picked {
            Some(h) => {
                self.hand = clock::step(h, n);
            },
            None => {
                self.hand = clock::step(self.hand, n);
            },
        }
        proof {
            assert forall|j: int| 0 <= j < self.frames@.len() implies #[trigger] self.slot_ok(j) by {
                assert(old(self).slot_ok(j));
            }
        }
        picked
    }

    /// Reserve a frame for a page that the map does not know.
    fn reserve(&mut self, pid: PageId) -> (r: Step)
        requires
            old(self).wf(),
            !old(self).map@.dom().contains(pid),
        ensures
            final(self).wf(),
            final(self).next_page == old(self).next_page,
            final(self).steal == old(self).steal,
            final(self).frames@.len() == old(self).frames@.len(),
            match r {
                Step::Reserved { victim, old: was, old_dirty } => {
                    let f = old(self).frames@[victim as int];
                    &&& old(self).chosen(victim as int)
                    &&& was == f.pid
                    &&& old_dirty == f.dirty
                    &&& final(self).frames@ == old(self).after_choice(victim as int).update(
                        victim as int,
                        Slot {
                            pid: f.pid,
                            pins: 1,
                            ref_bit: true,
                            dirty: f.dirty,
                            incoming: Some(pid),
                        },
                    )
                    &&& final(self).map@ == old(self).map@.insert(pid, victim)
                    &&& final(self).hand == clock::reached(
                        victim as int,
                        1,
                        old(self).frames@.len() as int,
                    )
                },
                Step::Exhausted => {
                    &&& !old(self).has_victim()
                    &&& final(self).frames@ == old(self).frames@
                    &&& final(self).map@ == old(self).map@
                    &&& final(self).hand == clock::reached(
                        old(self).hand as int,
                        1,
                        old(self).frames@.len() as int,
                    )
                },
                _ => false,
            },
    {
        let ghost d0 = *self;
        let victim: usize = match self.choose_victim() {
            Some(v) => v,
            None => {
                return Step::Exhausted;
            },
        };
        let ghost d1 = *self;
        let s: Slot = self.frames[victim];
        self.frames[victim] = Slot {
            pid: s.pid,
            pins: 1,
            ref_bit: true,
            dirty: s.dirty,
            incoming: Some(pid),
        };
        self.map.insert(pid, victim);
        proof {
            assert forall|j: int| 0 <= j < self.frames@.len() implies #[trigger] self.slot_ok(j) by {
                assert(d1.slot_ok(j));
            }
            assert forall|p: PageId| #[trigger] self.map@.dom().contains(p) implies self.map@[p]
                < self.frames@.len() && (self.frames@[self.map@[p] as int].pid == Some(p)
                || self.frames@[self.map@[p] as int].incoming == Some(p)) by {
                if p != pid {
                    assert(d1.map@.dom().contains(p));
                    assert(d0.frames@[victim as int].incoming is None);
                }
            }
        }
        Step::Reserved { victim, old: s.pid, old_dirty: s.dirty }
    }

    /// The first step of a fetch: a resident page is pinned, one in transition is
    /// waited for, and for any other a frame is reserved.
    pub fn begin_fetch(&mut self, pid: PageId) -> (r: Step)
        requires
            old(self).wf(),
            old(self).map@.dom().contains(pid) ==> old(self).frames@[old(self).map@[pid] as int].pins
                < u32::MAX,
        ensures
            final(self).wf(),
            final(self).next_page == old(self).next_page,
            final(self).steal == old(self).steal,
            final(self).frames@.len() == old(self).frames@.len(),
            match r {
                Step::Hit(i) => {
                    &&& old(self).map@.dom().contains(pid)
                    &&& i == old(self).map@[pid]
                    &&& old(self).frames@[i as int].incoming is None
                    &&& final(self).map@ == old(self).map@
                    &&& final(self).hand == old(self).hand
                    &&& final(self).frames@ == old(self).frames@.update(
                        i as int,
                        Slot {
                            pins: (old(self).frames@[i as int].pins + 1) as u32,
                            ref_bit: true,
                            ..old(self).frames@[i as int]
                        },
                    )
                },
                Step::Wait => {
                    &&& old(self).map@.dom().contains(pid)
                    &&& old(self).frames@[old(self).map@[pid] as int].incoming is Some
                    &&& *final(self) == *old(self)
                },
                Step::Exhausted => {
                    &&& !old(self).map@.dom().contains(pid)
                    &&& !old(self).has_victim()
                    &&& final(self).frames@ == old(self).frames@
                    &&& final(self).map@ == old(self).map@
                    &&& final(self).hand == clock::reached(
                        old(self).hand as int,
                        1,
                        old(self).frames@.len() as int,
                    )
                },
                Step::Reserved { victim, old: was, old_dirty } => {
                    let f = old(self).frames@[victim as int];
                    &&& !old(self).map@.dom().contains(pid)
                    &&& old(self).chosen(victim as int)
                    &&& was == f.pid
                    &&& old_dirty == f.dirty
                    &&& final(self).frames@ == old(self).after_choice(victim as int).update(
                        victim as int,
                        Slot {
                            pid: f.pid,
                            pins: 1,
                            ref_bit: true,
                            dirty: f.dirty,
                            incoming: Some(pid),
                        },
                    )
                    &&& final(self).map@ == old(self).map@.insert(pid, victim)
                    &&& final(self).hand == clock::reached(
                        victim as int,
                        1,
                        old(self).frames@.len() as int,
                    )
                },
            },
    {
        let at: Option<usize> = match self.map.get(&pid) {
            Some(i) => Some(*i),
            None => None,
        };
        if let Some(i) = at {
            let mut s: Slot = self.frames[i];
            if s.incoming.is_some() {
                return Step::Wait;
            }
            proof {
                assert(self.slot_ok(i as int));
            }
            s.pins = s.pins + 1;
            s.ref_bit = true;
            self.frames[i] = s;
            proof {
                assert forall|j: int| 0 <= j < self.frames@.len() implies #[trigger] self.slot_ok(j) by {
                    assert(old(self).slot_ok(j));
                }
            }
            return Step::Hit(i);
        }
        self.reserve(pid)
    }

    /// The first step of an allocation: the next page number is handed out together
    /// with a reserved frame, so no two allocations get the same.
    pub fn begin_new(&mut self) -> (r: (PageId, Step))
        requires
            old(self).wf(),
            old(self).next_page < u32::MAX,
            !old(self).map@.dom().contains(old(self).next_page),
        ensures
            final(self).wf(),
            final(self).steal == old(self).steal,
            final(self).frames@.len() == old(self).frames@.len(),
            r.0 == old(self).next_page,
            match r.1 {
                Step::Reserved { victim, old: was, old_dirty } => {
                    let f = old(self).frames@[victim as int];
                    &&& final(self).next_page == old(self).next_page + 1
                    &&& old(self).chosen(victim as int)
                    &&& was == f.pid
                    &&& old_dirty == f.dirty
                    &&& final(self).frames@ == old(self).after_choice(victim as int).update(
                        victim as int,
                        Slot {
                            pid: f.pid,
                            pins: 1,
                            ref_bit: true,
                            dirty: f.dirty,
                            incoming: Some(r.0),
                        },
                    )
                    &&& final(self).map@ == old(self).map@.insert(r.0, victim)
                    &&& final(self).hand == clock::reached(
                        victim as int,
                        1,
                        old(self).frames@.len() as int,
                    )
                },
                Step::Exhausted => {
                    &&& !old(self).has_victim()
                    &&& final(self).next_page == old(self).next_page
                    &&& final(self).frames@ == old(self).frames@
                    &&& final(self).map@ == old(self).map@
                    &&& final(self).hand == clock::reached(
                        old(self).hand as int,
                        1,
                        old(self).frames@.len() as int,
                    )
                },
                _ => false,
            },
    {
        let pid: PageId = self.next_page;
        let step: Step = self.reserve(pid);
        if let Step::Reserved { .. } = step {
            let ghost d = *self;
            self.next_page = self.next_page + 1;
            proof {
                assert forall|j: int| 0 <= j < self.frames@.len() implies #[trigger] self.slot_ok(j) by {
                    assert(d.slot_ok(j));
                }
            }
        }
        (pid, step)
    }

    /// The last step of a fetch or an allocation: the frame holds the new page, and
    /// the old one is forgotten. The watermark moves past the page where `extend`.
    pub fn publish(&mut self, victim: usize, dirty: bool, extend: bool)
        requires
            old(self).wf(),
            victim < old(self).frames@.len(),
            old(self).frames@[victim as int].incoming is Some,
            old(self).frames@[victim as int].incoming->0 < u32::MAX,
            extend || old(self).frames@[victim as int].incoming->0 < old(self).next_page,
        ensures
            final(self).wf(),
            ({
                let f = old(self).frames@[victim as int];
                let pid = f.incoming->0;
                &&& final(self).frames@ == old(self).frames@.update(
                    victim as int,
                    Slot { pid: Some(pid), dirty, incoming: None, ..f },
                )
                &&& final(self).map@ == match f.pid {
                    Some(was) => old(self).map@.remove(was),
                    None => old(self).map@,
                }
                &&& final(self).next_page == if extend && old(self).next_page <= pid {
                    (pid + 1) as u32
                } else {
                    old(self).next_page
                }
            }),
            final(self).hand == old(self).hand,
            final(self).steal == old(self).steal,
    {
        let mut s: Slot = self.frames[victim];
        proof {
            assert(self.slot_ok(victim as int));
        }
        if let Some(was) = s.pid {
            self.map.remove(&was);
        }
        if let Some(pid) = s.incoming {
            if extend && self.next_page <= pid {
                self.next_page = pid + 1;
            }
        }
        s.pid = s.incoming;
        s.dirty = dirty;
        s.incoming = None;
        self.frames[victim] = s;
        proof {
            assert forall|j: int| 0 <= j < self.frames@.len() implies #[trigger] self.slot_ok(j) by {
                assert(old(self).slot_ok(j));
                let f = old(self).frames@[victim as int];
                if j != victim {
                    if f.pid is Some {
                        assert(old(self).frames@[j].pid != f.pid);
                        assert(old(self).frames@[j].incoming != f.pid);
                    }
                }
            }
            assert forall|p: PageId| #[trigger] self.map@.dom().contains(p) implies self.map@[p]
                < self.frames@.len() && (self.frames@[self.map@[p] as int].pid == Some(p)
                || self.frames@[self.map@[p] as int].incoming == Some(p)) by {
                assert(old(self).map@.dom().contains(p));
            }
        }
    }

    /// Undo a reservation, so the frame is reusable and no one waits forever for a
    /// page that never loaded.
    ///
    /// Where the flush failed, the old page's changes are only in memory: it stays
    /// resident and dirty. Where the read failed, the frame's bytes are neither page:
    /// it is emptied.
    pub fn abort_reservation(&mut self, victim: usize, how: Abort)
        requires
            old(self).wf(),
            victim < old(self).frames@.len(),
            old(self).frames@[victim as int].incoming is Some,
            how is KeepOldDirty ==> old(self).frames@[victim as int].pid is Some,
        ensures
            final(self).wf(),
            ({
                let f = old(self).frames@[victim as int];
                let m = old(self).map@.remove(f.incoming->0);
                match how {
                    Abort::KeepOldDirty => {
                        &&& final(self).frames@ == old(self).frames@.update(
                            victim as int,
                            Slot { pins: 0, dirty: true, incoming: None, ..f },
                        )
                        &&& final(self).map@ == m
                    },
                    Abort::Discard => {
                        &&& final(self).frames@ == old(self).frames@.update(
                            victim as int,
                            empty_slot(),
                        )
                        &&& final(self).map@ == match f.pid {
                            Some(was) => m.remove(was),
                            None => m,
                        }
                    },
                }
            }),
            final(self).next_page == old(self).next_page,
            final(self).hand == old(self).hand,
            final(self).steal == old(self).steal,
    {
        let mut s: Slot = self.frames[victim];
        proof {
            assert(self.slot_ok(victim as int));
        }
        s.pins = 0;
        if let Some(pid) = s.incoming {
            self.map.remove(&pid);
        }
        s.incoming = None;
        match how {
            Abort::KeepOldDirty => {
                s.dirty = true;
            },
            Abort::Discard => {
                if let Some(was) = s.pid {
                    self.map.remove(&was);
                }
                s.pid = None;
                s.dirty = false;
                s.ref_bit = false;
            },
        }
        self.frames[victim] = s;
        proof {
            let f = old(self).frames@[victim as int];
            assert forall|j: int| 0 <= j < self.frames@.len() implies #[trigger] self.slot_ok(j) by {
                assert(old(self).slot_ok(j));
                if j != victim {
                    assert(old(self).frames@[j].pid != f.incoming);
                    assert(old(self).frames@[j].incoming != f.incoming);
                    if f.pid is Some {
                        assert(old(self).frames@[j].pid != f.pid);
                        assert(old(self).frames@[j].incoming != f.pid);
                    }
                }
            }
            assert forall|p: PageId| #[trigger] self.map@.dom().contains(p) implies self.map@[p]
                < self.frames@.len() && (self.frames@[self.map@[p] as int].pid == Some(p)
                || self.frames@[self.map@[p] as int].incoming == Some(p)) by {
                assert(old(self).map@.dom().contains(p));
            }
        }
    }

    /// Give the last page number back, where no later one was handed out.
    pub fn give_back(&mut self, pid: PageId)
        requires
            old(self).wf(),
            pid < u32::MAX,
            !old(self).map@.dom().contains(pid),
        ensures
            final(self).wf(),
            *final(self) == (Dir {
                next_page: if old(self).next_page == pid + 1 {
                    pid
                } else {
                    old(self).next_page
                },
                ..*old(self)
            }),
    {
        if self.next_page == pid + 1 {
            self.next_page = pid;
        }
        proof {
            assert forall|j: int| 0 <= j < self.frames@.len() implies #[trigger] self.slot_ok(j) by {
                assert(old(self).slot_ok(j));
            }
        }
    }

    /// Give a pin back.
    pub fn unpin(&mut self, idx: usize)
        requires
            old(self).wf(),
            idx < old(self).frames@.len(),
            old(self).frames@[idx as int].pins > 0,
            old(self).frames@[idx as int].incoming is None,
        ensures
            final(self).wf(),
            *final(self) == (Dir { frames: final(self).frames, ..*old(self) }),
            final(self).frames@ == old(self).frames@.update(
                idx as int,
                Slot {
                    pins: (old(self).frames@[idx as int].pins - 1) as u32,
                    ..old(self).frames@[idx as int]
                },
            ),
    {
        let mut s: Slot = self.frames[idx];
        s.pins = s.pins - 1;
        self.frames[idx] = s;
        proof {
            assert forall|j: int| 0 <= j < self.frames@.len() implies #[trigger] self.slot_ok(j) by {
                assert(old(self).slot_ok(j));
            }
        }
    }

    /// Mark a pinned frame dirty.
    pub fn mark_dirty(&mut self, idx: usize)
        requires
            old(self).wf(),
            idx < old(self).frames@.len(),
            old(self).frames@[idx as int].pid is Some,
        ensures
            final(self).wf(),
            *final(self) == (Dir { frames: final(self).frames, ..*old(self) }),
            final(self).frames@ == old(self).frames@.update(
                idx as int,
                Slot { dirty: true, ..old(self).frames@[idx as int] },
            ),
    {
        let mut s: Slot = self.frames[idx];
        s.dirty = true;
        self.frames[idx] = s;
        proof {
            assert forall|j: int| 0 <= j < self.frames@.len() implies #[trigger] self.slot_ok(j) by {
                assert(old(self).slot_ok(j));
            }
        }
    }

    /// Whether frame `idx`, which held `pid`, is to be written.
    pub fn flush_step(&self, idx: usize, pid: PageId) -> (r: FlushStep)
        requires
            idx < self.frames@.len(),
        ensures
            r == if self.frames@[idx as int].incoming is Some {
                FlushStep::Wait
            } else if self.frames@[idx as int].pid != Some(pid) || !self.frames@[idx as int].dirty {
                FlushStep::Skip
            } else {
                FlushStep::Write
            },
    {
        let s: Slot = self.frames[idx];
        if s.incoming.is_some() {
            return FlushStep::Wait;
        }
        match s.pid {
            Some(p) => {
                if p == pid && s.dirty {
                    FlushStep::Write
                } else {
                    FlushStep::Skip
                }
            },
            None => FlushStep::Skip,
        }
    }

    /// Frame `idx` was written: clean, where it still holds `pid` and is not in
    /// transition.
    pub fn flush_done(&mut self, idx: usize, pid: PageId)
        requires
            old(self).wf(),
            idx < old(self).frames@.len(),
        ensures
            final(self).wf(),
            *final(self) == (Dir { frames: final(self).frames, ..*old(self) }),
            final(self).frames@ == if old(self).frames@[idx as int].pid == Some(pid)
                && old(self).frames@[idx as int].incoming is None {
                old(self).frames@.update(
                    idx as int,
                    Slot { dirty: false, ..old(self).frames@[idx as int] },
                )
            } else {
                old(self).frames@
            },
    {
        let mut s: Slot = self.frames[idx];
        let holds: bool = match s.pid {
            Some(p) => p == pid,
            None => false,
        };
        if holds && s.incoming.is_none() {
            s.dirty = false;
            self.frames[idx] = s;
        }
        proof {
            assert forall|j: int| 0 <= j < self.frames@.len() implies #[trigger] self.slot_ok(j) by {
                assert(old(self).slot_ok(j));
            }
        }
    }

    /// The frames that hold dirty pages, in order.
    pub fn dirty_pages(&self) -> (v: Vec<(usize, PageId)>)
        ensures
            forall|k: int|
                0 <= k < v@.len() ==> (#[trigger] v@[k]).0 < self.frames@.len()
                    && self.frames@[v@[k].0 as int].dirty && self.frames@[v@[k].0 as int].pid
                    == Some(v@[k].1),
            forall|j: int, k: int| 0 <= j < k < v@.len() ==> (#[trigger] v@[j]).0 < (#[trigger] v@[k]).0,
            forall|i: int|
                0 <= i < self.frames@.len() && (#[trigger] self.frames@[i]).dirty
                    && self.frames@[i].pid is Some ==> exists|k: int|
                    0 <= k < v@.len() && (#[trigger] v@[k]).0 == i,
    {
        let n: usize = self.frames.len();
        let mut v: Vec<(usize, PageId)> = Vec::new();
        let mut i: usize = 0;
        while i < n
            invariant
                i <= n == self.frames@.len(),
                forall|k: int|
                    0 <= k < v@.len() ==> (#[trigger] v@[k]).0 < i
                        && self.frames@[v@[k].0 as int].dirty && self.frames@[v@[k].0 as int].pid
                        == Some(v@[k].1),
                forall|j: int, k: int|
                    0 <= j < k < v@.len() ==> (#[trigger] v@[j]).0 < (#[trigger] v@[k]).0,
                forall|x: int|
                    0 <= x < i && (#[trigger] self.frames@[x]).dirty && self.frames@[x].pid is Some
                        ==> exists|k: int| 0 <= k < v@.len() && (#[trigger] v@[k]).0 == x,
            decreases n - i,
        {
            let s: Slot = self.frames[i];
            let ghost before = v@;
            if s.dirty {
                if let Some(p) = s.pid {
                    v.push((i, p));
                    assert(v@[before.len() as int].0 == i);
                }
            }
            proof {
                assert forall|x: int|
                    0 <= x < i + 1 && (#[trigger] self.frames@[x]).dirty && self.frames@[x].pid is Some
                    implies exists|k: int| 0 <= k < v@.len() && (#[trigger] v@[k]).0 == x by {
                    if x < i {
                        let k = choose|k: int| 0 <= k < before.len() && (#[trigger] before[k]).0 == x;
                        assert(v@[k] == before[k]);
                    }
                }
            }
            i = i + 1;
        }
        v
    }

    /// Forget a page whatever it holds.
    pub fn forget(&mut self, pid: PageId)
        requires
            old(self).wf(),
            old(self).map@.dom().contains(pid) ==> old(self).frames@[old(self).map@[pid] as int].pins
                == 0,
        ensures
            final(self).wf(),
            final(self).map@ == old(self).map@.remove(pid),
            final(self).frames@ == if old(self).map@.dom().contains(pid) {
                old(self).frames@.update(old(self).map@[pid] as int, empty_slot())
            } else {
                old(self).frames@
            },
            final(self).next_page == old(self).next_page,
            final(self).hand == old(self).hand,
            final(self).steal == old(self).steal,
    {
        let at: Option<usize> = match self.map.get(&pid) {
            Some(i) => Some(*i),
            None => None,
        };
        self.map.remove(&pid);
        if let Some(i) = at {
            proof {
                assert(old(self).slot_ok(i as int));
                assert(old(self).frames@[i as int].incoming is None);
            }
            self.frames[i] = Slot {
                pid: None,
                pins: 0,
                ref_bit: false,
                dirty: false,
                incoming: None,
            };
        }
        proof {
            assert(!old(self).map@.dom().contains(pid) ==> self.map@ =~= old(self).map@);
            assert forall|j: int| 0 <= j < self.frames@.len() implies #[trigger] self.slot_ok(j) by {
                assert(old(self).slot_ok(j));
            }
            assert forall|p: PageId| #[trigger] self.map@.dom().contains(p) implies self.map@[p]
                < self.frames@.len() && (self.frames@[self.map@[p] as int].pid == Some(p)
                || self.frames@[self.map@[p] as int].incoming == Some(p)) by {
                assert(old(self).map@.dom().contains(p));
            }
        }
    }

    /// Total pins held across all frames.
    pub fn live_pins(&self) -> (n: u32)
        requires
            pins_to(self.frames@, self.frames@.len() as int) <= u32::MAX,
        ensures
            n == pins_to(self.frames@, self.frames@.len() as int),
    {
        let mut n: u32 = 0;
        let mut i: usize = 0;
        while i < self.frames.len()
            invariant
                i <= self.frames@.len(),
                n == pins_to(self.frames@, i as int),
                pins_to(self.frames@, self.frames@.len() as int) <= u32::MAX,
            decreases self.frames@.len() - i,
        {
            proof {
                lemma_pins_grow(self.frames@, i + 1, self.frames@.len() as int);
            }
            n = n + self.frames[i].pins;
            i = i + 1;
        }
        n
    }
}

/// The pins of the first `n` frames.
pub open spec fn pins_to(frames: Seq<Slot>, n: int) -> int
    decreases n,
{
    if n <= 0 {
        0
    } else {
        pins_to(frames, n - 1) + frames[n - 1].pins
    }
}

proof fn lemma_pins_grow(frames: Seq<Slot>, m: int, n: int)
    requires
        0 <= m <= n <= frames.len(),
    ensures
        0 <= pins_to(frames, m) <= pins_to(frames, n),
    decreases n,
{
    if m < n {
        lemma_pins_grow(frames, m, n - 1);
    } else if m > 0 {
        lemma_pins_grow(frames, m - 1, n - 1);
    }
}

/// While a frame is in transition, whoever asks for the page that it held, or for
/// the page that is coming, is told to wait.
pub proof fn law_pages_in_transition_are_waited_for(d: Dir, victim: int)
    requires
        d.wf(),
        0 <= victim < d.frames@.len(),
        d.frames@[victim].incoming is Some,
    ensures
        ({
            let coming = d.frames@[victim].incoming->0;
            &&& d.map@.dom().contains(coming)
            &&& d.frames@[d.map@[coming] as int].incoming is Some
        }),
        d.frames@[victim].pid matches Some(was) ==> d.map@.dom().contains(was)
            && d.frames@[d.map@[was] as int].incoming is Some,
{
    assert(d.slot_ok(victim));
}

/// No page is in two frames, whether there or on its way.
pub proof fn law_a_page_has_one_frame(d: Dir, i: int, j: int, p: PageId)
    requires
        d.wf(),
        0 <= i < d.frames@.len(),
        0 <= j < d.frames@.len(),
        d.frames@[i].pid == Some(p) || d.frames@[i].incoming == Some(p),
        d.frames@[j].pid == Some(p) || d.frames@[j].incoming == Some(p),
    ensures
        i == j,
{
    assert(d.slot_ok(i));
    assert(d.slot_ok(j));
}

/// A pinned or busy frame is never taken for another page.
pub proof fn law_pinned_frames_are_not_taken(d: Dir, h: int)
    requires
        d.chosen(h),
    ensures
        d.frames@[h].pins == 0,
        d.frames@[h].incoming is None,
        !d.steal ==> !d.frames@[h].dirty,
{
}

} // verus!
