//! Re-entrancy detector for interior mutability.
//!
//! A cell that permits nested shared borrows hides what a mutex would deadlock
//! on. [`TrackedRefCell`] keeps a depth count per cell and reports any borrow
//! taken while the same cell is already borrowed: exactly the condition that
//! deadlocks under a mutex. It is a diagnostic, not a fix.

use std::collections::HashMap;

use vstd::prelude::*;

verus! {

broadcast use vstd::std_specs::hash::group_hash_axioms;

/// How a cell is borrowed.
#[derive(Clone, Copy, Debug, PartialEq, Eq, Structural)]
pub enum BorrowKind {
    Shared,
    Exclusive,
}

/// A borrow that was taken while the same cell was already borrowed.
#[derive(Debug)]
pub struct Finding {
    /// The cell's name.
    pub label: String,
    pub kind: BorrowKind,
    /// How many borrows of the cell were live already.
    pub depth: u32,
    /// Where it happened.
    pub site: String,
}

/// What a finding says.
#[verifier::ext_equal]
pub ghost struct FindingView {
    pub label: Seq<char>,
    pub kind: BorrowKind,
    pub depth: u32,
    pub site: Seq<char>,
}

impl View for Finding {
    type V = FindingView;

    open spec fn view(&self) -> FindingView {
        FindingView { label: self.label@, kind: self.kind, depth: self.depth, site: self.site@ }
    }
}

/// The borrows that one thread holds, and what was found so far.
pub struct Tracker {
    next_id: usize,
    held: HashMap<usize, u32>,
    reported: Vec<Finding>,
}

/// What a tracker knows.
#[verifier::ext_equal]
pub ghost struct TrackerView {
    pub next: usize,
    pub held: Map<usize, u32>,
    pub findings: Seq<FindingView>,
}

impl View for Tracker {
    type V = TrackerView;

    closed spec fn view(&self) -> TrackerView {
        TrackerView {
            next: self.next_id,
            held: self.held@,
            findings: self.reported@.map_values(|f: Finding| f@),
        }
    }
}

impl TrackerView {
    /// How many borrows of cell `id` are live.
    pub open spec fn depth(self, id: usize) -> u32 {
        if self.held.dom().contains(id) {
            self.held[id]
        } else {
            0
        }
    }

    /// The findings once `f` is among them.
    pub open spec fn with_finding(self, f: FindingView) -> Seq<FindingView> {
        if self.findings.contains(f) {
            self.findings
        } else {
            self.findings.push(f)
        }
    }

    /// A borrow of cell `id` began: a finding if the cell was borrowed already.
    pub open spec fn entered(
        self,
        id: usize,
        label: Seq<char>,
        kind: BorrowKind,
        site: Seq<char>,
    ) -> TrackerView {
        let depth = self.depth(id);
        TrackerView {
            next: self.next,
            held: self.held.insert(id, (depth + 1) as u32),
            findings: if depth > 0 {
                self.with_finding(FindingView { label, kind, depth, site })
            } else {
                self.findings
            },
        }
    }

    /// A borrow of cell `id` ended.
    pub open spec fn left(self, id: usize) -> TrackerView {
        TrackerView {
            next: self.next,
            held: if self.held.dom().contains(id) {
                self.held.insert(
                    id,
                    if self.held[id] > 0 {
                        (self.held[id] - 1) as u32
                    } else {
                        0
                    },
                )
            } else {
                self.held
            },
            findings: self.findings,
        }
    }
}

impl Tracker {
    /// A tracker that has seen nothing.
    pub fn new() -> (t: Tracker)
        ensures
            t@ == (TrackerView { next: 0, held: Map::empty(), findings: Seq::empty() }),
    {
        let t: Tracker = Tracker { next_id: 0, held: HashMap::new(), reported: Vec::new() };
        assert(t@.findings =~= Seq::<FindingView>::empty());
        t
    }

    /// Every distinct re-entrant borrow seen so far, in discovery order.
    pub fn findings(&self) -> (v: &Vec<Finding>)
        ensures
            v@.map_values(|f: Finding| f@) == self@.findings,
    {
        &self.reported
    }

    fn note(&mut self, label: &String, kind: BorrowKind, depth: u32, site: &String)
        ensures
            final(self)@.findings == old(self)@.with_finding(
                FindingView { label: label@, kind, depth, site: site@ },
            ),
            final(self)@.held == old(self)@.held,
            final(self)@.next == old(self)@.next,
    {
        let ghost f = FindingView { label: label@, kind, depth, site: site@ };
        let ghost before = self@.findings;
        let mut i: usize = 0;
        while i < self.reported.len()
            invariant
                self@.findings == before,
                self.held == old(self).held,
                self.next_id == old(self).next_id,
                i <= self.reported@.len(),
                before == old(self)@.findings,
                f == (FindingView { label: label@, kind, depth, site: site@ }),
                forall|j: int| 0 <= j < i ==> #[trigger] before[j] != f,
            decreases self.reported.len() - i,
        {
            let r: &Finding = &self.reported[i];
            assert(before[i as int] == r@);
            if r.label == *label && r.kind == kind && r.depth == depth && r.site == *site {
                assert(r@ == f);
                assert(before.contains(f));
                return;
            }
            i = i + 1;
        }
        self.reported.push(Finding { label: label.clone(), kind, depth, site: site.clone() });
        assert(self@.findings =~= before.push(f));
    }

    fn enter(&mut self, id: usize, label: &String, kind: BorrowKind, site: &String)
        requires
            old(self)@.depth(id) < u32::MAX,
        ensures
            final(self)@ == old(self)@.entered(id, label@, kind, site@),
    {
        let depth: u32 = match self.held.get(&id) {
            Some(d) => *d,
            None => 0,
        };
        self.held.insert(id, depth + 1);
        if depth > 0 {
            self.note(label, kind, depth, site);
        }
    }

    fn leave(&mut self, id: usize)
        ensures
            final(self)@ == old(self)@.left(id),
    {
        let depth: Option<u32> = match self.held.get(&id) {
            Some(d) => Some(*d),
            None => None,
        };
        if let Some(d) = depth {
            self.held.insert(
                id,
                if d > 0 {
                    d - 1
                } else {
                    0
                },
            );
        }
    }
}

/// A cell that reports borrows taken while it is already borrowed.
pub struct TrackedRefCell<T> {
    pub value: T,
    /// Live shared borrows.
    pub shared: u32,
    /// Whether an exclusive borrow is live.
    pub exclusive: bool,
    pub id: usize,
    pub label: String,
}

/// A live shared borrow, ended by [`TrackedRefCell::end`].
pub struct TrackedRef {
    pub id: usize,
}

/// A live exclusive borrow, ended by [`TrackedRefCell::end_mut`].
pub struct TrackedRefMut {
    pub id: usize,
}

/// The cell that a database field is kept in.
pub type DbCell<T> = TrackedRefCell<T>;

/// Construct a tracked cell, naming the field so findings identify it.
pub fn new_cell<T>(v: T, label: String, tracker: &mut Tracker) -> (c: DbCell<T>)
    requires
        old(tracker)@.next < usize::MAX,
    ensures
        c == (TrackedRefCell {
            value: v,
            shared: 0,
            exclusive: false,
            id: old(tracker)@.next,
            label,
        }),
        final(tracker)@ == (TrackerView {
            next: (old(tracker)@.next + 1) as usize,
            ..old(tracker)@
        }),
{
    TrackedRefCell::labelled(v, label, tracker)
}

impl<T> TrackedRefCell<T> {
    /// The tracker counts exactly this cell's live borrows.
    pub open spec fn tracked_by(&self, t: TrackerView) -> bool {
        &&& self.exclusive ==> self.shared == 0
        &&& t.depth(self.id) == self.shared + if self.exclusive {
            1int
        } else {
            0
        }
    }

    /// Wrap a value.
    pub fn new(v: T, tracker: &mut Tracker) -> (c: TrackedRefCell<T>)
        requires
            old(tracker)@.next < usize::MAX,
        ensures
            c.value == v,
            c.label@ == "<unlabelled>"@,
            c.shared == 0,
            !c.exclusive,
            c.id == old(tracker)@.next,
            final(tracker)@ == (TrackerView {
                next: (old(tracker)@.next + 1) as usize,
                ..old(tracker)@
            }),
    {
        TrackedRefCell::labelled(v, "<unlabelled>".to_string(), tracker)
    }

    /// Wrap a value, naming the field so findings identify it.
    pub fn labelled(v: T, label: String, tracker: &mut Tracker) -> (c: TrackedRefCell<T>)
        requires
            old(tracker)@.next < usize::MAX,
        ensures
            c == (TrackedRefCell {
                value: v,
                shared: 0,
                exclusive: false,
                id: old(tracker)@.next,
                label,
            }),
            final(tracker)@ == (TrackerView {
                next: (old(tracker)@.next + 1) as usize,
                ..old(tracker)@
            }),
    {
        let id: usize = tracker.next_id;
        tracker.next_id = id + 1;
        TrackedRefCell { value: v, shared: 0, exclusive: false, id, label }
    }

    /// Shared borrow, tracked. Other shared borrows may be live; an exclusive one
    /// may not.
    pub fn borrow(&mut self, tracker: &mut Tracker, site: &String) -> (g: TrackedRef)
        requires
            old(self).tracked_by(old(tracker)@),
            !old(self).exclusive,
            old(self).shared < u32::MAX,
        ensures
            final(self).tracked_by(final(tracker)@),
            *final(self) == (TrackedRefCell { shared: (old(self).shared + 1) as u32, ..*old(self) }),
            final(tracker)@ == old(tracker)@.entered(
                old(self).id,
                old(self).label@,
                BorrowKind::Shared,
                site@,
            ),
            g.id == old(self).id,
    {
        tracker.enter(self.id, &self.label, BorrowKind::Shared, site);
        self.shared = self.shared + 1;
        TrackedRef { id: self.id }
    }

    /// Exclusive borrow, tracked. No other borrow may be live.
    pub fn borrow_mut(&mut self, tracker: &mut Tracker, site: &String) -> (g: TrackedRefMut)
        requires
            old(self).tracked_by(old(tracker)@),
            !old(self).exclusive,
            old(self).shared == 0,
        ensures
            final(self).tracked_by(final(tracker)@),
            *final(self) == (TrackedRefCell { exclusive: true, ..*old(self) }),
            final(tracker)@ == old(tracker)@.entered(
                old(self).id,
                old(self).label@,
                BorrowKind::Exclusive,
                site@,
            ),
            g.id == old(self).id,
    {
        tracker.enter(self.id, &self.label, BorrowKind::Exclusive, site);
        self.exclusive = true;
        TrackedRefMut { id: self.id }
    }

    /// What a shared borrow sees.
    pub fn deref(&self, g: &TrackedRef) -> (v: &T)
        requires
            g.id == self.id,
            self.shared > 0,
        ensures
            *v == self.value,
    {
        &self.value
    }

    /// What an exclusive borrow sees and changes.
    pub fn deref_mut(&mut self, g: &TrackedRefMut) -> (v: &mut T)
        requires
            g.id == old(self).id,
            old(self).exclusive,
        ensures
            *v == old(self).value,
            *final(self) == (TrackedRefCell { value: *final(v), ..*old(self) }),
    {
        &mut self.value
    }

    /// End a shared borrow.
    pub fn end(&mut self, tracker: &mut Tracker, g: TrackedRef)
        requires
            old(self).tracked_by(old(tracker)@),
            g.id == old(self).id,
            old(self).shared > 0,
        ensures
            final(self).tracked_by(final(tracker)@),
            *final(self) == (TrackedRefCell { shared: (old(self).shared - 1) as u32, ..*old(self) }),
            final(tracker)@ == old(tracker)@.left(old(self).id),
    {
        self.shared = self.shared - 1;
        tracker.leave(self.id);
    }

    /// End an exclusive borrow.
    pub fn end_mut(&mut self, tracker: &mut Tracker, g: TrackedRefMut)
        requires
            old(self).tracked_by(old(tracker)@),
            g.id == old(self).id,
            old(self).exclusive,
        ensures
            final(self).tracked_by(final(tracker)@),
            *final(self) == (TrackedRefCell { exclusive: false, ..*old(self) }),
            final(tracker)@ == old(tracker)@.left(old(self).id),
    {
        self.exclusive = false;
        tracker.leave(self.id);
    }
}

/// The detector fires on a borrow iff the cell was already borrowed, and what it
/// reports names the cell and the depth.
pub proof fn law_detector_fires_iff_nested(
    t: TrackerView,
    id: usize,
    label: Seq<char>,
    kind: BorrowKind,
    site: Seq<char>,
)
    ensures
        t.depth(id) == 0 ==> t.entered(id, label, kind, site).findings == t.findings,
        t.depth(id) > 0 ==> t.entered(id, label, kind, site).findings.contains(
            FindingView { label, kind, depth: t.depth(id), site },
        ),
{
    let f = FindingView { label, kind, depth: t.depth(id), site };
    if t.depth(id) > 0 && !t.findings.contains(f) {
        assert(t.findings.push(f)[t.findings.len() as int] == f);
    }
}

/// Borrows that follow one another are not nested: entering and leaving restores
/// the depth.
pub proof fn law_sequential_borrows_are_silent(
    t: TrackerView,
    id: usize,
    label: Seq<char>,
    kind: BorrowKind,
    site: Seq<char>,
)
    requires
        t.depth(id) < u32::MAX,
    ensures
        t.entered(id, label, kind, site).left(id).depth(id) == t.depth(id),
{
}

/// A step of a run: a borrow that begins, or one that ends.
pub ghost enum BorrowEvent {
    Begin { id: usize, label: Seq<char>, kind: BorrowKind, site: Seq<char> },
    End { id: usize },
}

/// What the tracker knows after a run.
pub open spec fn ran(t: TrackerView, run: Seq<BorrowEvent>) -> TrackerView
    decreases run.len(),
{
    if run.len() == 0 {
        t
    } else {
        let before = ran(t, run.drop_last());
        match run.last() {
            BorrowEvent::Begin { id, label, kind, site } => before.entered(id, label, kind, site),
            BorrowEvent::End { id } => before.left(id),
        }
    }
}

/// How many borrows of cell `id` are alive after a run.
pub open spec fn alive(run: Seq<BorrowEvent>, id: usize) -> nat
    decreases run.len(),
{
    if run.len() == 0 {
        0
    } else {
        let before = alive(run.drop_last(), id);
        match run.last() {
            BorrowEvent::Begin { id: i, .. } => if i == id {
                before + 1
            } else {
                before
            },
            BorrowEvent::End { id: i } => if i == id && before > 0 {
                (before - 1) as nat
            } else {
                before
            },
        }
    }
}

/// Step `k` borrows cell `id` while an earlier borrow of it is alive.
pub open spec fn nested_at(run: Seq<BorrowEvent>, id: usize, k: int) -> bool {
    &&& 0 <= k < run.len()
    &&& run[k] is Begin
    &&& run[k]->Begin_id == id
    &&& alive(run.take(k), id) > 0
}

/// Some finding names the label.
pub open spec fn reported(findings: Seq<FindingView>, label: Seq<char>) -> bool {
    exists|i: int| 0 <= i < findings.len() && (#[trigger] findings[i]).label == label
}

proof fn lemma_depth_is_alive(t: TrackerView, run: Seq<BorrowEvent>, id: usize)
    requires
        t.depth(id) == 0,
        forall|k: int| 0 <= k <= run.len() ==> alive(#[trigger] run.take(k), id) <= u32::MAX,
    ensures
        ran(t, run).depth(id) == alive(run, id),
    decreases run.len(),
{
    if run.len() > 0 {
        let before = run.drop_last();
        assert forall|k: int| 0 <= k <= before.len() implies alive(#[trigger] before.take(k), id)
            <= u32::MAX by {
            assert(before.take(k) =~= run.take(k));
        }
        lemma_depth_is_alive(t, before, id);
        assert(run.take(run.len() as int) =~= run);
    }
}

/// Of a whole run of borrows: a cell whose label no other cell bears is reported if and only
/// if some borrow of it was taken while an earlier one was alive. Borrows that follow one
/// another report nothing, nested ones do.
pub proof fn law_detector_reports_a_run_iff_nested(
    t: TrackerView,
    run: Seq<BorrowEvent>,
    id: usize,
    label: Seq<char>,
)
    requires
        t.depth(id) == 0,
        !reported(t.findings, label),
        forall|k: int|
            0 <= k < run.len() && (#[trigger] run[k]) is Begin ==> (run[k]->label == label
                <==> run[k]->Begin_id == id),
        forall|k: int| 0 <= k <= run.len() ==> alive(#[trigger] run.take(k), id) <= u32::MAX,
    ensures
        reported(ran(t, run).findings, label) <==> exists|k: int| nested_at(run, id, k),
    decreases run.len(),
{
    if run.len() > 0 {
        let n = run.len() - 1;
        let before = run.drop_last();
        assert(before =~= run.take(n));
        assert forall|k: int| 0 <= k <= before.len() implies alive(#[trigger] before.take(k), id)
            <= u32::MAX by {
            assert(before.take(k) =~= run.take(k));
        }
        assert forall|k: int| 0 <= k < before.len() && (#[trigger] before[k]) is Begin implies (
        before[k]->label == label <==> before[k]->Begin_id == id) by {
            assert(before[k] == run[k]);
        }
        law_detector_reports_a_run_iff_nested(t, before, id, label);
        lemma_depth_is_alive(t, before, id);
        assert forall|k: int| 0 <= k < n implies nested_at(before, id, k) == nested_at(
            run,
            id,
            k,
        ) by {
            assert(before.take(k) =~= run.take(k));
        }
        let was = ran(t, before);
        let now = ran(t, run);
        if exists|k: int| nested_at(before, id, k) {
            let k = choose|k: int| nested_at(before, id, k);
            assert(nested_at(run, id, k));
            let i = choose|i: int|
                0 <= i < was.findings.len() && (#[trigger] was.findings[i]).label == label;
            assert(now.findings[i] == was.findings[i]);
        } else if nested_at(run, id, n) {
            match run.last() {
                BorrowEvent::Begin { id: i, label: l, kind, site } => {
                    let f = FindingView { label: l, kind, depth: was.depth(id), site };
                    law_detector_fires_iff_nested(was, id, l, kind, site);
                    let j = choose|j: int| 0 <= j < now.findings.len() && now.findings[j] == f;
                    assert(now.findings[j].label == label);
                },
                BorrowEvent::End { .. } => {},
            }
        } else if reported(now.findings, label) {
            let i = choose|i: int|
                0 <= i < now.findings.len() && (#[trigger] now.findings[i]).label == label;
            if i < was.findings.len() {
                assert(was.findings[i] == now.findings[i]);
            }
            assert(nested_at(run, id, n));
        }
    } else {
        assert(ran(t, run) == t);
    }
}

} // verus!
