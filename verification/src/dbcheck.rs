//! The offline validator of a data file.
//!
//! Every page's checksum must match; every heap page's header must be
//! self-consistent with no slot outside the tuple region; every record must be a
//! tuple, a forward stub or a forward target; every stub must point at a target and
//! every target must be pointed at by exactly one stub.

pub mod heaps;

use std::collections::HashMap;
use vstd::prelude::*;

use crate::buffer::{page_at, page_offset, PageId};
use crate::heap::{classify_record, record_kind, RecordKind, Rid};
use crate::page::{
    checksum_ok, live_pairs, structure_fault, structure_ok, tuples_of, type_of_byte, PageBuf,
    PageType, SlotId, SlottedPage, PAGE_SIZE,
};
use crate::vfs::{BlockFile, IoError};

verus! {

/// A broken invariant.
#[derive(Debug)]
pub enum Violation {
    BadChecksum { page: u32 },
    BadStructure { page: u32, why: String },
    BadRecordTag { rid: Rid, tag: u8 },
    /// A forward stub points at a slot that is no live forward target.
    DanglingForward { stub: Rid, target: Rid },
    /// A forward target that no stub points to.
    OrphanTarget { target: Rid },
    /// A forward target referenced by more than one stub.
    DoublyReferencedTarget { target: Rid, stubs: Vec<Rid> },
    /// The file length is not a whole number of pages.
    RaggedFile { bytes: u64 },
}

/// What a violation says.
pub enum Fault {
    BadChecksum { page: u32 },
    BadStructure { page: u32, why: Seq<char> },
    BadRecordTag { rid: Rid, tag: u8 },
    DanglingForward { stub: Rid, target: Rid },
    OrphanTarget { target: Rid },
    DoublyReferencedTarget { target: Rid, stubs: Seq<Rid> },
    RaggedFile { bytes: u64 },
}

impl View for Violation {
    type V = Fault;

    open spec fn view(&self) -> Fault {
        match *self {
            Violation::BadChecksum { page } => Fault::BadChecksum { page },
            Violation::BadStructure { page, why } => Fault::BadStructure { page, why: why@ },
            Violation::BadRecordTag { rid, tag } => Fault::BadRecordTag { rid, tag },
            Violation::DanglingForward { stub, target } => Fault::DanglingForward { stub, target },
            Violation::OrphanTarget { target } => Fault::OrphanTarget { target },
            Violation::DoublyReferencedTarget { target, stubs } => Fault::DoublyReferencedTarget {
                target,
                stubs: stubs@,
            },
            Violation::RaggedFile { bytes } => Fault::RaggedFile { bytes },
        }
    }
}

/// What violations say.
pub open spec fn said(vs: Seq<Violation>) -> Seq<Fault> {
    vs.map_values(|v: Violation| v@)
}

/// The result of a check: counts and any violations.
#[derive(Debug)]
pub struct CheckReport {
    pub pages: u32,
    pub heap_pages: u32,
    pub tuples: u64,
    pub stubs: u64,
    pub targets: u64,
    pub violations: Vec<Violation>,
}

impl Default for CheckReport {
    fn default() -> (r: CheckReport)
        ensures
            r.pages == 0 && r.heap_pages == 0 && r.tuples == 0 && r.stubs == 0 && r.targets == 0,
            r.violations@.len() == 0,
    {
        CheckReport {
            pages: 0,
            heap_pages: 0,
            tuples: 0,
            stubs: 0,
            targets: 0,
            violations: Vec::new(),
        }
    }
}

impl CheckReport {
    pub fn ok(&self) -> (r: bool)
        ensures
            r == (self.violations@.len() == 0),
    {
        self.violations.len() == 0
    }
}

// ---- what a file holds ----

pub open spec fn is_heap_page(b: Seq<u8>) -> bool {
    type_of_byte(b[14]) == Some(PageType::Heap)
}

/// A heap page whose records are looked at.
pub open spec fn trusted(b: Seq<u8>) -> bool {
    checksum_ok(b) && is_heap_page(b) && structure_ok(b)
}

/// The records of page `p`, if it is trusted.
pub open spec fn page_recs(p: PageId, b: Seq<u8>) -> Seq<(Rid, Seq<u8>)> {
    if trusted(b) {
        live_pairs(tuples_of(b)).map_values(
            |x: (SlotId, Seq<u8>)| (Rid { page: p, slot: x.0 }, x.1),
        )
    } else {
        Seq::empty()
    }
}

/// The records of the first `n` pages.
pub open spec fn recs_to(image: Seq<u8>, n: int) -> Seq<(Rid, Seq<u8>)>
    decreases n,
{
    if n <= 0 {
        Seq::empty()
    } else {
        recs_to(image, n - 1) + page_recs((n - 1) as PageId, page_at(image, (n - 1) as PageId))
    }
}

/// The trusted heap pages among the first `n`.
pub open spec fn heap_pages_to(image: Seq<u8>, n: int) -> int
    decreases n,
{
    if n <= 0 {
        0
    } else {
        heap_pages_to(image, n - 1) + if trusted(page_at(image, (n - 1) as PageId)) {
            1int
        } else {
            0
        }
    }
}

/// How many records are plain tuples.
pub open spec fn tuple_count(rs: Seq<(Rid, Seq<u8>)>) -> int
    decreases rs.len(),
{
    if rs.len() == 0 {
        0
    } else {
        tuple_count(rs.drop_last()) + if record_kind(rs.last().1) == Ok::<RecordKind, u8>(
            RecordKind::Tuple,
        ) {
            1int
        } else {
            0
        }
    }
}

/// The forward stubs with where they point.
pub open spec fn stubs_of(rs: Seq<(Rid, Seq<u8>)>) -> Seq<(Rid, Rid)>
    decreases rs.len(),
{
    if rs.len() == 0 {
        Seq::empty()
    } else {
        match record_kind(rs.last().1) {
            Ok(RecordKind::Forward(t)) => stubs_of(rs.drop_last()).push((rs.last().0, t)),
            _ => stubs_of(rs.drop_last()),
        }
    }
}

/// The forward targets.
pub open spec fn targets_of(rs: Seq<(Rid, Seq<u8>)>) -> Seq<Rid>
    decreases rs.len(),
{
    if rs.len() == 0 {
        Seq::empty()
    } else {
        match record_kind(rs.last().1) {
            Ok(RecordKind::ForwardTarget) => targets_of(rs.drop_last()).push(rs.last().0),
            _ => targets_of(rs.drop_last()),
        }
    }
}

/// The records of no kind.
pub open spec fn tag_faults(rs: Seq<(Rid, Seq<u8>)>) -> Seq<Fault>
    decreases rs.len(),
{
    if rs.len() == 0 {
        Seq::empty()
    } else {
        match record_kind(rs.last().1) {
            Err(tag) => tag_faults(rs.drop_last()).push(
                Fault::BadRecordTag { rid: rs.last().0, tag },
            ),
            _ => tag_faults(rs.drop_last()),
        }
    }
}

/// What is wrong with page `p` by itself.
pub open spec fn page_faults(p: PageId, b: Seq<u8>) -> Seq<Fault> {
    if !checksum_ok(b) {
        seq![Fault::BadChecksum { page: p }]
    } else if !is_heap_page(b) {
        Seq::empty()
    } else if !structure_ok(b) {
        seq![Fault::BadStructure { page: p, why: "corrupt page: "@ + structure_fault(b) }]
    } else {
        tag_faults(page_recs(p, b))
    }
}

/// What is wrong with each of the first `n` pages, in order.
pub open spec fn faults_to(image: Seq<u8>, n: int) -> Seq<Fault>
    decreases n,
{
    if n <= 0 {
        Seq::empty()
    } else {
        faults_to(image, n - 1) + page_faults(
            (n - 1) as PageId,
            page_at(image, (n - 1) as PageId),
        )
    }
}

/// The stubs that point at none of `targets`.
pub open spec fn dangling(stubs: Seq<(Rid, Rid)>, targets: Seq<Rid>) -> Seq<Fault>
    decreases stubs.len(),
{
    if stubs.len() == 0 {
        Seq::empty()
    } else if !targets.contains(stubs.last().1) {
        dangling(stubs.drop_last(), targets).push(
            Fault::DanglingForward { stub: stubs.last().0, target: stubs.last().1 },
        )
    } else {
        dangling(stubs.drop_last(), targets)
    }
}

/// The stubs that point at `t`, in order.
pub open spec fn refs_of(stubs: Seq<(Rid, Rid)>, t: Rid) -> Seq<Rid>
    decreases stubs.len(),
{
    if stubs.len() == 0 {
        Seq::empty()
    } else if stubs.last().1 == t {
        refs_of(stubs.drop_last(), t).push(stubs.last().0)
    } else {
        refs_of(stubs.drop_last(), t)
    }
}

/// The targets that not exactly one stub points at, in order.
pub open spec fn target_faults(targets: Seq<Rid>, stubs: Seq<(Rid, Rid)>) -> Seq<Fault>
    decreases targets.len(),
{
    if targets.len() == 0 {
        Seq::empty()
    } else {
        let init = target_faults(targets.drop_last(), stubs);
        let t = targets.last();
        let refs = refs_of(stubs, t);
        if refs.len() == 0 {
            init.push(Fault::OrphanTarget { target: t })
        } else if refs.len() > 1 {
            init.push(Fault::DoublyReferencedTarget { target: t, stubs: refs })
        } else {
            init
        }
    }
}

/// How many whole pages a file has.
pub open spec fn whole_pages(image: Seq<u8>) -> u32 {
    (image.len() as int / PAGE_SIZE as int) as u32
}

/// Everything wrong with a file.
pub open spec fn faults_of(image: Seq<u8>) -> Seq<Fault> {
    let n = whole_pages(image) as int;
    let rs = recs_to(image, n);
    let ragged: Seq<Fault> = if image.len() as int % PAGE_SIZE as int != 0 {
        seq![Fault::RaggedFile { bytes: image.len() as u64 }]
    } else {
        Seq::empty()
    };
    ragged + faults_to(image, n) + dangling(stubs_of(rs), targets_of(rs)) + target_faults(
        targets_of(rs),
        stubs_of(rs),
    )
}

/// What a check of a file reports. Targets are gone through in page order.
pub open spec fn reports(rep: CheckReport, image: Seq<u8>) -> bool {
    let n = whole_pages(image) as int;
    let rs = recs_to(image, n);
    &&& rep.pages == n
    &&& rep.heap_pages == heap_pages_to(image, n)
    &&& rep.tuples == tuple_count(rs)
    &&& rep.stubs == stubs_of(rs).len()
    &&& rep.targets == targets_of(rs).len()
    &&& said(rep.violations@) == faults_of(image)
}

// ---- the walk ----

/// What the walk has found so far.
struct Findings {
    report: CheckReport,
    stubs: Vec<(Rid, Rid)>,
    targets: Vec<Rid>,
}

spec fn found(f: Findings, rs: Seq<(Rid, Seq<u8>)>, faults: Seq<Fault>, heap: int) -> bool {
    &&& f.report.heap_pages == heap
    &&& f.report.tuples == tuple_count(rs)
    &&& f.report.stubs == f.stubs@.len()
    &&& f.report.targets == f.targets@.len()
    &&& f.stubs@ == stubs_of(rs)
    &&& f.targets@ == targets_of(rs)
    &&& said(f.report.violations@) == faults
}

proof fn lemma_counts(rs: Seq<(Rid, Seq<u8>)>)
    ensures
        0 <= tuple_count(rs) <= rs.len(),
        stubs_of(rs).len() <= rs.len(),
        targets_of(rs).len() <= rs.len(),
    decreases rs.len(),
{
    if rs.len() > 0 {
        lemma_counts(rs.drop_last());
    }
}

proof fn lemma_pairs_len(ts: Seq<Option<Seq<u8>>>)
    ensures
        live_pairs(ts).len() <= ts.len(),
    decreases ts.len(),
{
    if ts.len() > 0 {
        lemma_pairs_len(ts.drop_last());
    }
}

proof fn lemma_recs_len(image: Seq<u8>, n: int)
    requires
        0 <= n,
    ensures
        recs_to(image, n).len() <= n * 0x10000,
    decreases n,
{
    if n > 0 {
        lemma_recs_len(image, n - 1);
        lemma_pairs_len(tuples_of(page_at(image, (n - 1) as PageId)));
    }
}

proof fn lemma_tag_faults_add(a: Seq<(Rid, Seq<u8>)>, b: Seq<(Rid, Seq<u8>)>)
    ensures
        tag_faults(a + b) == tag_faults(a) + tag_faults(b),
    decreases b.len(),
{
    if b.len() == 0 {
        assert(a + b =~= a);
        assert(tag_faults(a) + tag_faults(b) =~= tag_faults(a));
    } else {
        lemma_tag_faults_add(a, b.drop_last());
        assert((a + b).drop_last() =~= a + b.drop_last());
        assert((a + b).last() == b.last());
        assert(tag_faults(a + b) =~= tag_faults(a) + tag_faults(b));
    }
}

proof fn lemma_said_push(vs: Seq<Violation>, v: Violation)
    ensures
        said(vs.push(v)) == said(vs).push(v@),
{
    assert(said(vs.push(v)) =~= said(vs).push(v@));
}

impl Findings {
    /// One violation more.
    fn report_fault(&mut self, v: Violation)
        ensures
            *final(self) == (Findings { report: final(self).report, ..*old(self) }),
            final(self).report == (CheckReport {
                violations: final(self).report.violations,
                ..old(self).report
            }),
            said(final(self).report.violations@) == said(old(self).report.violations@).push(v@),
    {
        proof {
            lemma_said_push(self.report.violations@, v);
        }
        self.report.violations.push(v);
    }

    /// Look at one record.
    fn look(&mut self, rid: Rid, bytes: &[u8], Ghost(rs): Ghost<Seq<(Rid, Seq<u8>)>>, Ghost(
        faults,
    ): Ghost<Seq<Fault>>)
        requires
            found(*old(self), rs, faults, old(self).report.heap_pages as int),
            rs.len() < 0xFFFF_FFFF_FFFF,
        ensures
            final(self).report.heap_pages == old(self).report.heap_pages,
            final(self).report.pages == old(self).report.pages,
            found(
                *final(self),
                rs.push((rid, bytes@)),
                faults + tag_faults(seq![(rid, bytes@)]),
                old(self).report.heap_pages as int,
            ),
    {
        let ghost more = rs.push((rid, bytes@));
        let ghost one = seq![(rid, bytes@)];
        proof {
            lemma_counts(rs);
            assert(more.drop_last() =~= rs);
            assert(one.drop_last() =~= Seq::empty());
            assert(tag_faults(one.drop_last()) =~= Seq::empty());
        }
        match classify_record(bytes) {
            Ok(RecordKind::Tuple) => {
                self.report.tuples = self.report.tuples + 1;
                assert(faults + tag_faults(one) =~= faults);
            },
            Ok(RecordKind::Forward(target)) => {
                self.report.stubs = self.report.stubs + 1;
                self.stubs.push((rid, target));
                assert(faults + tag_faults(one) =~= faults);
            },
            Ok(RecordKind::ForwardTarget) => {
                self.report.targets = self.report.targets + 1;
                self.targets.push(rid);
                assert(faults + tag_faults(one) =~= faults);
            },
            Err(tag) => {
                self.report_fault(Violation::BadRecordTag { rid, tag });
                proof {
                    assert(tag_faults(one) =~= seq![Fault::BadRecordTag { rid, tag }]);
                    assert(faults + tag_faults(one) =~= faults.push(
                        Fault::BadRecordTag { rid, tag },
                    ));
                }
            },
        }
    }

    /// Look at one page.
    fn look_at_page(&mut self, pid: PageId, sp: &SlottedPage, Ghost(rs): Ghost<
        Seq<(Rid, Seq<u8>)>,
    >, Ghost(faults): Ghost<Seq<Fault>>)
        requires
            sp@.len() == PAGE_SIZE,
            found(*old(self), rs, faults, old(self).report.heap_pages as int),
            rs.len() + 0x10000 < 0xFFFF_FFFF_FFFF,
            old(self).report.heap_pages < u32::MAX,
        ensures
            final(self).report.pages == old(self).report.pages,
            found(
                *final(self),
                rs + page_recs(pid, sp@),
                faults + page_faults(pid, sp@),
                old(self).report.heap_pages + if trusted(sp@) {
                    1int
                } else {
                    0
                },
            ),
    {
        proof {
            assert(rs + Seq::<(Rid, Seq<u8>)>::empty() =~= rs);
            assert(faults + Seq::<Fault>::empty() =~= faults);
        }
        if !sp.verify_checksum() {
            self.report_fault(Violation::BadChecksum { page: pid });
            proof {
                assert(faults + seq![Fault::BadChecksum { page: pid }] =~= faults.push(
                    Fault::BadChecksum { page: pid },
                ));
            }
            return;
        }
        let heap: bool = match sp.page_type() {
            Some(PageType::Heap) => true,
            _ => false,
        };
        if !heap {
            return;
        }
        if let Err(e) = sp.validate_structure() {
            let why: String = e.text();
            let ghost f = Fault::BadStructure { page: pid, why: why@ };
            self.report_fault(Violation::BadStructure { page: pid, why });
            proof {
                assert(faults + seq![f] =~= faults.push(f));
            }
            return;
        }
        self.report.heap_pages = self.report.heap_pages + 1;
        let pairs: Vec<(SlotId, Vec<u8>)> = sp.iter();
        let ghost live = live_pairs(tuples_of(sp@));
        let ghost recs = page_recs(pid, sp@);
        let ghost heap_pages = self.report.heap_pages as int;
        proof {
            lemma_pairs_len(tuples_of(sp@));
            assert(recs.take(0) =~= Seq::empty());
            assert(rs + recs.take(0) =~= rs);
            assert(tag_faults(recs.take(0)) =~= Seq::empty());
            assert(faults + tag_faults(recs.take(0)) =~= faults);
        }
        let mut i: usize = 0;
        while i < pairs.len()
            invariant
                i <= pairs@.len() == live.len(),
                live.len() <= 0x10000,
                rs.len() + 0x10000 < 0xFFFF_FFFF_FFFF,
                pairs@.map_values(|p: (SlotId, Vec<u8>)| (p.0, p.1@)) == live,
                recs == live.map_values(
                    |x: (SlotId, Seq<u8>)| (Rid { page: pid, slot: x.0 }, x.1),
                ),
                self.report.heap_pages == heap_pages,
                self.report.pages == old(self).report.pages,
                found(
                    *self,
                    rs + recs.take(i as int),
                    faults + tag_faults(recs.take(i as int)),
                    heap_pages,
                ),
            decreases pairs@.len() - i,
        {
            let rid: Rid = Rid::new(pid, pairs[i].0);
            let ghost x = (rid, pairs@[i as int].1@);
            proof {
                assert(live[i as int] == (pairs@[i as int].0, pairs@[i as int].1@));
                assert(recs[i as int] == x);
                assert((rs + recs.take(i as int)).push(x) =~= rs + recs.take(i + 1));
                assert(recs.take(i + 1) =~= recs.take(i as int) + seq![x]);
                lemma_tag_faults_add(recs.take(i as int), seq![x]);
                assert(faults + tag_faults(recs.take(i + 1)) =~= faults + tag_faults(
                    recs.take(i as int),
                ) + tag_faults(seq![x]));
            }
            self.look(
                rid,
                pairs[i].1.as_slice(),
                Ghost(rs + recs.take(i as int)),
                Ghost(faults + tag_faults(recs.take(i as int))),
            );
            i = i + 1;
        }
        proof {
            assert(recs.take(i as int) =~= recs);
        }
    }
}

/// A number for a record address.
spec fn code_of(r: Rid) -> u64 {
    (r.page * 0x10000 + r.slot) as u64
}

proof fn lemma_code(a: Rid, b: Rid)
    requires
        code_of(a) == code_of(b),
    ensures
        a == b,
{
}

fn code(r: Rid) -> (k: u64)
    ensures
        k == code_of(r),
{
    r.page as u64 * 0x10000 + r.slot as u64
}

/// `refs` holds for each target the stubs among `stubs` that point at it.
spec fn linked(refs: Map<u64, Vec<Rid>>, targets: Seq<Rid>, stubs: Seq<(Rid, Rid)>) -> bool {
    &&& forall|t: Rid| #[trigger] refs.dom().contains(code_of(t)) <==> targets.contains(t)
    &&& forall|t: Rid|
        targets.contains(t) ==> (#[trigger] refs[code_of(t)])@ == refs_of(stubs, t)
}

impl Findings {
    /// A place for the stubs of each target.
    fn places(&self) -> (refs: HashMap<u64, Vec<Rid>>)
        ensures
            linked(refs@, self.targets@, Seq::empty()),
    {
        broadcast use vstd::std_specs::hash::group_hash_axioms;

        let mut refs: HashMap<u64, Vec<Rid>> = HashMap::new();
        let ghost ts = self.targets@;
        let mut i: usize = 0;
        assert(ts.take(0) =~= Seq::empty());
        while i < self.targets.len()
            invariant
                i <= ts.len(),
                ts == self.targets@,
                linked(refs@, ts.take(i as int), Seq::empty()),
            decreases ts.len() - i,
        {
            let ghost was = refs@;
            let t: Rid = self.targets[i];
            refs.insert(code(t), Vec::new());
            proof {
                let a = ts.take(i as int);
                let b = ts.take(i + 1);
                assert(b =~= a.push(t));
                assert forall|r: Rid| #[trigger] refs@.dom().contains(code_of(r))
                    <==> b.contains(r) by {
                    if b.contains(r) && r != t {
                        let k = b.index_of(r);
                        assert(a[k] == r);
                    }
                    if a.contains(r) {
                        let k = a.index_of(r);
                        assert(b[k] == r);
                    }
                    assert(b[i as int] == t);
                    if code_of(r) == code_of(t) {
                        lemma_code(r, t);
                    }
                    assert(was.dom().contains(code_of(r)) <==> a.contains(r));
                }
                assert forall|r: Rid| b.contains(r) implies (#[trigger] refs@[code_of(r)])@
                    == refs_of(Seq::empty(), r) by {
                    if code_of(r) == code_of(t) {
                        lemma_code(r, t);
                    } else {
                        let k = b.index_of(r);
                        assert(a[k] == r);
                        assert(was[code_of(r)]@ == refs_of(Seq::empty(), r));
                    }
                }
            }
            i = i + 1;
        }
        assert(ts.take(i as int) =~= ts);
        refs
    }

    /// Every stub must point at a target, and exactly one at each.
    fn link(&mut self)
        ensures
            *final(self) == (Findings { report: final(self).report, ..*old(self) }),
            final(self).report == (CheckReport {
                violations: final(self).report.violations,
                ..old(self).report
            }),
            said(final(self).report.violations@) == said(old(self).report.violations@) + dangling(
                old(self).stubs@,
                old(self).targets@,
            ) + target_faults(old(self).targets@, old(self).stubs@),
    {
        broadcast use vstd::std_specs::hash::group_hash_axioms;

        let ghost start = said(self.report.violations@);
        let ghost ss = self.stubs@;
        let ghost ts = self.targets@;
        let mut refs: HashMap<u64, Vec<Rid>> = self.places();
        let mut i: usize = 0;
        proof {
            assert(ss.take(0) =~= Seq::empty());
            assert(start + dangling(ss.take(0), ts) =~= start);
        }
        while i < self.stubs.len()
            invariant
                i <= ss.len(),
                *self == (Findings { report: self.report, ..*old(self) }),
                self.report == (CheckReport { violations: self.report.violations, ..old(self).report }),
                ss == self.stubs@,
                ts == self.targets@,
                linked(refs@, ts, ss.take(i as int)),
                said(self.report.violations@) == start + dangling(ss.take(i as int), ts),
            decreases ss.len() - i,
        {
            let ghost was = refs@;
            let (stub, target): (Rid, Rid) = self.stubs[i];
            let k: u64 = code(target);
            let ghost a = ss.take(i as int);
            let ghost b = ss.take(i + 1);
            proof {
                assert(b.drop_last() =~= a);
                assert(b.last() == (stub, target));
            }
            match refs.remove(&k) {
                None => {
                    self.report_fault(Violation::DanglingForward { stub, target });
                    proof {
                        let f = Fault::DanglingForward { stub, target };
                        assert((start + dangling(a, ts)).push(f) =~= start + dangling(b, ts));
                        assert(refs@ =~= was);
                        assert(!was.dom().contains(code_of(target)));
                        assert forall|t: Rid| ts.contains(t) implies (
                        #[trigger] refs@[code_of(t)])@ == refs_of(b, t) by {
                            assert(was[code_of(t)]@ == refs_of(a, t));
                        }
                    }
                },
                Some(mut v) => {
                    let ghost before = v@;
                    v.push(stub);
                    let ghost pushed = v@;
                    refs.insert(k, v);
                    proof {
                        assert(was.dom().contains(code_of(target)));
                        assert(was[code_of(target)]@ == refs_of(a, target));
                        assert forall|t: Rid| #[trigger] refs@.dom().contains(code_of(t))
                            <==> ts.contains(t) by {
                            assert(was.dom().contains(code_of(t)) <==> ts.contains(t));
                        }
                        assert forall|t: Rid| ts.contains(t) implies (
                        #[trigger] refs@[code_of(t)])@ == refs_of(b, t) by {
                            assert(was[code_of(t)]@ == refs_of(a, t));
                            if code_of(t) == k {
                                lemma_code(t, target);
                            }
                        }
                    }
                },
            }
            i = i + 1;
        }
        proof {
            assert(ss.take(i as int) =~= ss);
        }
        let ghost mid = start + dangling(ss, ts);
        let mut j: usize = 0;
        proof {
            assert(ts.take(0) =~= Seq::empty());
            assert(mid + target_faults(ts.take(0), ss) =~= mid);
        }
        while j < self.targets.len()
            invariant
                j <= ts.len(),
                *self == (Findings { report: self.report, ..*old(self) }),
                self.report == (CheckReport { violations: self.report.violations, ..old(self).report }),
                ss == self.stubs@,
                ts == self.targets@,
                linked(refs@, ts, ss),
                said(self.report.violations@) == mid + target_faults(ts.take(j as int), ss),
            decreases ts.len() - j,
        {
            let target: Rid = self.targets[j];
            let ghost a = ts.take(j as int);
            let ghost b = ts.take(j + 1);
            proof {
                assert(b.drop_last() =~= a);
                assert(b.last() == target);
                assert(ts[j as int] == target);
                assert(ts.contains(target));
                assert(refs@.dom().contains(code_of(target)));
            }
            let k: u64 = code(target);
            if let Some(v) = refs.get(&k) {
                assert(v@ == refs_of(ss, target));
                let n: usize = v.len();
                if n == 0 {
                    self.report_fault(Violation::OrphanTarget { target });
                    proof {
                        let f = Fault::OrphanTarget { target };
                        assert((mid + target_faults(a, ss)).push(f) =~= mid + target_faults(b, ss));
                    }
                } else if n > 1 {
                    let stubs: Vec<Rid> = copy_rids(v);
                    let ghost f = Fault::DoublyReferencedTarget { target, stubs: stubs@ };
                    self.report_fault(Violation::DoublyReferencedTarget { target, stubs });
                    proof {
                        assert((mid + target_faults(a, ss)).push(f) =~= mid + target_faults(b, ss));
                    }
                }
            }
            j = j + 1;
        }
        proof {
            assert(ts.take(j as int) =~= ts);
        }
    }
}

fn copy_rids(v: &Vec<Rid>) -> (r: Vec<Rid>)
    ensures
        r@ == v@,
{
    let mut r: Vec<Rid> = Vec::new();
    let mut i: usize = 0;
    while i < v.len()
        invariant
            i <= v@.len(),
            r@ == v@.take(i as int),
        decreases v@.len() - i,
    {
        r.push(v[i]);
        i = i + 1;
        assert(r@ =~= v@.take(i as int));
    }
    assert(v@.take(i as int) =~= v@);
    r
}

proof fn lemma_truncated(x: u64)
    ensures
        (x as u32) <= x,
{
    assert((x as u32) <= x) by (bit_vector);
}

/// Validate an entire data file. A page whose checksum fails is reported and never
/// looked into.
pub fn check_file<F: BlockFile>(file: &mut F) -> (r: Result<CheckReport, IoError>)
    ensures
        final(file).image() == old(file).image(),
        final(file).reliable() == old(file).reliable(),
        r matches Ok(rep) ==> reports(rep, old(file).image()),
        r is Err ==> !old(file).reliable(),
{
    let ghost image = file.image();
    let size: u64 = match file.size() {
        Ok(n) => n,
        Err(e) => {
            return Err(e);
        },
    };
    let mut f: Findings = Findings {
        report: CheckReport::default(),
        stubs: Vec::new(),
        targets: Vec::new(),
    };
    let ghost mut ragged: Seq<Fault> = Seq::empty();
    assert(said(f.report.violations@) =~= ragged);
    if size % (PAGE_SIZE as u64) != 0 {
        f.report_fault(Violation::RaggedFile { bytes: size });
        proof {
            assert(ragged.push(Fault::RaggedFile { bytes: size }) =~= seq![
                Fault::RaggedFile { bytes: size },
            ]);
            ragged = seq![Fault::RaggedFile { bytes: size }];
        }
    }
    let npages: u32 = (size / (PAGE_SIZE as u64)) as u32;
    f.report.pages = npages;
    let mut buf: Vec<u8> = vec![0u8;PAGE_SIZE];
    let mut pid: PageId = 0;
    proof {
        assert(ragged + faults_to(image, 0) =~= ragged);
        lemma_truncated((size / (PAGE_SIZE as u64)) as u64);
    }
    while pid < npages
        invariant
            pid <= npages,
            npages <= size / 8192,
            size == image.len(),
            image == old(file).image(),
            file.image() == image,
            file.reliable() == old(file).reliable(),
            buf@.len() == PAGE_SIZE,
            f.report.pages == npages,
            f.report.heap_pages <= pid,
            found(
                f,
                recs_to(image, pid as int),
                ragged + faults_to(image, pid as int),
                heap_pages_to(image, pid as int),
            ),
        decreases npages - pid,
    {
        match file.read_at(&mut buf, page_offset(pid)) {
            Ok(()) => {},
            Err(e) => {
                return Err(e);
            },
        }
        let sp: SlottedPage = SlottedPage::from_bytes(PageBuf::from_vec(buf));
        proof {
            assert(sp@ =~= page_at(image, pid));
            lemma_recs_len(image, pid as int);
            assert(ragged + faults_to(image, pid + 1) =~= ragged + faults_to(image, pid as int)
                + page_faults(pid, sp@));
        }
        f.look_at_page(
            pid,
            &sp,
            Ghost(recs_to(image, pid as int)),
            Ghost(ragged + faults_to(image, pid as int)),
        );
        buf = sp.into_bytes().into_vec();
        pid = pid + 1;
    }
    f.link();
    Ok(f.report)
}

// ---- laws ----

/// Every invariant that the check looks at.
pub open spec fn sound_file(image: Seq<u8>) -> bool {
    let n = whole_pages(image) as int;
    let rs = recs_to(image, n);
    let stubs = stubs_of(rs);
    let targets = targets_of(rs);
    &&& image.len() as int % PAGE_SIZE as int == 0
    &&& forall|p: PageId| #![trigger page_at(image, p)]
        p < n ==> checksum_ok(page_at(image, p)) && (is_heap_page(page_at(image, p))
            ==> structure_ok(page_at(image, p)))
    &&& forall|i: int| 0 <= i < rs.len() ==> record_kind((#[trigger] rs[i]).1) is Ok
    &&& forall|i: int| 0 <= i < stubs.len() ==> targets.contains((#[trigger] stubs[i]).1)
    &&& forall|i: int| 0 <= i < targets.len() ==> refs_of(stubs, #[trigger] targets[i]).len() == 1
}

proof fn lemma_no_tag_faults(rs: Seq<(Rid, Seq<u8>)>)
    ensures
        tag_faults(rs).len() == 0 <==> forall|i: int|
            0 <= i < rs.len() ==> record_kind((#[trigger] rs[i]).1) is Ok,
    decreases rs.len(),
{
    if rs.len() > 0 {
        let init = rs.drop_last();
        lemma_no_tag_faults(init);
        assert(forall|i: int| 0 <= i < init.len() ==> init[i] == rs[i]);
        if tag_faults(rs).len() == 0 {
            assert forall|i: int| 0 <= i < rs.len() implies record_kind((#[trigger] rs[i]).1) is Ok by {
                if i < init.len() {
                    assert(record_kind(init[i].1) is Ok);
                }
            }
        }
        if forall|i: int| 0 <= i < rs.len() ==> record_kind((#[trigger] rs[i]).1) is Ok {
            assert forall|i: int| 0 <= i < init.len() implies record_kind(
                (#[trigger] init[i]).1,
            ) is Ok by {
                assert(init[i] == rs[i]);
            }
            assert(record_kind(rs[rs.len() - 1].1) is Ok);
        }
    }
}

spec fn pages_ok(image: Seq<u8>, n: int) -> bool {
    forall|p: PageId| #![trigger page_at(image, p)]
        p < n ==> checksum_ok(page_at(image, p)) && (is_heap_page(page_at(image, p))
            ==> structure_ok(page_at(image, p)))
}

proof fn lemma_no_page_faults(image: Seq<u8>, n: int)
    requires
        0 <= n <= u32::MAX,
    ensures
        faults_to(image, n).len() == 0 <==> pages_ok(image, n) && forall|i: int|
            0 <= i < recs_to(image, n).len() ==> record_kind(
                (#[trigger] recs_to(image, n)[i]).1,
            ) is Ok,
    decreases n,
{
    if n > 0 {
        lemma_no_page_faults(image, n - 1);
        let q = (n - 1) as PageId;
        let b = page_at(image, q);
        let a = recs_to(image, n - 1);
        let z = page_recs(q, b);
        let rs = recs_to(image, n);
        lemma_no_tag_faults(z);
        assert(rs == a + z);
        if faults_to(image, n).len() == 0 {
            assert(faults_to(image, n - 1).len() == 0 && page_faults(q, b).len() == 0);
            assert(pages_ok(image, n - 1));
            assert forall|p: PageId| p < n implies checksum_ok(#[trigger] page_at(image, p)) && (
            is_heap_page(page_at(image, p)) ==> structure_ok(page_at(image, p))) by {
                if p < n - 1 {
                } else {
                    assert(p == q);
                }
            }
            assert forall|i: int| 0 <= i < rs.len() implies record_kind((#[trigger] rs[i]).1) is Ok by {
                if i < a.len() {
                    assert(rs[i] == a[i]);
                } else {
                    assert(rs[i] == z[i - a.len()]);
                }
            }
        }
        if pages_ok(image, n) && forall|i: int|
            0 <= i < rs.len() ==> record_kind((#[trigger] rs[i]).1) is Ok {
            assert(checksum_ok(b));
            assert(pages_ok(image, n - 1));
            assert forall|i: int| 0 <= i < a.len() implies record_kind((#[trigger] a[i]).1) is Ok by {
                assert(rs[i] == a[i]);
            }
            assert forall|i: int| 0 <= i < z.len() implies record_kind((#[trigger] z[i]).1) is Ok by {
                assert(rs[a.len() + i] == z[i]);
            }
        }
    }
}

proof fn lemma_no_dangling(stubs: Seq<(Rid, Rid)>, targets: Seq<Rid>)
    ensures
        dangling(stubs, targets).len() == 0 <==> forall|i: int|
            0 <= i < stubs.len() ==> targets.contains((#[trigger] stubs[i]).1),
    decreases stubs.len(),
{
    if stubs.len() > 0 {
        let init = stubs.drop_last();
        lemma_no_dangling(init, targets);
        if dangling(stubs, targets).len() == 0 {
            assert forall|i: int| 0 <= i < stubs.len() implies targets.contains(
                (#[trigger] stubs[i]).1,
            ) by {
                if i < init.len() {
                    assert(init[i] == stubs[i]);
                }
            }
        }
        if forall|i: int| 0 <= i < stubs.len() ==> targets.contains((#[trigger] stubs[i]).1) {
            assert forall|i: int| 0 <= i < init.len() implies targets.contains(
                (#[trigger] init[i]).1,
            ) by {
                assert(init[i] == stubs[i]);
            }
            assert(targets.contains(stubs[stubs.len() - 1].1));
        }
    }
}

proof fn lemma_no_target_faults(targets: Seq<Rid>, stubs: Seq<(Rid, Rid)>)
    ensures
        target_faults(targets, stubs).len() == 0 <==> forall|i: int|
            0 <= i < targets.len() ==> refs_of(stubs, #[trigger] targets[i]).len() == 1,
    decreases targets.len(),
{
    if targets.len() > 0 {
        let init = targets.drop_last();
        lemma_no_target_faults(init, stubs);
        if target_faults(targets, stubs).len() == 0 {
            assert forall|i: int| 0 <= i < targets.len() implies refs_of(
                stubs,
                #[trigger] targets[i],
            ).len() == 1 by {
                if i < init.len() {
                    assert(init[i] == targets[i]);
                }
            }
        }
        if forall|i: int| 0 <= i < targets.len() ==> refs_of(stubs, #[trigger] targets[i]).len() == 1 {
            assert forall|i: int| 0 <= i < init.len() implies refs_of(
                stubs,
                #[trigger] init[i],
            ).len() == 1 by {
                assert(init[i] == targets[i]);
            }
            assert(refs_of(stubs, targets[targets.len() - 1]).len() == 1);
        }
    }
}

/// A check finds nothing exactly when every invariant holds.
pub proof fn law_clean_check_iff_sound(image: Seq<u8>)
    ensures
        faults_of(image).len() == 0 <==> sound_file(image),
{
    let n = whole_pages(image) as int;
    let rs = recs_to(image, n);
    lemma_no_page_faults(image, n);
    lemma_no_dangling(stubs_of(rs), targets_of(rs));
    lemma_no_target_faults(targets_of(rs), stubs_of(rs));
    assert(pages_ok(image, n) == forall|p: PageId| #![trigger page_at(image, p)]
        p < n ==> checksum_ok(page_at(image, p)) && (is_heap_page(page_at(image, p))
            ==> structure_ok(page_at(image, p))));
}

proof fn lemma_bad_checksum(image: Seq<u8>, n: int, p: PageId)
    requires
        0 <= n <= u32::MAX,
        p < n,
        !checksum_ok(page_at(image, p)),
    ensures
        faults_to(image, n).contains(Fault::BadChecksum { page: p }),
    decreases n,
{
    let f = Fault::BadChecksum { page: p };
    let a = faults_to(image, n - 1);
    let z = page_faults((n - 1) as PageId, page_at(image, (n - 1) as PageId));
    if p == n - 1 {
        assert(z[0] == f);
        assert((a + z)[a.len() as int] == f);
    } else {
        lemma_bad_checksum(image, n - 1, p);
        let k = a.index_of(f);
        assert((a + z)[k] == f);
    }
}

/// A page whose checksum does not match is always reported.
pub proof fn law_bad_checksums_are_reported(image: Seq<u8>, p: PageId)
    requires
        p < whole_pages(image),
        !checksum_ok(page_at(image, p)),
    ensures
        faults_of(image).contains(Fault::BadChecksum { page: p }),
{
    let n = whole_pages(image) as int;
    let rs = recs_to(image, n);
    lemma_bad_checksum(image, n, p);
    let f = Fault::BadChecksum { page: p };
    let ragged: Seq<Fault> = if image.len() as int % PAGE_SIZE as int != 0 {
        seq![Fault::RaggedFile { bytes: image.len() as u64 }]
    } else {
        Seq::empty()
    };
    let k = faults_to(image, n).index_of(f);
    assert(faults_of(image)[ragged.len() + k] == f);
}

} // verus!
