//! A disk that loses power: writes that were not synced may be dropped, torn at
//! sector boundaries, or applied in another order.
//!
//! Chance stays outside: a crash is told the order in which the pending writes
//! reach the platter and the fate of each.

use vstd::prelude::*;

use crate::bytes::{copy_bytes, write_bytes};
use crate::vfs::{index_of, overwritten, put_at, resized, BlockFile, IoError};

verus! {

pub const SECTOR: usize = 512;

/// A write that was not synced yet.
#[derive(Debug)]
pub struct WriteOp {
    pub offset: u64,
    pub data: Vec<u8>,
}

/// What a write is.
pub ghost struct OpView {
    pub offset: int,
    pub data: Seq<u8>,
}

impl View for WriteOp {
    type V = OpView;

    open spec fn view(&self) -> OpView {
        OpView { offset: self.offset as int, data: self.data@ }
    }
}

pub open spec fn ops_of(ops: Seq<WriteOp>) -> Seq<OpView> {
    ops.map_values(|o: WriteOp| o@)
}

/// What becomes of a pending write when power is lost.
#[derive(Debug)]
pub enum Fate {
    Drop,
    /// Some of its sectors survive: one flag for each sector it touches.
    Tear(Vec<bool>),
    Whole,
}

/// What a fate is.
pub ghost enum FateView {
    Drop,
    Tear(Seq<bool>),
    Whole,
}

impl View for Fate {
    type V = FateView;

    open spec fn view(&self) -> FateView {
        match self {
            Fate::Drop => FateView::Drop,
            Fate::Tear(k) => FateView::Tear(k@),
            Fate::Whole => FateView::Whole,
        }
    }
}

pub open spec fn fates_of(fs: Seq<Fate>) -> Seq<FateView> {
    fs.map_values(|f: Fate| f@)
}

/// What a crash did.
#[derive(Clone, Copy, Debug, PartialEq, Eq, Structural)]
pub struct CrashReport {
    pub pending_ops: usize,
    pub fully_applied: usize,
    pub torn: usize,
    pub dropped: usize,
    pub torn_sectors_kept: usize,
    pub torn_sectors_lost: usize,
}

impl Default for CrashReport {
    fn default() -> (r: CrashReport)
        ensures
            r == (CrashReport {
                pending_ops: 0,
                fully_applied: 0,
                torn: 0,
                dropped: 0,
                torn_sectors_kept: 0,
                torn_sectors_lost: 0,
            }),
    {
        CrashReport {
            pending_ops: 0,
            fully_applied: 0,
            torn: 0,
            dropped: 0,
            torn_sectors_kept: 0,
            torn_sectors_lost: 0,
        }
    }
}

/// What the disk was asked to do.
#[derive(Clone, Copy, Debug, PartialEq, Eq, Structural)]
pub struct Counters {
    pub reads: u64,
    pub writes: u64,
    pub bytes_written: u64,
    pub syncs: u64,
    pub crashes: u64,
    pub writes_since_sync: u64,
}

impl Default for Counters {
    fn default() -> (c: Counters)
        ensures
            c == (Counters {
                reads: 0,
                writes: 0,
                bytes_written: 0,
                syncs: 0,
                crashes: 0,
                writes_since_sync: 0,
            }),
    {
        Counters { reads: 0, writes: 0, bytes_written: 0, syncs: 0, crashes: 0, writes_since_sync: 0 }
    }
}

/// How many sectors a write touches.
pub open spec fn sectors(op: OpView, sector: int) -> int {
    (op.offset + op.data.len() - 1) / sector - op.offset / sector + 1
}

/// Where the part of the write that lies in its `k`-th sector begins.
pub open spec fn part_lo(op: OpView, sector: int, k: int) -> int {
    let s = (op.offset / sector + k) * sector;
    if op.offset > s {
        op.offset
    } else {
        s
    }
}

/// Where it ends.
pub open spec fn part_hi(op: OpView, sector: int, k: int) -> int {
    let e = (op.offset / sector + k + 1) * sector;
    if op.offset + op.data.len() < e {
        op.offset + op.data.len()
    } else {
        e
    }
}

/// The image after the first `n` sectors of a torn write met their fate.
pub open spec fn torn(image: Seq<u8>, op: OpView, sector: int, keeps: Seq<bool>, n: int) -> Seq<u8>
    decreases n,
{
    if n <= 0 {
        image
    } else {
        let before = torn(image, op, sector, keeps, n - 1);
        if keeps[n - 1] {
            let lo = part_lo(op, sector, n - 1);
            let hi = part_hi(op, sector, n - 1);
            overwritten(before, lo, op.data.subrange(lo - op.offset, hi - op.offset))
        } else {
            before
        }
    }
}

/// The image after one pending write met its fate.
pub open spec fn settled(image: Seq<u8>, op: OpView, fate: FateView, sector: int) -> Seq<u8> {
    match fate {
        FateView::Drop => image,
        FateView::Whole => overwritten(image, op.offset, op.data),
        FateView::Tear(keeps) => torn(image, op, sector, keeps, keeps.len() as int),
    }
}

/// The image after the first `n` pending writes, in the given order, met their
/// fates.
pub open spec fn crash_image(
    durable: Seq<u8>,
    ops: Seq<OpView>,
    order: Seq<usize>,
    fates: Seq<FateView>,
    sector: int,
    n: int,
) -> Seq<u8>
    decreases n,
{
    if n <= 0 {
        durable
    } else {
        settled(
            crash_image(durable, ops, order, fates, sector, n - 1),
            ops[order[n - 1] as int],
            fates[n - 1],
            sector,
        )
    }
}

/// The image after all pending writes, in order.
pub open spec fn replayed(durable: Seq<u8>, ops: Seq<OpView>) -> Seq<u8>
    decreases ops.len(),
{
    if ops.len() == 0 {
        durable
    } else {
        overwritten(replayed(durable, ops.drop_last()), ops.last().offset, ops.last().data)
    }
}

pub open spec fn flags_set(keeps: Seq<bool>) -> nat
    decreases keeps.len(),
{
    if keeps.len() == 0 {
        0
    } else {
        flags_set(keeps.drop_last()) + if keeps.last() {
            1nat
        } else {
            0nat
        }
    }
}

/// How the fates add up: dropped, torn, whole, sectors kept, sectors lost.
pub open spec fn tally(fates: Seq<FateView>) -> (nat, nat, nat, nat, nat)
    decreases fates.len(),
{
    if fates.len() == 0 {
        (0, 0, 0, 0, 0)
    } else {
        let t = tally(fates.drop_last());
        match fates.last() {
            FateView::Drop => (t.0 + 1, t.1, t.2, t.3, t.4),
            FateView::Tear(k) => (
                t.0,
                t.1 + 1,
                t.2,
                t.3 + flags_set(k),
                (t.4 + (k.len() - flags_set(k))) as nat,
            ),
            FateView::Whole => (t.0, t.1, t.2 + 1, t.3, t.4),
        }
    }
}

proof fn lemma_flags_set(keeps: Seq<bool>)
    ensures
        flags_set(keeps) <= keeps.len(),
    decreases keeps.len(),
{
    if keeps.len() > 0 {
        lemma_flags_set(keeps.drop_last());
    }
}

proof fn lemma_tally(fates: Seq<FateView>)
    ensures
        tally(fates).0 + tally(fates).1 + tally(fates).2 == fates.len(),
    decreases fates.len(),
{
    if fates.len() > 0 {
        lemma_tally(fates.drop_last());
    }
}

proof fn lemma_tally_prefix(fates: Seq<FateView>, i: int, n: int)
    requires
        0 <= i <= n <= fates.len(),
    ensures
        tally(fates.take(i)).3 <= tally(fates.take(n)).3,
        tally(fates.take(i)).4 <= tally(fates.take(n)).4,
    decreases n,
{
    if i < n {
        lemma_tally_prefix(fates, i, n - 1);
        assert(fates.take(n).drop_last() =~= fates.take(n - 1));
        if let FateView::Tear(k) = fates[n - 1] {
            lemma_flags_set(k);
        }
    }
}

/// A crash can be carried out: every pending write is met once, and a torn one
/// has a flag for each sector.
pub open spec fn plan_ok(
    ops: Seq<OpView>,
    order: Seq<usize>,
    fates: Seq<FateView>,
    sector: int,
) -> bool {
    &&& order.len() == ops.len()
    &&& fates.len() == ops.len()
    &&& order.no_duplicates()
    &&& forall|j: int| 0 <= j < order.len() ==> #[trigger] order[j] < ops.len()
    &&& forall|j: int|
        0 <= j < fates.len() ==> match #[trigger] fates[j] {
            FateView::Tear(k) => ops[order[j] as int].data.len() > 0 && k.len() == sectors(
                ops[order[j] as int],
                sector,
            ),
            _ => true,
        }
    &&& tally(fates).3 <= usize::MAX
    &&& tally(fates).4 <= usize::MAX
}

/// A disk with a durable image, a live image, and the writes between them.
pub struct FaultDisk {
    pub durable: Vec<u8>,
    pub live: Vec<u8>,
    pub pending: Vec<WriteOp>,
    pub sector: usize,
    pub counters: Counters,
}

impl FaultDisk {
    /// Every pending write lies in range.
    pub open spec fn wf(&self) -> bool {
        &&& self.sector > 0
        &&& forall|i: int|
            0 <= i < self.pending@.len() ==> (#[trigger] self.pending@[i]).offset
                + self.pending@[i].data@.len() <= usize::MAX
    }

    /// The live image is the durable one with the pending writes on top.
    pub open spec fn faithful(&self) -> bool {
        self.live@ == replayed(self.durable@, ops_of(self.pending@))
    }

    /// An empty disk.
    pub fn new(sector: usize) -> (d: FaultDisk)
        requires
            sector > 0,
        ensures
            d.wf(),
            d.faithful(),
            d.image() == Seq::<u8>::empty(),
            d.durable@ == Seq::<u8>::empty(),
            d.pending@.len() == 0,
            d.sector == sector,
    {
        FaultDisk {
            durable: Vec::new(),
            live: Vec::new(),
            pending: Vec::new(),
            sector,
            counters: Counters::default(),
        }
    }

    /// A disk that durably holds `image`.
    pub fn from_image(sector: usize, image: Vec<u8>) -> (d: FaultDisk)
        requires
            sector > 0,
        ensures
            d.wf(),
            d.faithful(),
            d.image() == image@,
            d.durable@ == image@,
            d.pending@.len() == 0,
            d.sector == sector,
    {
        FaultDisk {
            durable: copy_bytes(image.as_slice()),
            live: image,
            pending: Vec::new(),
            sector,
            counters: Counters::default(),
        }
    }

    pub fn counters(&self) -> (c: Counters)
        ensures
            c == self.counters,
    {
        self.counters
    }

    pub fn pending_writes(&self) -> (n: usize)
        ensures
            n == self.pending@.len(),
    {
        self.pending.len()
    }

    pub fn durable_image(&self) -> (v: Vec<u8>)
        ensures
            v@ == self.durable@,
    {
        copy_bytes(self.durable.as_slice())
    }

    pub fn live_image(&self) -> (v: Vec<u8>)
        ensures
            v@ == self.live@,
    {
        copy_bytes(self.live.as_slice())
    }

    /// Lose power. The pending writes meet their fates in the given order; what
    /// results is both the durable and the live image.
    pub fn crash(&mut self, order: &Vec<usize>, fates: &Vec<Fate>) -> (report: CrashReport)
        requires
            old(self).wf(),
            plan_ok(ops_of(old(self).pending@), order@, fates_of(fates@), old(self).sector as int),
        ensures
            final(self).wf(),
            final(self).faithful(),
            final(self).sector == old(self).sector,
            final(self).pending@.len() == 0,
            final(self).live@ == final(self).durable@,
            final(self).durable@ == crash_image(
                old(self).durable@,
                ops_of(old(self).pending@),
                order@,
                fates_of(fates@),
                old(self).sector as int,
                order@.len() as int,
            ),
            final(self).counters == (Counters {
                crashes: old(self).counters.crashes.wrapping_add(1),
                writes_since_sync: 0,
                ..old(self).counters
            }),
            report.pending_ops == old(self).pending@.len(),
            ({
                let t = tally(fates_of(fates@));
                &&& report.dropped == t.0
                &&& report.torn == t.1
                &&& report.fully_applied == t.2
                &&& report.torn_sectors_kept == t.3
                &&& report.torn_sectors_lost == t.4
            }),
    {
        self.counters.crashes = self.counters.crashes.wrapping_add(1);
        let ghost ops = ops_of(self.pending@);
        let ghost fs = fates_of(fates@);
        let mut image: Vec<u8> = copy_bytes(self.durable.as_slice());
        let n: usize = self.pending.len();
        let mut report: CrashReport = CrashReport::default();
        report.pending_ops = n;
        let mut j: usize = 0;
        assert(fs.take(n as int) =~= fs);
        while j < n
            invariant
                j <= n == self.pending@.len(),
                n == order@.len(),
                self.wf(),
                self.sector == old(self).sector,
                self.durable@ == old(self).durable@,
                self.pending@ == old(self).pending@,
                ops == ops_of(self.pending@),
                fs == fates_of(fates@),
                fs.take(n as int) == fs,
                plan_ok(ops, order@, fs, self.sector as int),
                image@ == crash_image(
                    self.durable@,
                    ops,
                    order@,
                    fs,
                    self.sector as int,
                    j as int,
                ),
                report.pending_ops == n,
                report.dropped == tally(fs.take(j as int)).0,
                report.torn == tally(fs.take(j as int)).1,
                report.fully_applied == tally(fs.take(j as int)).2,
                report.torn_sectors_kept == tally(fs.take(j as int)).3,
                report.torn_sectors_lost == tally(fs.take(j as int)).4,
                self.counters == (Counters {
                    crashes: old(self).counters.crashes.wrapping_add(1),
                    ..old(self).counters
                }),
            decreases n - j,
        {
            let at: usize = order[j];
            let op: &WriteOp = &self.pending[at];
            proof {
                assert(ops[at as int] == op@);
                assert(fs[j as int] == fates@[j as int]@);
                assert(fs.take(j + 1).drop_last() =~= fs.take(j as int));
                assert(fs.take(j + 1).last() == fs[j as int]);
                lemma_tally(fs.take(j + 1));
                lemma_tally_prefix(fs, j + 1, n as int);
            }
            match &fates[j] {
                Fate::Drop => {
                    report.dropped = report.dropped + 1;
                },
                Fate::Whole => {
                    report.fully_applied = report.fully_applied + 1;
                    apply_whole(&mut image, op);
                },
                Fate::Tear(keeps) => {
                    report.torn = report.torn + 1;
                    proof {
                        lemma_flags_set(keeps@);
                    }
                    apply_torn(&mut image, op, self.sector, keeps, &mut report);
                },
            }
            j = j + 1;
        }
        self.durable = copy_bytes(image.as_slice());
        self.live = image;
        self.pending = Vec::new();
        self.counters.writes_since_sync = 0;
        assert(ops_of(self.pending@) =~= Seq::<OpView>::empty());
        report
    }
}

/// Apply a pending write whole.
fn apply_whole(image: &mut Vec<u8>, op: &WriteOp)
    requires
        op.offset + op.data@.len() <= usize::MAX,
    ensures
        final(image)@ == overwritten(old(image)@, op.offset as int, op.data@),
{
    put_at(image, op.offset as usize, op.data.as_slice());
}

/// Apply the sectors of a torn write that survive.
fn apply_torn(
    image: &mut Vec<u8>,
    op: &WriteOp,
    sector: usize,
    keeps: &Vec<bool>,
    report: &mut CrashReport,
)
    requires
        sector > 0,
        op.data@.len() > 0,
        op.offset + op.data@.len() <= usize::MAX,
        keeps@.len() == sectors(op@, sector as int),
        old(report).torn_sectors_kept + flags_set(keeps@) <= usize::MAX,
        old(report).torn_sectors_lost + (keeps@.len() - flags_set(keeps@)) <= usize::MAX,
    ensures
        final(image)@ == torn(
            old(image)@,
            op@,
            sector as int,
            keeps@,
            keeps@.len() as int,
        ),
        *final(report) == (CrashReport {
            torn_sectors_kept: (old(report).torn_sectors_kept + flags_set(keeps@)) as usize,
            torn_sectors_lost: (old(report).torn_sectors_lost + (keeps@.len() - flags_set(
                keeps@,
            ))) as usize,
            ..*old(report)
        }),
{
    let start: usize = op.offset as usize;
    let end: usize = start + op.data.len();
    let first: usize = start / sector;
    let n: usize = keeps.len();
    let mut k: usize = 0;
    proof {
        assert(first * sector <= start && first * sector + sector > start) by (nonlinear_arith)
            requires
                first == start / sector,
                sector > 0,
        ;
    }
    let mut sec_start: usize = first * sector;
    proof {
        assert(keeps@.take(n as int) =~= keeps@);
        lemma_flags_set(keeps@);
    }
    while k < n
        invariant
            k <= n == keeps@.len(),
            sector > 0,
            start == op.offset,
            end == start + op.data@.len(),
            start < end,
            first == start / sector,
            n == sectors(op@, sector as int),
            k < n ==> sec_start == (first + k) * sector && sec_start < end,
            k < n ==> sec_start + sector > start,
            image@ == torn(old(image)@, op@, sector as int, keeps@, k as int),
            old(report).torn_sectors_kept + flags_set(keeps@) <= usize::MAX,
            old(report).torn_sectors_lost + (keeps@.len() - flags_set(keeps@)) <= usize::MAX,
            keeps@.take(n as int) == keeps@,
            *report == (CrashReport {
                torn_sectors_kept: (old(report).torn_sectors_kept + flags_set(
                    keeps@.take(k as int),
                )) as usize,
                torn_sectors_lost: (old(report).torn_sectors_lost + (k - flags_set(
                    keeps@.take(k as int),
                ))) as usize,
                ..*old(report)
            }),
        decreases n - k,
    {
        let lo: usize = if start > sec_start {
            start
        } else {
            sec_start
        };
        let hi: usize = if end - sec_start <= sector {
            end
        } else {
            sec_start + sector
        };
        proof {
            assert((first + k + 1) * sector == (first + k) * sector + sector) by (nonlinear_arith);
            assert(lo == part_lo(op@, sector as int, k as int));
            assert(hi == part_hi(op@, sector as int, k as int));
            assert(keeps@.take(k + 1).drop_last() =~= keeps@.take(k as int));
            lemma_flags_set(keeps@.take(k as int));
            lemma_flags_prefix(keeps@, k + 1, n as int);
        }
        if keeps[k] {
            put_at(image, lo, &op.data.as_slice()[lo - start..hi - start]);
            report.torn_sectors_kept = report.torn_sectors_kept + 1;
        } else {
            report.torn_sectors_lost = report.torn_sectors_lost + 1;
        }
        k = k + 1;
        if k < n {
            proof {
                lemma_more_sectors(op@, sector as int, k as int);
            }
            sec_start = sec_start + sector;
        }
    }
}

proof fn lemma_flags_prefix(keeps: Seq<bool>, i: int, n: int)
    requires
        0 <= i <= n <= keeps.len(),
    ensures
        flags_set(keeps.take(i)) <= flags_set(keeps.take(n)),
        i - flags_set(keeps.take(i)) <= n - flags_set(keeps.take(n)),
    decreases n,
{
    if i < n {
        lemma_flags_prefix(keeps, i, n - 1);
        assert(keeps.take(n).drop_last() =~= keeps.take(n - 1));
    }
}

/// A sector that the write touches begins before the write ends.
proof fn lemma_more_sectors(op: OpView, sector: int, k: int)
    requires
        sector > 0,
        op.offset >= 0,
        op.data.len() > 0,
        0 < k < sectors(op, sector),
    ensures
        (op.offset / sector + k) * sector < op.offset + op.data.len(),
        (op.offset / sector + k) * sector > op.offset,
        (op.offset / sector + k) * sector == (op.offset / sector + k - 1) * sector + sector,
{
    let a = op.offset;
    let last = a + op.data.len() - 1;
    let q = a / sector;
    assert(q + k <= last / sector);
    assert((q + k) * sector <= last) by (nonlinear_arith)
        requires
            q + k <= last / sector,
            sector > 0,
            last >= 0,
    ;
    assert((q + k) * sector > a) by (nonlinear_arith)
        requires
            q == a / sector,
            k > 0,
            sector > 0,
            a >= 0,
    ;
    assert((q + k) * sector == (q + k - 1) * sector + sector) by (nonlinear_arith);
}


impl BlockFile for FaultDisk {
    open spec fn image(&self) -> Seq<u8> {
        self.live@
    }

    open spec fn reliable(&self) -> bool {
        true
    }

    open spec fn synced(&self) -> bool {
        self.pending@.len() == 0 && self.durable@ == self.live@
    }

    fn read_at(&mut self, buf: &mut Vec<u8>, offset: u64) -> (r: Result<(), IoError>)
        ensures
            *final(self) == (FaultDisk {
                counters: Counters {
                    reads: old(self).counters.reads.wrapping_add(1),
                    ..old(self).counters
                },
                ..*old(self)
            }),
            r == if offset + old(buf)@.len() > usize::MAX {
                Err::<(), IoError>(IoError::InvalidInput)
            } else if offset + old(buf)@.len() > old(self).live@.len() {
                Err(IoError::UnexpectedEof)
            } else {
                Ok(())
            },
    {
        self.counters.reads = self.counters.reads.wrapping_add(1);
        let n: usize = buf.len();
        let have: usize = self.live.len();
        match index_of(offset) {
            Some(start) => {
                if n > usize::MAX - start {
                    return Err(IoError::InvalidInput);
                }
                if start + n > have {
                    return Err(IoError::UnexpectedEof);
                }
                write_bytes(buf.as_mut_slice(), 0, &self.live.as_slice()[start..start + n]);
                assert(buf@ =~= self.live@.subrange(start as int, start + n));
                Ok(())
            },
            None => Err(IoError::InvalidInput),
        }
    }

    fn write_at(&mut self, buf: &Vec<u8>, offset: u64) -> (r: Result<(), IoError>)
        ensures
            r == if offset + buf@.len() > usize::MAX {
                Err::<(), IoError>(IoError::InvalidInput)
            } else {
                Ok(())
            },
            final(self).sector == old(self).sector,
            final(self).durable == old(self).durable,
            final(self).counters == (Counters {
                writes: old(self).counters.writes.wrapping_add(1),
                writes_since_sync: old(self).counters.writes_since_sync.wrapping_add(1),
                bytes_written: old(self).counters.bytes_written.wrapping_add(buf@.len() as u64),
                ..old(self).counters
            }),
            r is Ok ==> ops_of(final(self).pending@) == ops_of(old(self).pending@).push(
                OpView { offset: offset as int, data: buf@ },
            ),
            r is Err ==> final(self).pending == old(self).pending && final(self).live == old(
                self).live,
            old(self).wf() ==> final(self).wf(),
            old(self).faithful() ==> final(self).faithful(),
    {
        let n: usize = buf.len();
        self.counters.writes = self.counters.writes.wrapping_add(1);
        self.counters.writes_since_sync = self.counters.writes_since_sync.wrapping_add(1);
        self.counters.bytes_written = self.counters.bytes_written.wrapping_add(n as u64);
        match index_of(offset) {
            Some(start) => {
                if n > usize::MAX - start {
                    return Err(IoError::InvalidInput);
                }
                put_at(&mut self.live, start, buf.as_slice());
                self.pending.push(WriteOp { offset, data: copy_bytes(buf.as_slice()) });
                proof {
                    let op = OpView { offset: offset as int, data: buf@ };
                    let ops = ops_of(old(self).pending@);
                    assert(ops_of(self.pending@) =~= ops.push(op));
                    assert(ops.push(op).drop_last() =~= ops);
                }
                Ok(())
            },
            None => Err(IoError::InvalidInput),
        }
    }

    fn sync(&mut self) -> (r: Result<(), IoError>)
        ensures
            r is Ok,
            final(self).durable@ == old(self).live@,
            final(self).pending@.len() == 0,
            final(self).sector == old(self).sector,
            final(self).counters == (Counters {
                syncs: old(self).counters.syncs.wrapping_add(1),
                writes_since_sync: 0,
                ..old(self).counters
            }),
            old(self).wf() ==> final(self).wf(),
            final(self).faithful(),
    {
        self.counters.syncs = self.counters.syncs.wrapping_add(1);
        self.counters.writes_since_sync = 0;
        self.durable = copy_bytes(self.live.as_slice());
        self.pending = Vec::new();
        assert(ops_of(self.pending@) =~= Seq::<OpView>::empty());
        Ok(())
    }

    fn size(&mut self) -> (r: Result<u64, IoError>)
        ensures
            *final(self) == *old(self),
    {
        Ok(self.live.len() as u64)
    }

    /// The new length is live at once but, like a write, not durable until a sync.
    fn set_len(&mut self, len: u64) -> (r: Result<(), IoError>)
        ensures
            r is Ok <==> len <= usize::MAX,
            final(self).durable == old(self).durable,
            final(self).pending == old(self).pending,
            final(self).counters == old(self).counters,
            old(self).wf() ==> final(self).wf(),
    {
        match index_of(len) {
            Some(n) => {
                self.live.resize(n, 0);
                assert(self.live@ =~= resized(old(self).live@, len as int));
                Ok(())
            },
            None => Err(IoError::InvalidInput),
        }
    }
}

/// Synced writes survive: with nothing pending, a crash changes nothing.
pub proof fn law_synced_writes_survive(
    durable: Seq<u8>,
    ops: Seq<OpView>,
    order: Seq<usize>,
    fates: Seq<FateView>,
    sector: int,
)
    requires
        ops.len() == 0,
        plan_ok(ops, order, fates, sector),
    ensures
        crash_image(durable, ops, order, fates, sector, order.len() as int) == durable,
{
}

/// What was synced survives: whatever fates a crash deals out, a disk with nothing
/// pending holds afterwards what it held before.
pub proof fn law_synced_disk_survives_a_crash(
    disk: &FaultDisk,
    order: Seq<usize>,
    fates: Seq<FateView>,
)
    requires
        disk.synced(),
        plan_ok(ops_of(disk.pending@), order, fates, disk.sector as int),
    ensures
        crash_image(
            disk.durable@,
            ops_of(disk.pending@),
            order,
            fates,
            disk.sector as int,
            order.len() as int,
        ) == disk.image(),
{
    law_synced_writes_survive(
        disk.durable@,
        ops_of(disk.pending@),
        order,
        fates,
        disk.sector as int,
    );
}

/// Where nothing is dropped, torn or reordered, a crash loses nothing: what
/// results is the durable image with every pending write on top.
pub proof fn law_benign_crash_loses_nothing(
    durable: Seq<u8>,
    ops: Seq<OpView>,
    order: Seq<usize>,
    fates: Seq<FateView>,
    sector: int,
)
    requires
        plan_ok(ops, order, fates, sector),
        forall|j: int| 0 <= j < order.len() ==> #[trigger] order[j] == j,
        forall|j: int| 0 <= j < fates.len() ==> #[trigger] fates[j] == FateView::Whole,
    ensures
        crash_image(durable, ops, order, fates, sector, order.len() as int) == replayed(
            durable,
            ops,
        ),
{
    lemma_benign_prefix(durable, ops, order, fates, sector, ops.len() as int);
    assert(ops.take(ops.len() as int) =~= ops);
}

proof fn lemma_benign_prefix(
    durable: Seq<u8>,
    ops: Seq<OpView>,
    order: Seq<usize>,
    fates: Seq<FateView>,
    sector: int,
    n: int,
)
    requires
        0 <= n <= ops.len(),
        order.len() == ops.len(),
        fates.len() == ops.len(),
        forall|j: int| 0 <= j < order.len() ==> #[trigger] order[j] == j,
        forall|j: int| 0 <= j < fates.len() ==> #[trigger] fates[j] == FateView::Whole,
    ensures
        crash_image(durable, ops, order, fates, sector, n) == replayed(durable, ops.take(n)),
    decreases n,
{
    if n > 0 {
        lemma_benign_prefix(durable, ops, order, fates, sector, n - 1);
        assert(ops.take(n).drop_last() =~= ops.take(n - 1));
        assert(order[n - 1] == n - 1);
        assert(fates[n - 1] == FateView::Whole);
    }
}

/// Byte `i` of an image may stem from one of the writes.
pub open spec fn written_by(ops: Seq<OpView>, i: int, b: u8) -> bool {
    exists|j: int| 0 <= j < ops.len() && #[trigger] writes_byte(ops[j], i, b)
}

pub open spec fn writes_byte(op: OpView, i: int, b: u8) -> bool {
    op.offset <= i < op.offset + op.data.len() && op.data[i - op.offset] == b
}

/// A byte after a crash is an old durable byte, a byte of a pending write at its
/// own place, or a zero past the old end.
pub open spec fn from_somewhere(durable: Seq<u8>, ops: Seq<OpView>, image: Seq<u8>, i: int) -> bool {
    ||| i < durable.len() && image[i] == durable[i]
    ||| written_by(ops, i, image[i])
    ||| i >= durable.len() && image[i] == 0
}

/// A crash invents nothing, whatever is dropped, torn or reordered: it never
/// shortens the image, and every byte is an old one, one of a pending write at its
/// own place, or a zero past the old end.
pub proof fn law_crash_invents_nothing(
    durable: Seq<u8>,
    ops: Seq<OpView>,
    order: Seq<usize>,
    fates: Seq<FateView>,
    sector: int,
    n: int,
)
    requires
        sector > 0,
        plan_ok(ops, order, fates, sector),
        0 <= n <= order.len(),
        forall|j: int| 0 <= j < ops.len() ==> (#[trigger] ops[j]).offset >= 0,
    ensures
        ({
            let image = crash_image(durable, ops, order, fates, sector, n);
            &&& image.len() >= durable.len()
            &&& forall|i: int|
                0 <= i < image.len() ==> #[trigger] from_somewhere(durable, ops, image, i)
        }),
    decreases n,
{
    if n > 0 {
        law_crash_invents_nothing(durable, ops, order, fates, sector, n - 1);
        let before = crash_image(durable, ops, order, fates, sector, n - 1);
        let at = order[n - 1] as int;
        let op = ops[at];
        match fates[n - 1] {
            FateView::Drop => {},
            FateView::Whole => {
                lemma_part_invents_nothing(
                    durable,
                    ops,
                    at,
                    before,
                    op.offset,
                    op.offset + op.data.len(),
                );
                assert(op.data.subrange(0, op.data.len() as int) =~= op.data);
            },
            FateView::Tear(keeps) => {
                assert(fates[n - 1] == FateView::Tear(keeps));
                lemma_torn_invents_nothing(
                    durable,
                    ops,
                    at,
                    before,
                    sector,
                    keeps,
                    keeps.len() as int,
                );
            },
        }
    } else {
        assert forall|i: int| 0 <= i < durable.len() implies #[trigger] from_somewhere(
            durable,
            ops,
            durable,
            i,
        ) by {}
    }
}

proof fn lemma_part_invents_nothing(
    durable: Seq<u8>,
    ops: Seq<OpView>,
    at: int,
    before: Seq<u8>,
    lo: int,
    hi: int,
)
    requires
        0 <= at < ops.len(),
        0 <= ops[at].offset <= lo <= hi <= ops[at].offset + ops[at].data.len(),
        before.len() >= durable.len(),
        forall|i: int| 0 <= i < before.len() ==> #[trigger] from_somewhere(durable, ops, before, i),
    ensures
        ({
            let op = ops[at];
            let after = overwritten(before, lo, op.data.subrange(lo - op.offset, hi - op.offset));
            &&& after.len() >= durable.len()
            &&& forall|i: int|
                0 <= i < after.len() ==> #[trigger] from_somewhere(durable, ops, after, i)
        }),
{
    let op = ops[at];
    let after = overwritten(before, lo, op.data.subrange(lo - op.offset, hi - op.offset));
    assert forall|i: int| 0 <= i < after.len() implies #[trigger] from_somewhere(
        durable,
        ops,
        after,
        i,
    ) by {
        if lo <= i < hi {
            assert(writes_byte(ops[at], i, after[i]));
        } else if i < before.len() {
            assert(from_somewhere(durable, ops, before, i));
            assert(after[i] == before[i]);
        }
    }
}

proof fn lemma_torn_invents_nothing(
    durable: Seq<u8>,
    ops: Seq<OpView>,
    at: int,
    before: Seq<u8>,
    sector: int,
    keeps: Seq<bool>,
    n: int,
)
    requires
        0 <= at < ops.len(),
        sector > 0,
        ops[at].offset >= 0,
        ops[at].data.len() > 0,
        0 <= n <= keeps.len(),
        keeps.len() == sectors(ops[at], sector),
        before.len() >= durable.len(),
        forall|i: int| 0 <= i < before.len() ==> #[trigger] from_somewhere(durable, ops, before, i),
    ensures
        ({
            let after = torn(before, ops[at], sector, keeps, n);
            &&& after.len() >= durable.len()
            &&& forall|i: int|
                0 <= i < after.len() ==> #[trigger] from_somewhere(durable, ops, after, i)
        }),
    decreases n,
{
    if n > 0 {
        lemma_torn_invents_nothing(durable, ops, at, before, sector, keeps, n - 1);
        if keeps[n - 1] {
            let op = ops[at];
            let lo = part_lo(op, sector, n - 1);
            let hi = part_hi(op, sector, n - 1);
            let q = op.offset / sector;
            assert(lo <= hi && lo < op.offset + op.data.len()) by {
                if n - 1 > 0 {
                    lemma_more_sectors(op, sector, n - 1);
                } else {
                    assert((q + 0) * sector <= op.offset && (q + 1) * sector > op.offset)
                        by (nonlinear_arith)
                        requires
                            q == op.offset / sector,
                            sector > 0,
                            op.offset >= 0,
                    ;
                }
                assert((q + n) * sector == (q + n - 1) * sector + sector) by (nonlinear_arith);
            }
            lemma_part_invents_nothing(
                durable,
                ops,
                at,
                torn(before, op, sector, keeps, n - 1),
                lo,
                hi,
            );
        }
    }
}

proof fn lemma_quotient(i: int, m: int, s: int)
    requires
        s > 0,
    ensures
        i / s == m <==> m * s <= i < (m + 1) * s,
{
    if i / s == m {
        assert(m * s <= i < (m + 1) * s) by (nonlinear_arith)
            requires
                i / s == m,
                s > 0,
        ;
    }
    if m * s <= i < (m + 1) * s {
        assert(i / s == m) by (nonlinear_arith)
            requires
                m * s <= i < (m + 1) * s,
                s > 0,
        ;
    }
}

proof fn lemma_quotients(i: int, j: int, s: int)
    requires
        s > 0,
        i <= j,
    ensures
        i / s <= j / s,
{
    assert(i / s <= j / s) by (nonlinear_arith)
        requires
            i <= j,
            s > 0,
    ;
}

/// The sector of a write that byte `i` lies in, counted from its first.
pub open spec fn sector_of(op: OpView, sector: int, i: int) -> int {
    i / sector - op.offset / sector
}

/// Byte `i` lies in the write.
pub open spec fn in_write(op: OpView, i: int) -> bool {
    op.offset <= i < op.offset + op.data.len()
}

proof fn lemma_part(op: OpView, sector: int, k: int, i: int)
    requires
        sector > 0,
        op.offset >= 0,
        0 <= k < sectors(op, sector),
        op.data.len() > 0,
    ensures
        op.offset <= part_lo(op, sector, k) < part_hi(op, sector, k) <= op.offset + op.data.len(),
        part_lo(op, sector, k) <= i < part_hi(op, sector, k) <==> in_write(op, i) && sector_of(
            op,
            sector,
            i,
        ) == k,
{
    let q = op.offset / sector;
    let last = op.offset + op.data.len() - 1;
    lemma_quotient(op.offset, q, sector);
    lemma_quotient(last, last / sector, sector);
    lemma_quotient(i, q + k, sector);
    assert(q + k + 1 == q + (k + 1));
    assert((q + k) * sector <= last) by (nonlinear_arith)
        requires
            q + k <= last / sector,
            (last / sector) * sector <= last,
            sector > 0,
    ;
    assert(op.offset < (q + k + 1) * sector) by (nonlinear_arith)
        requires
            op.offset < (q + 1) * sector,
            k >= 0,
            sector > 0,
    ;
    assert((q + k) * sector < (q + k + 1) * sector) by (nonlinear_arith)
        requires
            sector > 0,
    ;
}

proof fn lemma_torn_at(image: Seq<u8>, op: OpView, sector: int, keeps: Seq<bool>, n: int, i: int)
    requires
        sector > 0,
        op.offset >= 0,
        op.data.len() > 0,
        keeps.len() == sectors(op, sector),
        0 <= n <= keeps.len(),
        0 <= i,
    ensures
        torn(image, op, sector, keeps, n).len() >= image.len(),
        in_write(op, i) && 0 <= sector_of(op, sector, i) < n && keeps[sector_of(op, sector, i)]
            ==> i < torn(image, op, sector, keeps, n).len() && torn(image, op, sector, keeps, n)[i]
            == op.data[i - op.offset],
        !(in_write(op, i) && 0 <= sector_of(op, sector, i) < n && keeps[sector_of(op, sector, i)])
            && i < image.len() ==> torn(image, op, sector, keeps, n)[i] == image[i],
    decreases n,
{
    if n > 0 {
        lemma_torn_at(image, op, sector, keeps, n - 1, i);
        lemma_part(op, sector, n - 1, i);
    }
}

/// A torn write keeps whole sectors: every byte of it that lies in a sector that was kept is
/// written, every byte in a sector that was lost is as it was, and so is every byte outside. A
/// dropped write changes nothing, and a whole one is written whole.
pub proof fn law_torn_writes_keep_whole_sectors(
    image: Seq<u8>,
    op: OpView,
    fate: FateView,
    sector: int,
    i: int,
)
    requires
        sector > 0,
        op.offset >= 0,
        op.data.len() > 0,
        fate matches FateView::Tear(keeps) ==> keeps.len() == sectors(op, sector),
        0 <= i,
    ensures
        !in_write(op, i) && i < image.len() ==> settled(image, op, fate, sector)[i] == image[i],
        fate matches FateView::Tear(keeps) ==> {
            &&& in_write(op, i) ==> 0 <= sector_of(op, sector, i) < keeps.len()
            &&& in_write(op, i) && keeps[sector_of(op, sector, i)] ==> i < settled(
                image,
                op,
                fate,
                sector,
            ).len() && settled(image, op, fate, sector)[i] == op.data[i - op.offset]
            &&& in_write(op, i) && !keeps[sector_of(op, sector, i)] && i < image.len() ==> settled(
                image,
                op,
                fate,
                sector,
            )[i] == image[i]
        },
        fate is Drop ==> settled(image, op, fate, sector) == image,
        fate is Whole && in_write(op, i) ==> i < settled(image, op, fate, sector).len() && settled(
            image,
            op,
            fate,
            sector,
        )[i] == op.data[i - op.offset],
{
    if let FateView::Tear(keeps) = fate {
        if in_write(op, i) {
            lemma_quotients(op.offset, i, sector);
            lemma_quotients(i, op.offset + op.data.len() - 1, sector);
        }
        lemma_torn_at(image, op, sector, keeps, keeps.len() as int, i);
    }
}

/// A crash is reported as it was: so many writes dropped, torn and whole as met that fate, and
/// of the sectors of the torn ones every one is counted as kept or as lost.
pub proof fn law_reports_add_up(fates: Seq<FateView>, more: FateView)
    ensures
        tally(fates).0 == fates.filter(|f: FateView| f is Drop).len(),
        tally(fates).1 == fates.filter(|f: FateView| f is Tear).len(),
        tally(fates).2 == fates.filter(|f: FateView| f is Whole).len(),
        more matches FateView::Tear(keeps) ==> {
            &&& tally(fates.push(more)).3 - tally(fates).3 == keeps.filter(|k: bool| k).len()
            &&& tally(fates.push(more)).4 - tally(fates).4 == keeps.filter(|k: bool| !k).len()
        },
        !(more is Tear) ==> tally(fates.push(more)).3 == tally(fates).3 && tally(
            fates.push(more),
        ).4 == tally(fates).4,
    decreases fates.len(),
{
    reveal(Seq::filter);
    assert(fates.push(more).drop_last() =~= fates);
    if let FateView::Tear(keeps) = more {
        lemma_flags(keeps);
        lemma_flags_set(keeps);
    }
    if fates.len() > 0 {
        law_reports_add_up(fates.drop_last(), fates.last());
    }
}

proof fn lemma_flags(keeps: Seq<bool>)
    ensures
        flags_set(keeps) == keeps.filter(|k: bool| k).len(),
        keeps.len() - flags_set(keeps) == keeps.filter(|k: bool| !k).len(),
    decreases keeps.len(),
{
    reveal(Seq::filter);
    if keeps.len() > 0 {
        lemma_flags(keeps.drop_last());
    }
}

} // verus!
