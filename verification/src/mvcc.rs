//! Multi-version concurrency control: snapshot isolation.
//!
//! The heart is [`visible`]: given a tuple version's `(xmin, xmax)`, a reader's
//! snapshot and the transaction-status table, it decides whether that version is
//! visible. On top sit an in-memory store with snapshot reads, the
//! first-updater-wins write-conflict rule and a vacuum that reclaims dead
//! versions, and a store that tracks rw-antidependencies to forbid write skew.

use std::collections::{BTreeSet, HashMap};

use vstd::prelude::*;

pub mod history;
pub mod laws;
pub mod ssi;

pub use crate::mvcc::ssi::SsiStore;

verus! {

broadcast use {
    vstd::std_specs::btree::group_btree_axioms,
    vstd::std_specs::hash::group_hash_axioms,
    vstd::laws_cmp::group_laws_cmp,
};

/// A transaction id. Monotone from 1; 0 means "none/invalid".
pub type TxnId = u64;

pub const INVALID: TxnId = 0;

/// The outcome of a transaction, per the status table.
#[derive(Clone, Copy, Debug, PartialEq, Eq, Structural)]
pub enum Status {
    InProgress,
    Committed,
    Aborted,
}

/// The status that table `m` gives to `t`: in progress where it has no entry.
pub open spec fn status_of(m: Map<TxnId, Status>, t: TxnId) -> Status {
    if m.dom().contains(t) {
        m[t]
    } else {
        Status::InProgress
    }
}

pub open spec fn committed(m: Map<TxnId, Status>, t: TxnId) -> bool {
    status_of(m, t) == Status::Committed
}

/// The transaction-status table: `txn -> status`. Consulted by [`visible`].
#[derive(Debug)]
pub struct Clog {
    status: HashMap<TxnId, Status>,
}

impl View for Clog {
    type V = Map<TxnId, Status>;

    closed spec fn view(&self) -> Map<TxnId, Status> {
        self.status@
    }
}

impl Default for Clog {
    fn default() -> (c: Clog)
        ensures
            c@ == Map::<TxnId, Status>::empty(),
    {
        Clog::new()
    }
}

impl Clog {
    pub fn new() -> (c: Clog)
        ensures
            c@ == Map::<TxnId, Status>::empty(),
    {
        Clog { status: HashMap::new() }
    }

    pub fn set(&mut self, t: TxnId, s: Status)
        ensures
            final(self)@ == old(self)@.insert(t, s),
    {
        self.status.insert(t, s);
    }

    pub fn get(&self, t: TxnId) -> (s: Status)
        ensures
            s == status_of(self@, t),
    {
        match self.status.get(&t) {
            Some(s) => *s,
            None => Status::InProgress,
        }
    }

    pub fn is_committed(&self, t: TxnId) -> (r: bool)
        ensures
            r == committed(self@, t),
    {
        self.get(t) == Status::Committed
    }
}

/// What a snapshot records.
pub ghost struct SnapView {
    pub xmax: TxnId,
    pub in_flight: Set<TxnId>,
}

impl SnapView {
    /// Assigned before the snapshot and not in flight when it was taken.
    pub open spec fn precedes(self, t: TxnId) -> bool {
        t < self.xmax && !self.in_flight.contains(t)
    }
}

/// A transaction's snapshot: everything with id `>= xmax`, or in `in_flight`, was
/// not yet committed when the snapshot was taken and so is invisible.
#[derive(Debug)]
pub struct Snapshot {
    /// The first id not yet assigned when the snapshot was taken.
    pub xmax: TxnId,
    /// Transactions in progress when the snapshot was taken.
    pub in_flight: BTreeSet<TxnId>,
}

impl View for Snapshot {
    type V = SnapView;

    open spec fn view(&self) -> SnapView {
        SnapView { xmax: self.xmax, in_flight: self.in_flight@ }
    }
}

impl Clone for Snapshot {
    fn clone(&self) -> (s: Snapshot)
        ensures
            s@ == self@,
    {
        Snapshot { xmax: self.xmax, in_flight: self.in_flight.clone() }
    }
}

impl Snapshot {
    /// Was `t` already finished as of this snapshot? (Assigned before `xmax` and
    /// not in flight; its commit status is then consulted by the caller.)
    pub fn precedes(&self, t: TxnId) -> (r: bool)
        ensures
            r == self@.precedes(t),
    {
        t < self.xmax && !self.in_flight.contains(&t)
    }
}

/// A tuple version. `xmin` created it; `xmax` deleted it (`INVALID` = live).
#[derive(Clone, Copy, Debug, PartialEq, Eq, Structural)]
pub struct Version {
    pub xmin: TxnId,
    pub xmax: TxnId,
}

impl Version {
    pub fn new(xmin: TxnId) -> (v: Version)
        ensures
            v == (Version { xmin, xmax: INVALID }),
    {
        Version { xmin, xmax: INVALID }
    }
}

/// The effects of transaction `t` show to `reader`: they are its own, or they
/// committed before the snapshot.
pub open spec fn seen(t: TxnId, snap: SnapView, clog: Map<TxnId, Status>, reader: TxnId) -> bool {
    t == reader || (committed(clog, t) && snap.precedes(t))
}

/// A version shows iff its insertion does and its deletion, if any, does not.
pub open spec fn shows(
    v: Version,
    snap: SnapView,
    clog: Map<TxnId, Status>,
    reader: TxnId,
) -> bool {
    &&& seen(v.xmin, snap, clog, reader)
    &&& v.xmax == INVALID || !seen(v.xmax, snap, clog, reader)
}

/// **The visibility function.** Is `v` visible to `reader` under `snap`/`clog`?
///
/// A version is visible iff its insertion is visible and its deletion is not:
///   * the insert (`xmin`) is visible if it is the reader's own, or it committed
///     before the snapshot;
///   * the delete (`xmax`) hides the tuple if it is the reader's own, or it
///     committed before the snapshot; otherwise the tuple survives.
pub fn visible(v: &Version, snap: &Snapshot, clog: &Clog, reader: TxnId) -> (r: bool)
    ensures
        r == shows(*v, snap@, clog@, reader),
{
    let insert_visible: bool = if v.xmin == reader {
        true
    } else {
        clog.is_committed(v.xmin) && snap.precedes(v.xmin)
    };
    if !insert_visible {
        return false;
    }
    if v.xmax == INVALID {
        return true;
    }
    let delete_visible: bool = if v.xmax == reader {
        true
    } else {
        clog.is_committed(v.xmax) && snap.precedes(v.xmax)
    };
    !delete_visible
}

/// One logical row: its versions with their values, oldest first.
pub type ChainView = Seq<(Version, i64)>;

#[derive(Debug)]
struct Chain {
    versions: Vec<(Version, i64)>,
}

/// Errors from the transactional store.
#[derive(Clone, Copy, Debug, PartialEq, Eq, Structural)]
pub enum MvccError {
    /// A write-write conflict under snapshot isolation (first-updater-wins).
    WriteConflict,
    /// No visible version of the row for this transaction.
    NotVisible,
    /// The transaction was aborted to preserve serializability (it was the pivot
    /// of a dangerous rw-antidependency structure). Retryable.
    Serialization,
}

/// The value of the newest version of `chain` that shows to `reader`.
pub open spec fn value_seen(
    chain: ChainView,
    snap: SnapView,
    clog: Map<TxnId, Status>,
    reader: TxnId,
) -> Result<i64, MvccError>
    decreases chain.len(),
{
    if chain.len() == 0 {
        Err(MvccError::NotVisible)
    } else if shows(chain.last().0, snap, clog, reader) {
        Ok(chain.last().1)
    } else {
        value_seen(chain.drop_last(), snap, clog, reader)
    }
}

fn read_chain(
    chain: &Chain,
    snap: &Snapshot,
    clog: &Clog,
    reader: TxnId,
) -> (r: Result<i64, MvccError>)
    ensures
        r == value_seen(chain.versions@, snap@, clog@, reader),
{
    let mut i: usize = chain.versions.len();
    assert(chain.versions@.take(i as int) =~= chain.versions@);
    while i > 0
        invariant
            i <= chain.versions@.len(),
            value_seen(chain.versions@, snap@, clog@, reader) == value_seen(
                chain.versions@.take(i as int),
                snap@,
                clog@,
                reader,
            ),
        decreases i,
    {
        i = i - 1;
        assert(chain.versions@.take(i + 1).drop_last() =~= chain.versions@.take(i as int));
        if visible(&chain.versions[i].0, snap, clog, reader) {
            return Ok(chain.versions[i].1);
        }
    }
    Err(MvccError::NotVisible)
}

/// The newest version whose creator did not abort, or -1.
pub open spec fn newest_live(chain: ChainView, clog: Map<TxnId, Status>) -> int
    decreases chain.len(),
{
    if chain.len() == 0 {
        -1
    } else if status_of(clog, chain.last().0.xmin) != Status::Aborted {
        chain.len() - 1
    } else {
        newest_live(chain.drop_last(), clog)
    }
}

/// The newest version whose creator committed, or -1.
pub open spec fn newest_committed(chain: ChainView, clog: Map<TxnId, Status>) -> int
    decreases chain.len(),
{
    if chain.len() == 0 {
        -1
    } else if committed(clog, chain.last().0.xmin) {
        chain.len() - 1
    } else {
        newest_committed(chain.drop_last(), clog)
    }
}

pub proof fn lemma_newest_live(chain: ChainView, clog: Map<TxnId, Status>)
    ensures
        -1 <= newest_live(chain, clog) < chain.len(),
        newest_live(chain, clog) >= 0 ==> status_of(
            clog,
            chain[newest_live(chain, clog)].0.xmin,
        ) != Status::Aborted,
        forall|i: int|
            newest_live(chain, clog) < i < chain.len() ==> status_of(
                clog,
                (#[trigger] chain[i]).0.xmin,
            ) == Status::Aborted,
    decreases chain.len(),
{
    if chain.len() > 0 {
        let d = chain.drop_last();
        lemma_newest_live(d, clog);
        assert(forall|i: int| 0 <= i < d.len() ==> d[i] == chain[i]);
    }
}

pub proof fn lemma_newest_committed(chain: ChainView, clog: Map<TxnId, Status>)
    ensures
        -1 <= newest_committed(chain, clog) < chain.len(),
        newest_committed(chain, clog) >= 0 ==> committed(
            clog,
            chain[newest_committed(chain, clog)].0.xmin,
        ),
        forall|i: int|
            newest_committed(chain, clog) < i < chain.len() ==> !committed(
                clog,
                (#[trigger] chain[i]).0.xmin,
            ),
    decreases chain.len(),
{
    if chain.len() > 0 {
        let d = chain.drop_last();
        lemma_newest_committed(d, clog);
        assert(forall|i: int| 0 <= i < d.len() ==> d[i] == chain[i]);
    }
}

fn find_newest_live(chain: &Chain, clog: &Clog) -> (r: Option<usize>)
    ensures
        match r {
            Some(i) => i == newest_live(chain.versions@, clog@),
            None => newest_live(chain.versions@, clog@) == -1,
        },
{
    let mut i: usize = chain.versions.len();
    assert(chain.versions@.take(i as int) =~= chain.versions@);
    while i > 0
        invariant
            i <= chain.versions@.len(),
            newest_live(chain.versions@, clog@) == newest_live(
                chain.versions@.take(i as int),
                clog@,
            ),
        decreases i,
    {
        i = i - 1;
        assert(chain.versions@.take(i + 1).drop_last() =~= chain.versions@.take(i as int));
        if clog.get(chain.versions[i].0.xmin) != Status::Aborted {
            return Some(i);
        }
    }
    None
}

fn find_newest_committed(chain: &Chain, clog: &Clog) -> (r: Option<usize>)
    ensures
        match r {
            Some(i) => i == newest_committed(chain.versions@, clog@),
            None => newest_committed(chain.versions@, clog@) == -1,
        },
{
    let mut i: usize = chain.versions.len();
    assert(chain.versions@.take(i as int) =~= chain.versions@);
    while i > 0
        invariant
            i <= chain.versions@.len(),
            newest_committed(chain.versions@, clog@) == newest_committed(
                chain.versions@.take(i as int),
                clog@,
            ),
        decreases i,
    {
        i = i - 1;
        assert(chain.versions@.take(i + 1).drop_last() =~= chain.versions@.take(i as int));
        if clog.is_committed(chain.versions[i].0.xmin) {
            return Some(i);
        }
    }
    None
}

/// Version `j` of the chain replaced version `i`.
pub open spec fn superseded_by(chain: ChainView, i: int, j: int) -> bool {
    i < j < chain.len() && chain[j].0.xmin == chain[i].0.xmax
}

/// What every row keeps: a committed version is retained, every creator is known
/// to the status table, and a deletion mark that its transaction did not abort
/// stands beside the version that replaced the marked one.
pub open spec fn chain_ok(chain: ChainView, clog: Map<TxnId, Status>) -> bool {
    &&& newest_committed(chain, clog) >= 0
    &&& forall|i: int| 0 <= i < chain.len() ==> clog.dom().contains((#[trigger] chain[i]).0.xmin)
    &&& forall|i: int|
        0 <= i < chain.len() && (#[trigger] chain[i]).0.xmax != INVALID && status_of(
            clog,
            chain[i].0.xmax,
        ) != Status::Aborted ==> exists|j: int| superseded_by(chain, i, j)
}

/// The chain after transaction `t` wrote `value` over the newest live version.
pub open spec fn chain_updated(
    chain: ChainView,
    clog: Map<TxnId, Status>,
    t: TxnId,
    value: i64,
) -> ChainView {
    let idx = newest_live(chain, clog);
    let old = chain[idx];
    chain.update(idx, (Version { xmin: old.0.xmin, xmax: t }, old.1)).push(
        (Version { xmin: t, xmax: INVALID }, value),
    )
}

/// Vacuum keeps version `i`: its creator did not abort, and, where nothing is
/// active, it is not a committed version older than the newest committed one.
pub open spec fn vacuum_keeps(
    chain: ChainView,
    clog: Map<TxnId, Status>,
    idle: bool,
    i: int,
) -> bool {
    let status = status_of(clog, chain[i].0.xmin);
    &&& status != Status::Aborted
    &&& !(idle && status == Status::Committed && i < newest_committed(chain, clog))
}

/// The kept ones of the first `n` versions.
pub open spec fn vacuumed(chain: ChainView, clog: Map<TxnId, Status>, idle: bool, n: int) -> ChainView
    decreases n,
{
    if n <= 0 {
        Seq::empty()
    } else if vacuum_keeps(chain, clog, idle, n - 1) {
        vacuumed(chain, clog, idle, n - 1).push(chain[n - 1])
    } else {
        vacuumed(chain, clog, idle, n - 1)
    }
}

/// The number of versions of all rows.
pub open spec fn total_versions(rows: Seq<ChainView>) -> nat
    decreases rows.len(),
{
    if rows.len() == 0 {
        0
    } else {
        total_versions(rows.drop_last()) + rows.last().len()
    }
}

/// The state of a multi-version store.
#[verifier::ext_equal]
pub ghost struct StoreView {
    pub rows: Seq<ChainView>,
    pub clog: Map<TxnId, Status>,
    pub next: TxnId,
    pub active: Set<TxnId>,
}

impl StoreView {
    /// The active transactions are those in progress, every known id has been
    /// handed out, and every row is in order.
    pub open spec fn wf(self) -> bool {
        &&& self.next >= 1
        &&& forall|t: TxnId| self.clog.dom().contains(t) ==> t < self.next
        &&& forall|t: TxnId|
            self.active.contains(t) <==> self.clog.dom().contains(t) && self.clog[t]
                == Status::InProgress
        &&& forall|r: int| 0 <= r < self.rows.len() ==> chain_ok(#[trigger] self.rows[r], self.clog)
    }

    /// A committed row was added.
    pub open spec fn with_row(self, value: i64) -> StoreView {
        StoreView {
            rows: self.rows.push(seq![(Version { xmin: self.next, xmax: INVALID }, value)]),
            clog: self.clog.insert(self.next, Status::Committed),
            next: (self.next + 1) as u64,
            active: self.active,
        }
    }

    /// A transaction began, under the next id.
    pub open spec fn begun(self) -> StoreView {
        StoreView {
            rows: self.rows,
            clog: self.clog.insert(self.next, Status::InProgress),
            next: (self.next + 1) as u64,
            active: self.active.insert(self.next),
        }
    }

    /// The snapshot of a transaction that begins now.
    pub open spec fn snapshot(self) -> SnapView {
        SnapView { xmax: self.next, in_flight: self.active }
    }

    /// Transaction `t` finished with status `s`.
    pub open spec fn finished(self, t: TxnId, s: Status) -> StoreView {
        StoreView {
            rows: self.rows,
            clog: self.clog.insert(t, s),
            next: self.next,
            active: self.active.remove(t),
        }
    }

    /// What transaction `reader` reads from `row`.
    pub open spec fn value(self, row: int, snap: SnapView, reader: TxnId) -> Result<i64, MvccError> {
        value_seen(self.rows[row], snap, self.clog, reader)
    }

    /// Whether transaction `t` may write `row`: the creator of its newest live
    /// version is `t`, or committed before the snapshot.
    pub open spec fn may_write(self, row: int, snap: SnapView, t: TxnId) -> bool {
        let chain = self.rows[row];
        seen(chain[newest_live(chain, self.clog)].0.xmin, snap, self.clog, t)
    }

    /// Transaction `t` wrote `value` to `row`.
    pub open spec fn updated(self, row: int, t: TxnId, value: i64) -> StoreView {
        StoreView {
            rows: self.rows.update(row, chain_updated(self.rows[row], self.clog, t, value)),
            ..self
        }
    }

    /// Dead versions were reclaimed.
    pub open spec fn vacuumed(self) -> StoreView {
        StoreView {
            rows: self.rows.map_values(
                |c: ChainView| vacuumed(c, self.clog, self.active.is_empty(), c.len() as int),
            ),
            ..self
        }
    }
}


/// Deciding the fate of a transaction in progress keeps every row in order.
proof fn lemma_finish_keeps_chain(chain: ChainView, clog: Map<TxnId, Status>, t: TxnId, s: Status)
    requires
        chain_ok(chain, clog),
        status_of(clog, t) == Status::InProgress,
    ensures
        chain_ok(chain, clog.insert(t, s)),
{
    let after = clog.insert(t, s);
    lemma_newest_committed(chain, clog);
    lemma_newest_committed(chain, after);
    assert(committed(after, chain[newest_committed(chain, clog)].0.xmin));
}

/// A version whose deletion mark counts has a live successor, so the newest live
/// version carries no mark but an aborted one.
pub proof fn lemma_newest_live_unmarked(chain: ChainView, clog: Map<TxnId, Status>)
    requires
        chain_ok(chain, clog),
    ensures
        0 <= newest_live(chain, clog) < chain.len(),
        ({
            let m = chain[newest_live(chain, clog)].0.xmax;
            m == INVALID || status_of(clog, m) == Status::Aborted
        }),
{
    lemma_newest_committed(chain, clog);
    lemma_newest_live(chain, clog);
    let nc = newest_committed(chain, clog);
    let nl = newest_live(chain, clog);
    assert(status_of(clog, chain[nc].0.xmin) != Status::Aborted);
    if chain[nl].0.xmax != INVALID && status_of(clog, chain[nl].0.xmax) != Status::Aborted {
        let j = choose|j: int| superseded_by(chain, nl, j);
        assert(chain[j].0.xmin == chain[nl].0.xmax);
    }
}

/// Writing a row keeps it in order.
pub proof fn lemma_update_keeps_chain(chain: ChainView, clog: Map<TxnId, Status>, t: TxnId, value: i64)
    requires
        chain_ok(chain, clog),
        clog.dom().contains(t),
    ensures
        chain_ok(chain_updated(chain, clog, t, value), clog),
        status_of(clog, t) != Status::Aborted ==> newest_live(
            chain_updated(chain, clog, t, value),
            clog,
        ) == chain.len(),
{
    let after = chain_updated(chain, clog, t, value);
    let nl = newest_live(chain, clog);
    lemma_newest_live_unmarked(chain, clog);
    lemma_newest_committed(chain, clog);
    lemma_newest_committed(after, clog);
    let nc = newest_committed(chain, clog);
    assert(after[nc].0.xmin == chain[nc].0.xmin);
    assert forall|i: int|
        0 <= i < after.len() && (#[trigger] after[i]).0.xmax != INVALID && status_of(
            clog,
            after[i].0.xmax,
        ) != Status::Aborted implies exists|j: int| superseded_by(after, i, j) by {
        if i == nl {
            assert(superseded_by(after, i, chain.len() as int));
        } else {
            assert(after[i] == chain[i]);
            let j = choose|j: int| superseded_by(chain, i, j);
            assert(after[j].0.xmin == chain[j].0.xmin);
            assert(superseded_by(after, i, j));
        }
    }
    assert forall|i: int| 0 <= i < after.len() implies clog.dom().contains(
        (#[trigger] after[i]).0.xmin,
    ) by {
        if i < chain.len() {
            assert(after[i].0.xmin == chain[i].0.xmin);
        }
    }
}

/// Where a kept version goes.
pub proof fn lemma_vacuumed_at(chain: ChainView, clog: Map<TxnId, Status>, idle: bool, i: int, n: int)
    requires
        0 <= i < n <= chain.len(),
        vacuum_keeps(chain, clog, idle, i),
    ensures
        vacuumed(chain, clog, idle, i).len() < vacuumed(chain, clog, idle, n).len(),
        vacuumed(chain, clog, idle, n)[vacuumed(chain, clog, idle, i).len() as int] == chain[i],
    decreases n,
{
    if i < n - 1 {
        lemma_vacuumed_at(chain, clog, idle, i, n - 1);
    }
}

/// Where a version of the vacuumed chain comes from.
pub proof fn lemma_vacuumed_from(
    chain: ChainView,
    clog: Map<TxnId, Status>,
    idle: bool,
    n: int,
    p: int,
) -> (i: int)
    requires
        0 <= n <= chain.len(),
        0 <= p < vacuumed(chain, clog, idle, n).len(),
    ensures
        0 <= i < n,
        vacuum_keeps(chain, clog, idle, i),
        vacuumed(chain, clog, idle, i).len() == p,
        vacuumed(chain, clog, idle, n)[p] == chain[i],
    decreases n,
{
    if vacuum_keeps(chain, clog, idle, n - 1) && p == vacuumed(chain, clog, idle, n - 1).len() {
        n - 1
    } else {
        lemma_vacuumed_from(chain, clog, idle, n - 1, p)
    }
}

/// Vacuuming a row keeps it in order.
proof fn lemma_vacuum_keeps_chain(chain: ChainView, clog: Map<TxnId, Status>, idle: bool)
    requires
        chain_ok(chain, clog),
        idle ==> forall|t: TxnId| #[trigger]
            clog.dom().contains(t) ==> clog[t] != Status::InProgress,
    ensures
        chain_ok(vacuumed(chain, clog, idle, chain.len() as int), clog),
{
    let n = chain.len() as int;
    let vac = vacuumed(chain, clog, idle, n);
    let nc = newest_committed(chain, clog);
    lemma_newest_committed(chain, clog);
    lemma_newest_committed(vac, clog);
    assert(vacuum_keeps(chain, clog, idle, nc));
    lemma_vacuumed_at(chain, clog, idle, nc, n);
    assert forall|p: int| 0 <= p < vac.len() implies clog.dom().contains(
        (#[trigger] vac[p]).0.xmin,
    ) by {
        let i = lemma_vacuumed_from(chain, clog, idle, n, p);
        assert(vac[p] == chain[i]);
    }
    assert forall|p: int|
        0 <= p < vac.len() && (#[trigger] vac[p]).0.xmax != INVALID && status_of(
            clog,
            vac[p].0.xmax,
        ) != Status::Aborted implies exists|q: int| superseded_by(vac, p, q) by {
        let i = lemma_vacuumed_from(chain, clog, idle, n, p);
        assert(vac[p] == chain[i]);
        let j = choose|j: int| superseded_by(chain, i, j);
        assert(clog.dom().contains(chain[i].0.xmin));
        assert(vacuum_keeps(chain, clog, idle, j));
        lemma_vacuumed_at(chain, clog, idle, j, n);
        lemma_vacuumed_at(chain, clog, idle, i, j);
        assert(superseded_by(vac, p, vacuumed(chain, clog, idle, j).len() as int));
    }
}

/// A transaction handle: its id and the snapshot taken at begin.
pub struct Txn {
    pub id: TxnId,
    pub snapshot: Snapshot,
    /// Rows this transaction has written.
    pub written: BTreeSet<usize>,
}

impl Default for Txn {
    fn default() -> (t: Txn)
        ensures
            t.id == INVALID,
            t.snapshot@ == (SnapView { xmax: 1, in_flight: Set::empty() }),
            t.written@ == Set::<usize>::empty(),
    {
        Txn {
            id: INVALID,
            snapshot: Snapshot { xmax: 1, in_flight: BTreeSet::new() },
            written: BTreeSet::new(),
        }
    }
}

spec fn chains(rows: Seq<Chain>) -> Seq<ChainView> {
    rows.map_values(|c: Chain| c.versions@)
}

/// A tiny multi-versioned row -> i64 store under snapshot isolation.
pub struct MvccStore {
    rows: Vec<Chain>,
    clog: Clog,
    next_txn: TxnId,
    active: BTreeSet<TxnId>,
}

impl View for MvccStore {
    type V = StoreView;

    closed spec fn view(&self) -> StoreView {
        StoreView {
            rows: chains(self.rows@),
            clog: self.clog@,
            next: self.next_txn,
            active: self.active@,
        }
    }
}

impl Default for MvccStore {
    fn default() -> (s: MvccStore)
        ensures
            s@.wf(),
            s@ == (StoreView {
                rows: Seq::empty(),
                clog: Map::empty(),
                next: 1,
                active: Set::empty(),
            }),
    {
        MvccStore::new()
    }
}

impl MvccStore {
    pub fn new() -> (s: MvccStore)
        ensures
            s@.wf(),
            s@ == (StoreView {
                rows: Seq::empty(),
                clog: Map::empty(),
                next: 1,
                active: Set::empty(),
            }),
    {
        let s: MvccStore = MvccStore {
            rows: Vec::new(),
            clog: Clog::new(),
            next_txn: 1,
            active: BTreeSet::new(),
        };
        assert(s@.rows =~= Seq::<ChainView>::empty());
        s
    }

    /// Insert a brand-new row committed by a system bootstrap transaction, and
    /// return its row id.
    pub fn bootstrap_row(&mut self, value: i64) -> (row: usize)
        requires
            old(self)@.wf(),
            old(self)@.next < u64::MAX,
        ensures
            final(self)@.wf(),
            row == old(self)@.rows.len(),
            final(self)@ == old(self)@.with_row(value),
    {
        let ghost before = self@;
        let t: TxnId = self.next_txn;
        self.next_txn = self.next_txn + 1;
        self.clog.set(t, Status::Committed);
        let mut versions: Vec<(Version, i64)> = Vec::new();
        versions.push((Version::new(t), value));
        let ghost fresh = versions@;
        let row: usize = self.rows.len();
        self.rows.push(Chain { versions });
        proof {
            assert(self@.rows =~= before.rows.push(fresh));
            assert(fresh =~= seq![(Version { xmin: t, xmax: INVALID }, value)]);
            assert(self@ =~= before.with_row(value));
            assert forall|r: int| 0 <= r < self@.rows.len() implies chain_ok(
                #[trigger] self@.rows[r],
                self@.clog,
            ) by {
                if r < before.rows.len() {
                    lemma_finish_keeps_chain(before.rows[r], before.clog, t, Status::Committed);
                } else {
                    lemma_newest_committed(fresh, self@.clog);
                    assert(committed(self@.clog, fresh[0].0.xmin));
                }
            }
        }
        row
    }

    /// Hand out the next id and take the snapshot that goes with it.
    fn start(&mut self) -> (snapshot: Snapshot)
        requires
            old(self)@.wf(),
            old(self)@.next < u64::MAX,
        ensures
            final(self)@.wf(),
            final(self)@ == old(self)@.begun(),
            snapshot@ == old(self)@.snapshot(),
    {
        let ghost before = self@;
        let id: TxnId = self.next_txn;
        self.next_txn = self.next_txn + 1;
        self.clog.set(id, Status::InProgress);
        let snapshot: Snapshot = Snapshot { xmax: id, in_flight: self.active.clone() };
        self.active.insert(id);
        proof {
            assert(self@ =~= before.begun());
            lemma_store_finish_keeps_rows(before, id, Status::InProgress);
        }
        snapshot
    }

    /// Record an outcome, whatever came before it.
    fn settle(&mut self, t: TxnId, s: Status)
        requires
            old(self)@.wf(),
            s != Status::InProgress,
        ensures
            final(self)@ == old(self)@.finished(t, s),
            old(self)@.active.contains(t) ==> final(self)@.wf(),
    {
        let ghost before = self@;
        self.clog.set(t, s);
        self.active.remove(&t);
        proof {
            assert(self@ =~= before.finished(t, s));
            if before.active.contains(t) {
                lemma_store_finish_keeps_rows(before, t, s);
            }
        }
    }

    /// Write `row` for transaction `id`, unless that conflicts.
    fn try_write(&mut self, id: TxnId, snap: &Snapshot, row: usize, value: i64) -> (r: Result<
        (),
        MvccError,
    >)
        requires
            old(self)@.wf(),
            row < old(self)@.rows.len(),
            old(self)@.clog.dom().contains(id),
        ensures
            final(self)@.wf(),
            r == if old(self)@.may_write(row as int, snap@, id) {
                Ok::<(), MvccError>(())
            } else {
                Err(MvccError::WriteConflict)
            },
            r is Ok ==> final(self)@ == old(self)@.updated(row as int, id, value),
            r is Err ==> *final(self) == *old(self),
    {
        let ghost before = self@;
        let ghost chain = before.rows[row as int];
        proof {
            assert(chain_ok(before.rows[row as int], before.clog));
            lemma_newest_live_unmarked(chain, before.clog);
        }
        let idx: usize = match find_newest_live(&self.rows[row], &self.clog) {
            Some(i) => i,
            None => 0,
        };
        let creator: TxnId = self.rows[row].versions[idx].0.xmin;
        if creator != id && !(self.clog.is_committed(creator) && snap.precedes(creator)) {
            return Err(MvccError::WriteConflict);
        }
        write_version(&mut self.rows[row], idx, id, value);
        proof {
            lemma_update_keeps_chain(chain, before.clog, id, value);
            assert(self@.rows[row as int] =~= chain_updated(chain, before.clog, id, value));
            assert(self@.rows =~= before.updated(row as int, id, value).rows);
            assert(self@ =~= before.updated(row as int, id, value));
        }
        Ok(())
    }

    /// Begin a transaction under a snapshot of the store.
    pub fn begin(&mut self) -> (txn: Txn)
        requires
            old(self)@.wf(),
            old(self)@.next < u64::MAX,
        ensures
            final(self)@.wf(),
            final(self)@ == old(self)@.begun(),
            txn.id == old(self)@.next,
            txn.snapshot@ == old(self)@.snapshot(),
            txn.written@ == Set::<usize>::empty(),
    {
        let snapshot: Snapshot = self.start();
        Txn { id: snapshot.xmax, snapshot, written: BTreeSet::new() }
    }

    /// The value of `row` visible to `txn`, or `NotVisible`.
    pub fn read(&self, txn: &Txn, row: usize) -> (r: Result<i64, MvccError>)
        requires
            row < self@.rows.len(),
        ensures
            r == self@.value(row as int, txn.snapshot@, txn.id),
    {
        read_chain(&self.rows[row], &txn.snapshot, &self.clog, txn.id)
    }

    /// Update `row` to `value`. First-updater-wins: if the row's newest version
    /// was created by a concurrent transaction (not visible to our snapshot and
    /// not our own), refuse with `WriteConflict`.
    ///
    /// The conflict check is against the newest **non-aborted** version: aborted
    /// versions are logically dead but remain at the tail of the chain, and must
    /// not refuse every later update.
    pub fn update(&mut self, txn: &mut Txn, row: usize, value: i64) -> (r: Result<(), MvccError>)
        requires
            old(self)@.wf(),
            row < old(self)@.rows.len(),
            old(self)@.clog.dom().contains(old(txn).id),
        ensures
            final(self)@.wf(),
            final(txn).id == old(txn).id,
            final(txn).snapshot == old(txn).snapshot,
            r == if old(self)@.may_write(row as int, old(txn).snapshot@, old(txn).id) {
                Ok::<(), MvccError>(())
            } else {
                Err(MvccError::WriteConflict)
            },
            r is Ok ==> {
                &&& final(self)@ == old(self)@.updated(row as int, old(txn).id, value)
                &&& final(txn).written@ == old(txn).written@.insert(row)
            },
            r is Err ==> *final(self) == *old(self) && *final(txn) == *old(txn),
    {
        match self.try_write(txn.id, &txn.snapshot, row, value) {
            Ok(()) => {
                txn.written.insert(row);
                Ok(())
            },
            Err(e) => Err(e),
        }
    }

    /// Make the transaction's writes visible to later snapshots.
    pub fn commit(&mut self, txn: Txn)
        requires
            old(self)@.wf(),
        ensures
            final(self)@ == old(self)@.finished(txn.id, Status::Committed),
            old(self)@.active.contains(txn.id) ==> final(self)@.wf(),
    {
        self.settle(txn.id, Status::Committed);
    }

    /// Undo the transaction: its versions never show to anyone else.
    pub fn abort(&mut self, txn: Txn)
        requires
            old(self)@.wf(),
        ensures
            final(self)@ == old(self)@.finished(txn.id, Status::Aborted),
            old(self)@.active.contains(txn.id) ==> final(self)@.wf(),
    {
        self.settle(txn.id, Status::Aborted);
    }

    /// Number of physical versions currently retained for `row`.
    pub fn version_count(&self, row: usize) -> (n: usize)
        requires
            row < self@.rows.len(),
        ensures
            n == self@.rows[row as int].len(),
    {
        self.rows[row].versions.len()
    }

    /// Reclaim dead versions. Two collections, both always safe. First, aborted
    /// versions, which no other transaction ever sees. Second, when no
    /// transaction is active, every committed version older than a row's newest
    /// committed one: a future transaction only ever sees the newest. Versions in
    /// progress are always kept. Returns the number of versions reclaimed.
    pub fn vacuum(&mut self) -> (reclaimed: usize)
        requires
            old(self)@.wf(),
            total_versions(old(self)@.rows) <= usize::MAX,
        ensures
            final(self)@.wf(),
            final(self)@ == old(self)@.vacuumed(),
            reclaimed == total_versions(old(self)@.rows) - total_versions(final(self)@.rows),
    {
        let ghost before = self@;
        let ghost after = before.vacuumed();
        let idle: bool = self.active.is_empty();
        let mut reclaimed: usize = 0;
        let n: usize = self.rows.len();
        let mut r: usize = 0;
        assert(before.rows.take(n as int) =~= before.rows);
        while r < n
            invariant
                before.wf(),
                total_versions(before.rows) <= usize::MAX,
                before.rows.take(n as int) == before.rows,
                n == before.rows.len() == self.rows@.len(),
                r <= n,
                idle == before.active.is_empty(),
                self.clog@ == before.clog,
                self.next_txn == before.next,
                self.active@ == before.active,
                after == before.vacuumed(),
                forall|k: int| 0 <= k < r ==> (#[trigger] self.rows@[k]).versions@ == after.rows[k],
                forall|k: int|
                    r <= k < n ==> (#[trigger] self.rows@[k]).versions@ == before.rows[k],
                reclaimed == total_versions(before.rows.take(r as int)) - total_versions(
                    after.rows.take(r as int),
                ),
            decreases n - r,
        {
            let ghost chain = before.rows[r as int];
            assert(self.rows@[r as int].versions@ == chain);
            let old_len: usize = self.rows[r].versions.len();
            let kept: Vec<(Version, i64)> = kept_versions(&self.rows[r], &self.clog, idle);
            proof {
                assert(after.rows[r as int] == kept@);
                assert(before.rows.take(r + 1).drop_last() =~= before.rows.take(r as int));
                assert(after.rows.take(r + 1).drop_last() =~= after.rows.take(r as int));
                lemma_total_prefix(before.rows, r + 1, n as int);
            }
            reclaimed = reclaimed + (old_len - kept.len());
            self.rows[r] = Chain { versions: kept };
            r = r + 1;
        }
        proof {
            assert(after.rows.take(n as int) =~= after.rows);
            assert(self@.rows =~= after.rows);
            assert(self@ =~= after);
            assert forall|k: int| 0 <= k < after.rows.len() implies chain_ok(
                #[trigger] after.rows[k],
                after.clog,
            ) by {
                assert(chain_ok(before.rows[k], before.clog));
                assert forall|t: TxnId| idle && #[trigger] before.clog.dom().contains(
                    t,
                ) implies before.clog[t] != Status::InProgress by {
                    assert(!before.active.contains(t));
                }
                lemma_vacuum_keeps_chain(before.rows[k], before.clog, idle);
            }
        }
        reclaimed
    }
}

/// Deciding the fate of a transaction in progress keeps every row in order.
proof fn lemma_store_finish_keeps_rows(v: StoreView, t: TxnId, s: Status)
    requires
        v.wf(),
        status_of(v.clog, t) == Status::InProgress,
    ensures
        forall|r: int|
            0 <= r < v.rows.len() ==> chain_ok(#[trigger] v.rows[r], v.clog.insert(t, s)),
{
    assert forall|r: int| 0 <= r < v.rows.len() implies chain_ok(
        #[trigger] v.rows[r],
        v.clog.insert(t, s),
    ) by {
        lemma_finish_keeps_chain(v.rows[r], v.clog, t, s);
    }
}

proof fn lemma_total_prefix(rows: Seq<ChainView>, i: int, n: int)
    requires
        0 <= i <= n <= rows.len(),
    ensures
        total_versions(rows.take(i)) <= total_versions(rows.take(n)),
    decreases n,
{
    if i < n {
        lemma_total_prefix(rows, i, n - 1);
        assert(rows.take(n).drop_last() =~= rows.take(n - 1));
    }
}

/// Mark version `idx` deleted by `t` and push the version that replaces it.
fn write_version(chain: &mut Chain, idx: usize, t: TxnId, value: i64)
    requires
        idx < old(chain).versions@.len(),
    ensures
        final(chain).versions@ == old(chain).versions@.update(
            idx as int,
            (
                Version { xmin: old(chain).versions@[idx as int].0.xmin, xmax: t },
                old(chain).versions@[idx as int].1,
            ),
        ).push((Version { xmin: t, xmax: INVALID }, value)),
{
    chain.versions[idx].0.xmax = t;
    chain.versions.push((Version { xmin: t, xmax: INVALID }, value));
}

/// The versions that a vacuum keeps.
fn kept_versions(chain: &Chain, clog: &Clog, idle: bool) -> (kept: Vec<(Version, i64)>)
    ensures
        kept@ == vacuumed(chain.versions@, clog@, idle, chain.versions@.len() as int),
        kept@.len() <= chain.versions@.len(),
{
    let newest: Option<usize> = find_newest_committed(chain, clog);
    let n: usize = chain.versions.len();
    let mut kept: Vec<(Version, i64)> = Vec::with_capacity(n);
    let mut i: usize = 0;
    while i < n
        invariant
            i <= n == chain.versions@.len(),
            kept@ == vacuumed(chain.versions@, clog@, idle, i as int),
            kept@.len() <= i,
            match newest {
                Some(k) => k == newest_committed(chain.versions@, clog@),
                None => newest_committed(chain.versions@, clog@) == -1,
            },
        decreases n - i,
    {
        let (v, val): (Version, i64) = chain.versions[i];
        let status: Status = clog.get(v.xmin);
        let superseded: bool = match newest {
            Some(k) => idle && status == Status::Committed && i < k,
            None => false,
        };
        if status != Status::Aborted && !superseded {
            kept.push((v, val));
        }
        i = i + 1;
    }
    kept
}

} // verus!
