//! Serializable snapshot isolation: rw-antidependency tracking over the
//! multi-version store, and the dangerous-structure abort at commit.

use std::collections::{BTreeSet, HashMap};

use vstd::prelude::*;

use crate::mvcc::{
    chain_ok, committed, lemma_newest_committed, newest_committed, read_chain, seen, status_of,
    MvccError, MvccStore, SnapView, Snapshot, Status, StoreView,
    TxnId,
};
use crate::sets::members;

verus! {

broadcast use {
    vstd::std_specs::btree::group_btree_axioms,
    vstd::std_specs::hash::group_hash_axioms,
    vstd::laws_cmp::group_laws_cmp,
};

/// What is known of one transaction's dependencies.
#[verifier::ext_equal]
pub ghost struct MetaView {
    pub snapshot: SnapView,
    pub reads: Set<usize>,
    pub writes: Set<usize>,
    pub concurrent: Set<TxnId>,
    pub out_edges: Set<TxnId>,
    pub in_conflict: bool,
}

/// Per-transaction bookkeeping: its snapshot, read/write sets, the set of
/// transactions concurrent with it, its outbound rw-antidependency edges, and
/// whether any inbound edge exists.
#[derive(Debug)]
struct SsiTxnMeta {
    snapshot: Snapshot,
    reads: BTreeSet<usize>,
    writes: BTreeSet<usize>,
    concurrent: BTreeSet<TxnId>,
    /// Transactions this one has an rw-antidependency *to* (it read, they wrote).
    out_edges: BTreeSet<TxnId>,
    /// Some concurrent transaction has an rw-antidependency *to* this one.
    in_conflict: bool,
}

impl View for SsiTxnMeta {
    type V = MetaView;

    closed spec fn view(&self) -> MetaView {
        MetaView {
            snapshot: self.snapshot@,
            reads: self.reads@,
            writes: self.writes@,
            concurrent: self.concurrent@,
            out_edges: self.out_edges@,
            in_conflict: self.in_conflict,
        }
    }
}

/// The state of the serializable store.
#[verifier::ext_equal]
pub ghost struct SsiView {
    pub store: StoreView,
    pub meta: Map<TxnId, MetaView>,
}

impl SsiView {
    /// `a` and `b` ran at the same time.
    pub open spec fn overlap(self, a: TxnId, b: TxnId) -> bool {
        self.meta.dom().contains(a) && self.meta[a].concurrent.contains(b)
    }

    /// `a` read a row that the overlapping `b` wrote.
    pub open spec fn antidepends(self, a: TxnId, b: TxnId, row: usize) -> bool {
        &&& self.overlap(a, b)
        &&& self.meta[a].reads.contains(row)
        &&& self.meta[b].writes.contains(row)
    }

    /// An rw-antidependency from `a` to `b` is recorded.
    pub open spec fn edge(self, a: TxnId, b: TxnId) -> bool {
        self.meta.dom().contains(a) && self.meta[a].out_edges.contains(b)
    }

    /// The store is in order; bookkeeping exists for every running transaction;
    /// overlap is mutual and never with oneself; every rw-antidependency between
    /// overlapping transactions is recorded at both ends, and nothing else is.
    pub open spec fn wf(self) -> bool {
        &&& self.store.wf()
        &&& forall|t: TxnId| #[trigger]
            self.meta.dom().contains(t) ==> self.store.clog.dom().contains(t)
        &&& forall|t: TxnId| self.store.active.contains(t) ==> self.meta.dom().contains(t)
        &&& forall|a: TxnId, b: TxnId| #[trigger]
            self.overlap(a, b) ==> a != b && self.overlap(b, a)
        &&& forall|a: TxnId, b: TxnId, row: usize| #[trigger]
            self.antidepends(a, b, row) ==> self.meta[a].out_edges.contains(b)
                && self.meta[b].in_conflict
        &&& forall|a: TxnId, b: TxnId| #[trigger]
            self.edge(a, b) ==> exists|row: usize| self.antidepends(a, b, row)
        &&& forall|t: TxnId| #[trigger]
            self.meta.dom().contains(t) && self.meta[t].in_conflict
                ==> exists|r: TxnId, row: usize| self.antidepends(r, t, row)
    }

    /// A transaction began: every running one is concurrent with it.
    pub open spec fn begun(self) -> SsiView {
        let id = self.store.next;
        let fresh = MetaView {
            snapshot: self.store.snapshot(),
            reads: Set::empty(),
            writes: Set::empty(),
            concurrent: self.store.active,
            out_edges: Set::empty(),
            in_conflict: false,
        };
        SsiView {
            store: self.store.begun(),
            meta: Map::new(
                |t: TxnId| t == id || self.meta.dom().contains(t),
                |t: TxnId|
                    if t == id {
                        fresh
                    } else if self.store.active.contains(t) {
                        MetaView { concurrent: self.meta[t].concurrent.insert(id), ..self.meta[t] }
                    } else {
                        self.meta[t]
                    },
            ),
        }
    }

    /// The overlapping transactions that wrote `row`.
    pub open spec fn writers(self, txn: TxnId, row: usize) -> Set<TxnId> {
        Set::new(
            |w: TxnId|
                self.overlap(txn, w) && self.meta.dom().contains(w) && self.meta[w].writes.contains(
                    row,
                ),
        )
    }

    /// The overlapping transactions that read `row`.
    pub open spec fn readers(self, txn: TxnId, row: usize) -> Set<TxnId> {
        Set::new(
            |r: TxnId|
                self.overlap(txn, r) && self.meta.dom().contains(r) && self.meta[r].reads.contains(
                    row,
                ),
        )
    }

    /// `txn` read `row`, and edges to the transactions in `ws` were noted.
    pub open spec fn read_noted(self, txn: TxnId, row: usize, ws: Set<TxnId>) -> SsiView {
        SsiView {
            store: self.store,
            meta: Map::new(
                |t: TxnId| self.meta.dom().contains(t),
                |t: TxnId|
                    {
                        let m = self.meta[t];
                        if t == txn {
                            MetaView {
                                reads: m.reads.insert(row),
                                out_edges: m.out_edges.union(ws),
                                ..m
                            }
                        } else if ws.contains(t) {
                            MetaView { in_conflict: true, ..m }
                        } else {
                            m
                        }
                    },
            ),
        }
    }

    /// `txn` is about to write a row, and edges from the transactions in `rs` were
    /// noted.
    pub open spec fn write_noted(self, txn: TxnId, rs: Set<TxnId>) -> SsiView {
        SsiView {
            store: self.store,
            meta: Map::new(
                |t: TxnId| self.meta.dom().contains(t),
                |t: TxnId|
                    {
                        let m = self.meta[t];
                        if t == txn {
                            MetaView {
                                in_conflict: m.in_conflict || exists|r: TxnId| rs.contains(r),
                                ..m
                            }
                        } else if rs.contains(t) {
                            MetaView { out_edges: m.out_edges.insert(txn), ..m }
                        } else {
                            m
                        }
                    },
            ),
        }
    }

    /// `txn` wrote `value` to `row`.
    pub open spec fn updated(self, txn: TxnId, row: usize, value: i64) -> SsiView {
        let noted = self.write_noted(txn, self.readers(txn, row));
        SsiView {
            store: self.store.updated(row as int, txn, value),
            meta: noted.meta.insert(
                txn,
                MetaView {
                    writes: noted.meta[txn].writes.insert(row),
                    ..noted.meta[txn]
                },
            ),
        }
    }

    /// `txn` is the pivot of a dangerous structure: it has an inbound
    /// rw-antidependency and an outbound one to a committed transaction.
    pub open spec fn is_pivot(self, txn: TxnId) -> bool {
        &&& self.meta[txn].in_conflict
        &&& exists|t: TxnId|
            self.meta[txn].out_edges.contains(t) && committed(self.store.clog, t)
    }

    /// `txn` finished with status `s`.
    pub open spec fn finished(self, txn: TxnId, s: Status) -> SsiView {
        SsiView { store: self.store.finished(txn, s), meta: self.meta }
    }

    pub open spec fn commit_result(self, txn: TxnId) -> Result<(), MvccError> {
        if self.is_pivot(txn) {
            Err(MvccError::Serialization)
        } else {
            Ok(())
        }
    }

    /// What a commit leaves.
    pub open spec fn after_commit(self, txn: TxnId) -> SsiView {
        self.finished(
            txn,
            if self.is_pivot(txn) {
                Status::Aborted
            } else {
                Status::Committed
            },
        )
    }
}

spec fn metas(m: Map<TxnId, SsiTxnMeta>) -> Map<TxnId, MetaView> {
    Map::new(|t: TxnId| m.dom().contains(t), |t: TxnId| m[t]@)
}

type MetaMap = HashMap<TxnId, SsiTxnMeta>;

/// Record that `id` runs at the same time as `a`.
fn note_concurrent(meta: &mut MetaMap, a: TxnId, id: TxnId)
    ensures
        metas(final(meta)@) == if old(meta)@.dom().contains(a) {
            metas(old(meta)@).insert(
                a,
                MetaView {
                    concurrent: old(meta)@[a]@.concurrent.insert(id),
                    ..old(meta)@[a]@
                },
            )
        } else {
            metas(old(meta)@)
        },
{
    let ghost before = meta@;
    match meta.remove(&a) {
        Some(m) => {
            let mut m: SsiTxnMeta = m;
            m.concurrent.insert(id);
            meta.insert(a, m);
            assert(metas(meta@) =~= metas(before).insert(
                a,
                MetaView { concurrent: before[a]@.concurrent.insert(id), ..before[a]@ },
            ));
        },
        None => {
            assert(metas(meta@) =~= metas(before));
        },
    }
}

/// Record an rw-antidependency from `reader` to `writer`.
fn note_edge(meta: &mut MetaMap, reader: TxnId, writer: TxnId)
    requires
        old(meta)@.dom().contains(reader),
        old(meta)@.dom().contains(writer),
        reader != writer,
    ensures
        metas(final(meta)@) == metas(old(meta)@).insert(
            reader,
            MetaView {
                out_edges: old(meta)@[reader]@.out_edges.insert(writer),
                ..old(meta)@[reader]@
            },
        ).insert(writer, MetaView { in_conflict: true, ..old(meta)@[writer]@ }),
{
    let ghost before = meta@;
    if let Some(m) = meta.remove(&reader) {
        let mut m: SsiTxnMeta = m;
        m.out_edges.insert(writer);
        meta.insert(reader, m);
    }
    if let Some(m) = meta.remove(&writer) {
        let mut m: SsiTxnMeta = m;
        m.in_conflict = true;
        meta.insert(writer, m);
    }
    assert(metas(meta@) =~= metas(before).insert(
        reader,
        MetaView { out_edges: before[reader]@.out_edges.insert(writer), ..before[reader]@ },
    ).insert(writer, MetaView { in_conflict: true, ..before[writer]@ }));
}

fn note_read(meta: &mut MetaMap, txn: TxnId, row: usize)
    requires
        old(meta)@.dom().contains(txn),
    ensures
        metas(final(meta)@) == metas(old(meta)@).insert(
            txn,
            MetaView { reads: old(meta)@[txn]@.reads.insert(row), ..old(meta)@[txn]@ },
        ),
{
    let ghost before = meta@;
    if let Some(m) = meta.remove(&txn) {
        let mut m: SsiTxnMeta = m;
        m.reads.insert(row);
        meta.insert(txn, m);
    }
    assert(metas(meta@) =~= metas(before).insert(
        txn,
        MetaView { reads: before[txn]@.reads.insert(row), ..before[txn]@ },
    ));
}

fn note_write(meta: &mut MetaMap, txn: TxnId, row: usize)
    requires
        old(meta)@.dom().contains(txn),
    ensures
        metas(final(meta)@) == metas(old(meta)@).insert(
            txn,
            MetaView { writes: old(meta)@[txn]@.writes.insert(row), ..old(meta)@[txn]@ },
        ),
{
    let ghost before = meta@;
    if let Some(m) = meta.remove(&txn) {
        let mut m: SsiTxnMeta = m;
        m.writes.insert(row);
        meta.insert(txn, m);
    }
    assert(metas(meta@) =~= metas(before).insert(
        txn,
        MetaView { writes: before[txn]@.writes.insert(row), ..before[txn]@ },
    ));
}

/// A multi-versioned row -> i64 store under **serializable** snapshot isolation.
///
/// Same storage and visibility as [`MvccStore`], plus rw-antidependency tracking
/// and the dangerous-structure abort at commit. The single behavioral difference
/// a caller sees: the write-skew schedule that [`MvccStore`] commits, this store
/// rejects with [`MvccError::Serialization`].
pub struct SsiStore {
    store: MvccStore,
    meta: MetaMap,
}

impl View for SsiStore {
    type V = SsiView;

    closed spec fn view(&self) -> SsiView {
        SsiView { store: self.store@, meta: metas(self.meta@) }
    }
}

impl Default for SsiStore {
    fn default() -> (s: SsiStore)
        ensures
            s@.wf(),
            s@.store == (StoreView {
                rows: Seq::empty(),
                clog: Map::empty(),
                next: 1,
                active: Set::empty(),
            }),
            s@.meta == Map::<TxnId, MetaView>::empty(),
    {
        SsiStore::new()
    }
}

impl SsiStore {
    pub fn new() -> (s: SsiStore)
        ensures
            s@.wf(),
            s@.store == (StoreView {
                rows: Seq::empty(),
                clog: Map::empty(),
                next: 1,
                active: Set::empty(),
            }),
            s@.meta == Map::<TxnId, MetaView>::empty(),
    {
        let s: SsiStore = SsiStore { store: MvccStore::new(), meta: HashMap::new() };
        assert(s@.meta =~= Map::<TxnId, MetaView>::empty());
        s
    }

    /// Insert an initial committed row, returning its id.
    pub fn bootstrap_row(&mut self, value: i64) -> (row: usize)
        requires
            old(self)@.wf(),
            old(self)@.store.next < u64::MAX,
        ensures
            final(self)@.wf(),
            row == old(self)@.store.rows.len(),
            final(self)@.store == old(self)@.store.with_row(value),
            final(self)@.meta == old(self)@.meta,
    {
        let ghost before = self@;
        let row: usize = self.store.bootstrap_row(value);
        proof {
            lemma_store_step_keeps_wf(before, self@);
        }
        row
    }

    /// Begin a transaction: take a snapshot and record it as concurrent with (and
    /// in) every currently-active transaction.
    pub fn begin(&mut self) -> (id: TxnId)
        requires
            old(self)@.wf(),
            old(self)@.store.next < u64::MAX,
        ensures
            final(self)@.wf(),
            id == old(self)@.store.next,
            final(self)@ == old(self)@.begun(),
    {
        let ghost before = self@;
        let snapshot: Snapshot = self.store.start();
        let id: TxnId = snapshot.xmax;
        let concurrent: BTreeSet<TxnId> = snapshot.in_flight.clone();
        let running: Vec<TxnId> = members(&concurrent);
        let mut k: usize = 0;
        while k < running.len()
            invariant
                k <= running@.len(),
                before.meta.dom() == metas(self.meta@).dom(),
                forall|t: TxnId|
                    before.meta.dom().contains(t) ==> #[trigger] metas(self.meta@)[t] == if running@.take(
                        k as int,
                    ).contains(t) {
                        MetaView {
                            concurrent: before.meta[t].concurrent.insert(id),
                            ..before.meta[t]
                        }
                    } else {
                        before.meta[t]
                    },
                self.store@ == before.store.begun(),
            decreases running.len() - k,
        {
            let ghost prev = metas(self.meta@);
            note_concurrent(&mut self.meta, running[k], id);
            proof {
                let a = running@[k as int];
                let now = metas(self.meta@);
                assert(running@.take(k + 1) =~= running@.take(k as int).push(a));
                assert(now.dom() =~= prev.dom());
                assert forall|t: TxnId| before.meta.dom().contains(t) implies #[trigger] now[t]
                    == if running@.take(k + 1).contains(t) {
                    MetaView { concurrent: before.meta[t].concurrent.insert(id), ..before.meta[t] }
                } else {
                    before.meta[t]
                } by {
                    assert(prev[t] == prev[t]);
                    assert(running@.take(k + 1).contains(t) <==> running@.take(k as int).contains(
                        t,
                    ) || t == a) by {
                        if running@.take(k as int).contains(t) {
                            let j = choose|j: int|
                                0 <= j < k && running@.take(k as int)[j] == t;
                            assert(running@.take(k + 1)[j] == t);
                        }
                        if t == a {
                            assert(running@.take(k + 1)[k as int] == t);
                        }
                    }
                    if t == a {
                        assert(now[t].concurrent =~= before.meta[t].concurrent.insert(id));
                    }
                }
            }
            k = k + 1;
        }
        let ghost noted = self.meta@;
        self.meta.insert(
            id,
            SsiTxnMeta {
                snapshot,
                reads: BTreeSet::new(),
                writes: BTreeSet::new(),
                concurrent,
                out_edges: BTreeSet::new(),
                in_conflict: false,
            },
        );
        proof {
            assert(running@.take(running@.len() as int) =~= running@);
            let after = before.begun().meta;
            assert forall|t: TxnId| after.dom().contains(t) implies #[trigger] self@.meta[t]
                == after[t] by {
                if t != id {
                    assert(metas(noted)[t] == self@.meta[t]);
                } else {
                    assert(self@.meta[t] =~= after[t]);
                }
            }
            assert(self@.meta =~= after);
            assert(self@ =~= before.begun());
            lemma_begin_keeps_wf(before);
        }
        id
    }

    /// The value of `row` visible to `txn`. Records the read and any
    /// rw-antidependency to a concurrent transaction that already wrote `row`
    /// (this txn read an older version: `txn -> writer`).
    pub fn read(&mut self, txn: TxnId, row: usize) -> (r: Result<i64, MvccError>)
        requires
            old(self)@.wf(),
            old(self)@.meta.dom().contains(txn),
            row < old(self)@.store.rows.len(),
        ensures
            final(self)@.wf(),
            final(self)@ == old(self)@.read_noted(txn, row, old(self)@.writers(txn, row)),
            r == old(self)@.store.value(row as int, old(self)@.meta[txn].snapshot, txn),
    {
        let ghost before = self@;
        let (snap, concurrent): (Snapshot, Vec<TxnId>) = match self.meta.get(&txn) {
            Some(m) => (m.snapshot.clone(), members(&m.concurrent)),
            None => (Snapshot { xmax: 0, in_flight: BTreeSet::new() }, Vec::new()),
        };
        assert(snap@ == before.meta[txn].snapshot);
        note_read(&mut self.meta, txn, row);
        let ghost mut ws = Set::<TxnId>::empty();
        proof {
            let want = before.read_noted(txn, row, ws).meta;
            assert(want[txn].out_edges =~= before.meta[txn].out_edges);
            assert(self@.meta =~= want);
        }
        let mut k: usize = 0;
        while k < concurrent.len()
            invariant
                before.wf(),
                before.meta.dom().contains(txn),
                k <= concurrent@.len(),
                forall|t: TxnId| before.meta[txn].concurrent.contains(t) <==> concurrent@.contains(t),
                self.store@ == before.store,
                self@.meta == before.read_noted(txn, row, ws).meta,
                forall|w: TxnId| ws.contains(w) ==> before.writers(txn, row).contains(w),
                forall|j: int|
                    0 <= j < k && before.writers(txn, row).contains(#[trigger] concurrent@[j])
                        ==> ws.contains(concurrent@[j]),
            decreases concurrent.len() - k,
        {
            let w: TxnId = concurrent[k];
            assert(concurrent@.contains(w));
            assert(before.overlap(txn, w));
            assert(before.overlap(w, txn));
            let wrote: bool = match self.meta.get(&w) {
                Some(m) => m.writes.contains(&row),
                None => false,
            };
            proof {
                let noted = before.read_noted(txn, row, ws).meta;
                assert(noted.dom().contains(w) && noted.dom().contains(txn));
                assert(metas(self.meta@).dom().contains(w) && metas(self.meta@).dom().contains(
                    txn,
                ));
                assert(self@.meta.dom().contains(w) && self.meta@.dom().contains(w));
                assert(self@.meta[w] == self.meta@[w]@);
                assert(wrote == before.writers(txn, row).contains(w));
            }
            if wrote {
                let ghost prev = self@.meta;
                proof {
                    assert(prev[txn] == self.meta@[txn]@);
                }
                note_edge(&mut self.meta, txn, w);
                proof {
                    let now = ws.insert(w);
                    let want = before.read_noted(txn, row, now).meta;
                    assert forall|t: TxnId| want.dom().contains(t) implies #[trigger] self@.meta[t]
                        =~= want[t] by {
                        if t == txn {
                            assert(prev[t].out_edges.insert(w) =~= want[t].out_edges);
                        }
                    }
                    assert(self@.meta =~= want);
                    ws = now;
                }
            }
            k = k + 1;
        }
        proof {
            assert(ws =~= before.writers(txn, row)) by {
                assert forall|w: TxnId| before.writers(txn, row).contains(w) implies ws.contains(
                    w,
                ) by {
                    assert(concurrent@.contains(w));
                    let j = choose|j: int| 0 <= j < concurrent@.len() && concurrent@[j] == w;
                    assert(concurrent@[j] == w);
                }
            }
            lemma_read_keeps_wf(before, txn, row);
        }
        read_chain(&self.store.rows[row], &snap, &self.store.clog, txn)
    }

    /// Update `row`. First-updater-wins (as in [`MvccStore`]), plus: any
    /// concurrent transaction that already read `row` gains an rw-antidependency
    /// to this one (`reader -> txn`).
    pub fn update(&mut self, txn: TxnId, row: usize, value: i64) -> (r: Result<(), MvccError>)
        requires
            old(self)@.wf(),
            old(self)@.meta.dom().contains(txn),
            row < old(self)@.store.rows.len(),
        ensures
            final(self)@.wf(),
            r == if old(self)@.store.may_write(row as int, old(self)@.meta[txn].snapshot, txn) {
                Ok::<(), MvccError>(())
            } else {
                Err(MvccError::WriteConflict)
            },
            r is Ok ==> final(self)@ == old(self)@.updated(txn, row, value),
            r is Err ==> final(self)@ == old(self)@,
    {
        let ghost before = self@;
        assert(self.meta@.dom().contains(txn)) by {
            assert(before.meta.dom().contains(txn));
        }
        let (snap, concurrent): (Snapshot, Vec<TxnId>) = match self.meta.get(&txn) {
            Some(m) => (m.snapshot.clone(), members(&m.concurrent)),
            None => (Snapshot { xmax: 0, in_flight: BTreeSet::new() }, Vec::new()),
        };
        assert(snap@ == before.meta[txn].snapshot);
        match self.store.try_write(txn, &snap, row, value) {
            Ok(()) => {},
            Err(e) => {
                return Err(e);
            },
        }
        let ghost mut rs = Set::<TxnId>::empty();
        assert(self@.meta =~= before.write_noted(txn, rs).meta);
        let mut k: usize = 0;
        while k < concurrent.len()
            invariant
                before.wf(),
                before.meta.dom().contains(txn),
                k <= concurrent@.len(),
                forall|t: TxnId| before.meta[txn].concurrent.contains(t) <==> concurrent@.contains(t),
                self.store@ == before.store.updated(row as int, txn, value),
                self.store@.wf(),
                self@.meta == before.write_noted(txn, rs).meta,
                forall|w: TxnId| rs.contains(w) ==> before.readers(txn, row).contains(w),
                forall|j: int|
                    0 <= j < k && before.readers(txn, row).contains(#[trigger] concurrent@[j])
                        ==> rs.contains(concurrent@[j]),
            decreases concurrent.len() - k,
        {
            let w: TxnId = concurrent[k];
            assert(concurrent@.contains(w));
            assert(before.overlap(txn, w));
            assert(before.overlap(w, txn));
            let read: bool = match self.meta.get(&w) {
                Some(m) => m.reads.contains(&row),
                None => false,
            };
            proof {
                let noted = before.write_noted(txn, rs).meta;
                assert(noted.dom().contains(w) && noted.dom().contains(txn));
                assert(metas(self.meta@).dom().contains(w) && metas(self.meta@).dom().contains(
                    txn,
                ));
                assert(self@.meta.dom().contains(w) && self.meta@.dom().contains(w));
                assert(self@.meta[w] == self.meta@[w]@);
                assert(read == before.readers(txn, row).contains(w));
            }
            if read {
                let ghost prev = self@.meta;
                proof {
                    assert(prev[txn] == self.meta@[txn]@);
                }
                note_edge(&mut self.meta, w, txn);
                proof {
                    let now = rs.insert(w);
                    let want = before.write_noted(txn, now).meta;
                    assert(now.contains(w));
                    assert forall|t: TxnId| want.dom().contains(t) implies #[trigger] self@.meta[t]
                        =~= want[t] by {
                        if t == w {
                            assert(prev[t].out_edges.insert(txn) =~= want[t].out_edges);
                        }
                    }
                    assert(self@.meta =~= want);
                    rs = now;
                }
            }
            k = k + 1;
        }
        proof {
            assert(rs =~= before.readers(txn, row)) by {
                assert forall|w: TxnId| before.readers(txn, row).contains(w) implies rs.contains(
                    w,
                ) by {
                    assert(concurrent@.contains(w));
                    let j = choose|j: int| 0 <= j < concurrent@.len() && concurrent@[j] == w;
                    assert(concurrent@[j] == w);
                }
            }
            assert(self@.meta[txn] == self.meta@[txn]@);
        }
        note_write(&mut self.meta, txn, row);
        proof {
            assert(self@.meta =~= before.updated(txn, row, value).meta);
            lemma_update_keeps_wf(before, txn, row, value);
        }
        Ok(())
    }

    /// Commit. Aborts with [`MvccError::Serialization`] iff `txn` is the pivot of
    /// a completed dangerous structure: it has an inbound rw-antidependency and an
    /// outbound one to an already-committed transaction.
    ///
    /// A transaction that has finished already is given the new outcome.
    pub fn commit(&mut self, txn: TxnId) -> (r: Result<(), MvccError>)
        requires
            old(self)@.wf(),
            old(self)@.meta.dom().contains(txn),
        ensures
            old(self)@.store.active.contains(txn) || final(self)@.store.wf() ==> final(self)@.wf(),
            r == old(self)@.commit_result(txn),
            final(self)@ == old(self)@.after_commit(txn),
    {
        let ghost before = self@;
        assert(self.meta@.dom().contains(txn)) by {
            assert(before.meta.dom().contains(txn));
        }
        let (has_in, out): (bool, Vec<TxnId>) = match self.meta.get(&txn) {
            Some(m) => (m.in_conflict, members(&m.out_edges)),
            None => (false, Vec::new()),
        };
        assert(before.meta[txn] == self.meta@[txn]@);
        let mut out_to_committed: bool = false;
        let mut k: usize = 0;
        while k < out.len()
            invariant
                k <= out@.len(),
                self@ == before,
                out_to_committed == exists|j: int|
                    0 <= j < k && committed(before.store.clog, #[trigger] out@[j]),
            decreases out.len() - k,
        {
            if self.store.clog.is_committed(out[k]) {
                assert(committed(before.store.clog, out@[k as int]));
                out_to_committed = true;
            }
            k = k + 1;
        }
        proof {
            assert(out_to_committed == exists|t: TxnId|
                before.meta[txn].out_edges.contains(t) && committed(before.store.clog, t)) by {
                if out_to_committed {
                    let j = choose|j: int|
                        0 <= j < out@.len() && committed(before.store.clog, #[trigger] out@[j]);
                    assert(out@.contains(out@[j]));
                }
                if exists|t: TxnId|
                    before.meta[txn].out_edges.contains(t) && committed(before.store.clog, t) {
                    let t = choose|t: TxnId|
                        before.meta[txn].out_edges.contains(t) && committed(before.store.clog, t);
                    assert(out@.contains(t));
                    let j = choose|j: int| 0 <= j < out@.len() && out@[j] == t;
                    assert(committed(before.store.clog, out@[j]));
                }
            }
        }
        if has_in && out_to_committed {
            self.abort(txn);
            return Err(MvccError::Serialization);
        }
        self.record(txn, Status::Committed);
        Ok(())
    }

    fn record(&mut self, txn: TxnId, s: Status)
        requires
            old(self)@.wf(),
            s != Status::InProgress,
        ensures
            final(self)@ == old(self)@.finished(txn, s),
            old(self)@.store.active.contains(txn) || final(self)@.store.wf() ==> final(self)@.wf(),
    {
        let ghost before = self@;
        self.store.settle(txn, s);
        proof {
            if self@.store.wf() {
                lemma_store_step_keeps_wf(before, self@);
            }
        }
    }

    /// Undo the transaction, whether it is running, has committed, or never began.
    /// Aborting it again changes nothing. The rows are in order afterwards unless it
    /// had committed and some row has no other committed version.
    pub fn abort(&mut self, txn: TxnId)
        requires
            old(self)@.wf(),
        ensures
            final(self)@ == old(self)@.finished(txn, Status::Aborted),
            final(self)@.store.wf() ==> final(self)@.wf(),
            txn < old(self)@.store.next && (forall|r: int|
                0 <= r < old(self)@.store.rows.len() ==> newest_committed(
                    #[trigger] old(self)@.store.rows[r],
                    old(self)@.store.clog.insert(txn, Status::Aborted),
                ) >= 0) ==> final(self)@.wf(),
            txn < old(self)@.store.next && status_of(old(self)@.store.clog, txn)
                != Status::Committed ==> final(self)@.wf(),
    {
        let ghost before = self@;
        self.record(txn, Status::Aborted);
        proof {
            let clog = before.store.clog.insert(txn, Status::Aborted);
            if txn < before.store.next {
                assert forall|r: int|
                    0 <= r < before.store.rows.len() && (status_of(before.store.clog, txn)
                        != Status::Committed || newest_committed(
                        #[trigger] before.store.rows[r],
                        clog,
                    ) >= 0) implies chain_ok(before.store.rows[r], clog) by {
                    let chain = before.store.rows[r];
                    assert(chain_ok(chain, before.store.clog));
                    lemma_newest_committed(chain, before.store.clog);
                    lemma_newest_committed(chain, clog);
                    assert(committed(
                        before.store.clog,
                        chain[newest_committed(chain, before.store.clog)].0.xmin,
                    ));
                }
            }
        }
    }
}

/// A step of the store alone that forgets no id and starts no transaction.
proof fn lemma_store_step_keeps_wf(before: SsiView, after: SsiView)
    requires
        before.wf(),
        after.meta == before.meta,
        after.store.wf(),
        before.store.clog.dom().subset_of(after.store.clog.dom()),
        after.store.active.subset_of(before.store.active),
    ensures
        after.wf(),
{
    assert(forall|a: TxnId, b: TxnId| after.edge(a, b) == before.edge(a, b));
    assert(forall|a: TxnId, b: TxnId| after.overlap(a, b) == before.overlap(a, b));
    assert(forall|a: TxnId, b: TxnId, row: usize|
        after.antidepends(a, b, row) == before.antidepends(a, b, row));
}

proof fn lemma_begin_keeps_wf(v: SsiView)
    requires
        v.wf(),
        v.store.next < u64::MAX,
        v.store.begun().wf(),
    ensures
        v.begun().wf(),
{
    let w = v.begun();
    let id = v.store.next;
    assert forall|a: TxnId, b: TxnId| #[trigger] w.overlap(a, b) implies a != b && w.overlap(
        b,
        a,
    ) by {
        if a != id && b != id {
            assert(v.overlap(a, b));
            assert(v.overlap(b, a));
        } else if a != id {
            if !v.store.active.contains(a) {
                assert(v.overlap(a, b));
                assert(v.overlap(b, a));
            }
        }
    }
    assert forall|a: TxnId, b: TxnId, row: usize| #[trigger] w.antidepends(
        a,
        b,
        row,
    ) implies w.meta[a].out_edges.contains(b) && w.meta[b].in_conflict by {
        assert(w.overlap(a, b));
        assert(w.overlap(b, a));
        assert(v.antidepends(a, b, row));
    }
    lemma_edges_stay(v, w);
}

/// Where no antidependency is forgotten, and every new edge is one, nothing but
/// antidependencies is recorded.
proof fn lemma_edges_stay(v: SsiView, w: SsiView)
    requires
        v.wf(),
        forall|a: TxnId, b: TxnId, row: usize| #[trigger]
            v.antidepends(a, b, row) ==> w.antidepends(a, b, row),
        forall|a: TxnId, b: TxnId| #[trigger]
            w.edge(a, b) ==> v.edge(a, b) || exists|row: usize| w.antidepends(a, b, row),
        forall|t: TxnId| #[trigger]
            w.meta.dom().contains(t) && w.meta[t].in_conflict ==> (v.meta.dom().contains(t)
                && v.meta[t].in_conflict) || exists|r: TxnId, row: usize| w.antidepends(r, t, row),
    ensures
        forall|a: TxnId, b: TxnId| #[trigger]
            w.edge(a, b) ==> exists|row: usize| w.antidepends(a, b, row),
        forall|t: TxnId| #[trigger]
            w.meta.dom().contains(t) && w.meta[t].in_conflict ==> exists|r: TxnId, row: usize|
                w.antidepends(r, t, row),
{
    assert forall|a: TxnId, b: TxnId| #[trigger] w.edge(a, b) implies exists|row: usize|
        w.antidepends(a, b, row) by {
        if v.edge(a, b) {
            let row = choose|row: usize| v.antidepends(a, b, row);
            assert(w.antidepends(a, b, row));
        }
    }
    assert forall|t: TxnId| #[trigger]
        w.meta.dom().contains(t) && w.meta[t].in_conflict implies exists|r: TxnId, row: usize|
        w.antidepends(r, t, row) by {
        if v.meta.dom().contains(t) && v.meta[t].in_conflict {
            let (r, row) = choose|r: TxnId, row: usize| v.antidepends(r, t, row);
            assert(w.antidepends(r, t, row));
        }
    }
}

proof fn lemma_read_keeps_wf(v: SsiView, txn: TxnId, row: usize)
    requires
        v.wf(),
        v.meta.dom().contains(txn),
    ensures
        v.read_noted(txn, row, v.writers(txn, row)).wf(),
{
    let ws = v.writers(txn, row);
    let w = v.read_noted(txn, row, ws);
    assert forall|a: TxnId, b: TxnId| #[trigger] w.overlap(a, b) implies a != b && w.overlap(
        b,
        a,
    ) by {
        assert(v.overlap(a, b));
        assert(v.overlap(b, a));
    }
    assert forall|a: TxnId, b: TxnId, r: usize| #[trigger] w.antidepends(a, b, r) implies w.meta[a].out_edges.contains(
    b) && w.meta[b].in_conflict by {
        assert(v.overlap(a, b));
        assert(v.overlap(b, a));
        if a == txn && r == row {
            assert(ws.contains(b));
        } else {
            assert(v.antidepends(a, b, r));
        }
    }
    assert forall|a: TxnId, b: TxnId, r: usize| #[trigger] v.antidepends(a, b, r) implies w.antidepends(
        a,
        b,
        r,
    ) by {
        assert(v.overlap(a, b) && v.overlap(b, a));
    }
    assert forall|b: TxnId| #[trigger] ws.contains(b) implies w.antidepends(txn, b, row) by {
        assert(v.overlap(txn, b) && v.overlap(b, txn));
    }
    lemma_edges_stay(v, w);
}

proof fn lemma_update_keeps_wf(v: SsiView, txn: TxnId, row: usize, value: i64)
    requires
        v.wf(),
        v.meta.dom().contains(txn),
        v.store.updated(row as int, txn, value).wf(),
    ensures
        v.updated(txn, row, value).wf(),
{
    let rs = v.readers(txn, row);
    let w = v.updated(txn, row, value);
    assert forall|a: TxnId, b: TxnId| #[trigger] w.overlap(a, b) implies a != b && w.overlap(
        b,
        a,
    ) by {
        assert(v.overlap(a, b));
        assert(v.overlap(b, a));
    }
    assert forall|a: TxnId, b: TxnId, r: usize| #[trigger] w.antidepends(a, b, r) implies w.meta[a].out_edges.contains(
    b) && w.meta[b].in_conflict by {
        assert(v.overlap(a, b));
        assert(v.overlap(b, a));
        if b == txn && r == row {
            assert(rs.contains(a));
        } else {
            assert(v.antidepends(a, b, r));
        }
    }
    assert forall|a: TxnId, b: TxnId, r: usize| #[trigger] v.antidepends(a, b, r) implies w.antidepends(
        a,
        b,
        r,
    ) by {
        assert(v.overlap(a, b) && v.overlap(b, a));
    }
    assert forall|a: TxnId| #[trigger] rs.contains(a) implies w.antidepends(a, txn, row) by {
        assert(v.overlap(txn, a) && v.overlap(a, txn));
    }
    lemma_edges_stay(v, w);
}

/// A transaction overlaps with those that were running when it began.
pub proof fn law_overlap_is_recorded_at_begin(v: SsiView, other: TxnId)
    requires
        v.wf(),
        v.store.next < u64::MAX,
    ensures
        v.begun().overlap(v.store.next, other) <==> v.store.active.contains(other),
        v.begun().overlap(other, v.store.next) <==> v.store.active.contains(other),
{
    let id = v.store.next;
    if v.overlap(other, id) {
        assert(v.overlap(id, other));
    }
}

/// A commit fails if and only if some overlapping transaction read a row that this one
/// wrote, and this one read a row that some overlapping transaction wrote that has
/// committed already.
pub proof fn law_commit_fails_iff_pivot(v: SsiView, txn: TxnId)
    requires
        v.wf(),
        v.meta.dom().contains(txn),
    ensures
        v.commit_result(txn) == Err::<(), MvccError>(MvccError::Serialization) <==> (exists|
            r: TxnId,
            row: usize,
        |
            v.antidepends(r, txn, row)) && (exists|w: TxnId, row: usize|
            #![trigger v.antidepends(txn, w, row)]
            v.antidepends(txn, w, row) && committed(v.store.clog, w)),
{
    if v.is_pivot(txn) {
        let w = choose|w: TxnId|
            v.meta[txn].out_edges.contains(w) && committed(v.store.clog, w);
        assert(v.edge(txn, w));
        let row = choose|row: usize| v.antidepends(txn, w, row);
        assert(v.antidepends(txn, w, row));
    }
    if exists|r: TxnId, row: usize| v.antidepends(r, txn, row) {
        let (r, row) = choose|r: TxnId, row: usize| v.antidepends(r, txn, row);
        assert(v.antidepends(r, txn, row));
    }
    if exists|w: TxnId, row: usize|
        #![trigger v.antidepends(txn, w, row)]
        v.antidepends(txn, w, row) && committed(v.store.clog, w) {
        let (w, row) = choose|w: TxnId, row: usize|
            #![trigger v.antidepends(txn, w, row)]
            v.antidepends(txn, w, row) && committed(v.store.clog, w);
        assert(v.meta[txn].out_edges.contains(w));
    }
}

/// After a failed commit no later transaction sees what the transaction wrote, after a
/// successful one every later transaction does.
pub proof fn law_commit_decides_what_is_seen(v: SsiView, txn: TxnId, snap: SnapView, reader: TxnId)
    requires
        v.wf(),
        v.store.active.contains(txn),
        v.store.next < u64::MAX,
    ensures
        ({
            let w = v.after_commit(txn);
            let later = w.store.begun();
            match v.commit_result(txn) {
                Ok(()) => seen(txn, w.store.snapshot(), later.clog, w.store.next),
                Err(_) => reader != txn ==> !seen(txn, snap, later.clog, reader),
            }
        }),
{
}

/// A transaction that wrote nothing always commits.
pub proof fn law_read_only_never_aborts(v: SsiView, txn: TxnId)
    requires
        v.wf(),
        v.meta.dom().contains(txn),
        v.meta[txn].writes == Set::<usize>::empty(),
    ensures
        v.commit_result(txn) == Ok::<(), MvccError>(()),
{
}

/// Write skew is refused: of two overlapping transactions, each of which read a
/// row that the other wrote, at most one commits.
pub proof fn law_write_skew_is_refused(v: SsiView, a: TxnId, b: TxnId, x: usize, y: usize)
    requires
        v.wf(),
        v.antidepends(a, b, y),
        v.antidepends(b, a, x),
    ensures
        v.commit_result(a) is Ok ==> v.after_commit(a).commit_result(b) == Err::<(), MvccError>(
            MvccError::Serialization,
        ),
{
    let w = v.after_commit(a);
    if v.commit_result(a) is Ok {
        assert(w.meta[b].out_edges.contains(a) && committed(w.store.clog, a));
    }
}

/// Where no overlapping transaction touched what it read or wrote, a transaction
/// has no edges in and commits.
pub proof fn law_no_inbound_edge_commits(v: SsiView, txn: TxnId)
    requires
        v.wf(),
        v.meta.dom().contains(txn),
        !v.meta[txn].in_conflict,
    ensures
        v.commit_result(txn) == Ok::<(), MvccError>(()),
{
}

} // verus!
