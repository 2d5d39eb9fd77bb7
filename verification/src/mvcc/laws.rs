//! What snapshot isolation promises of whole histories, stated over the states
//! that the store's operations lead to.

use vstd::prelude::*;

use crate::mvcc::{
    chain_ok, chain_updated, committed, lemma_newest_committed, lemma_newest_live,
    lemma_newest_live_unmarked, lemma_update_keeps_chain, lemma_vacuumed_at, lemma_vacuumed_from,
    newest_committed, newest_live, seen, shows, status_of, total_versions, vacuum_keeps, vacuumed,
    value_seen,
    ChainView, MvccError, SnapView, Status, StoreView, TxnId, Version, INVALID,
};

verus! {

/// Visibility, over every version, status table, snapshot and reader: an aborted
/// insertion shows to nobody else; what shows was inserted by the reader or
/// committed before the snapshot; a committed, undeleted version from before the
/// snapshot shows, and so does the reader's own undeleted insertion.
pub proof fn law_visibility(v: Version, snap: SnapView, clog: Map<TxnId, Status>, reader: TxnId)
    ensures
        status_of(clog, v.xmin) == Status::Aborted && v.xmin != reader ==> !shows(
            v,
            snap,
            clog,
            reader,
        ),
        shows(v, snap, clog, reader) ==> v.xmin == reader || (committed(clog, v.xmin)
            && snap.precedes(v.xmin)),
        v.xmax == INVALID && committed(clog, v.xmin) && snap.precedes(v.xmin) ==> shows(
            v,
            snap,
            clog,
            reader,
        ),
        v.xmax == INVALID && v.xmin == reader ==> shows(v, snap, clog, reader),
{
}

/// `id` is active and its snapshot covers every transaction that was running when
/// it was taken.
pub open spec fn reader_ok(v: StoreView, snap: SnapView, id: TxnId) -> bool {
    &&& v.active.contains(id)
    &&& snap.xmax <= v.next
    &&& forall|t: TxnId| #[trigger]
        v.active.contains(t) && t != id && t < snap.xmax ==> snap.in_flight.contains(t)
}

/// A transaction holds such a snapshot from the moment it begins.
pub proof fn law_begin_takes_a_snapshot(v: StoreView)
    requires
        v.wf(),
        v.next < u64::MAX,
    ensures
        reader_ok(v.begun(), v.snapshot(), v.next),
{
}

/// It keeps covering them while rows are added, other transactions begin, write,
/// finish, and while vacuum runs.
pub proof fn law_snapshots_stay_valid(
    v: StoreView,
    snap: SnapView,
    id: TxnId,
    other: TxnId,
    s: Status,
    row: int,
    value: i64,
)
    requires
        v.wf(),
        v.next < u64::MAX,
        reader_ok(v, snap, id),
        other != id,
        s != Status::InProgress,
    ensures
        reader_ok(v.with_row(value), snap, id),
        reader_ok(v.begun(), snap, id),
        reader_ok(v.finished(other, s), snap, id),
        reader_ok(v.updated(row, other, value), snap, id),
        reader_ok(v.vacuumed(), snap, id),
{
}

/// Two chains whose versions show alike give the same value.
proof fn lemma_value_pointwise(
    c: ChainView,
    d: ChainView,
    snap: SnapView,
    clog: Map<TxnId, Status>,
    clog2: Map<TxnId, Status>,
    reader: TxnId,
)
    requires
        c.len() == d.len(),
        forall|i: int|
            0 <= i < c.len() ==> shows((#[trigger] c[i]).0, snap, clog, reader) == shows(
                d[i].0,
                snap,
                clog2,
                reader,
            ) && c[i].1 == d[i].1,
    ensures
        value_seen(c, snap, clog, reader) == value_seen(d, snap, clog2, reader),
    decreases c.len(),
{
    if c.len() > 0 {
        assert(c.last() == c[c.len() - 1]);
        assert forall|i: int| 0 <= i < c.drop_last().len() implies shows(
            (#[trigger] c.drop_last()[i]).0,
            snap,
            clog,
            reader,
        ) == shows(d.drop_last()[i].0, snap, clog2, reader) && c.drop_last()[i].1
            == d.drop_last()[i].1 by {
            assert(c.drop_last()[i] == c[i]);
        }
        lemma_value_pointwise(c.drop_last(), d.drop_last(), snap, clog, clog2, reader);
    }
}

/// Snapshot reads are repeatable: what a running transaction reads from a row
/// does not change when another transaction begins.
pub proof fn law_reads_ignore_beginnings(v: StoreView, snap: SnapView, id: TxnId, row: int)
    requires
        v.wf(),
        reader_ok(v, snap, id),
        0 <= row < v.rows.len(),
    ensures
        v.begun().value(row, snap, id) == v.value(row, snap, id),
{
    let c = v.rows[row];
    assert(forall|t: TxnId|
        seen(t, snap, v.clog, id) == seen(t, snap, v.clog.insert(v.next, Status::InProgress), id));
    lemma_value_pointwise(c, c, snap, v.clog.insert(v.next, Status::InProgress), v.clog, id);
}

/// Nor when another transaction commits or aborts.
pub proof fn law_reads_ignore_other_outcomes(
    v: StoreView,
    snap: SnapView,
    id: TxnId,
    other: TxnId,
    s: Status,
    row: int,
)
    requires
        v.wf(),
        reader_ok(v, snap, id),
        v.active.contains(other),
        other != id,
        0 <= row < v.rows.len(),
    ensures
        v.finished(other, s).value(row, snap, id) == v.value(row, snap, id),
{
    let c = v.rows[row];
    assert(forall|t: TxnId|
        seen(t, snap, v.clog, id) == seen(t, snap, v.clog.insert(other, s), id));
    lemma_value_pointwise(c, c, snap, v.clog.insert(other, s), v.clog, id);
}

/// Nor when another transaction writes, to this row or any other.
pub proof fn law_reads_ignore_other_writes(
    v: StoreView,
    snap: SnapView,
    id: TxnId,
    other: TxnId,
    written: int,
    value: i64,
    row: int,
)
    requires
        v.wf(),
        reader_ok(v, snap, id),
        v.active.contains(other),
        other != id,
        0 <= written < v.rows.len(),
        0 <= row < v.rows.len(),
    ensures
        v.updated(written, other, value).value(row, snap, id) == v.value(row, snap, id),
{
    if written == row {
        let c = v.rows[row];
        let d = chain_updated(c, v.clog, other, value);
        let nl = newest_live(c, v.clog);
        assert(chain_ok(c, v.clog));
        lemma_newest_live_unmarked(c, v.clog);
        assert(d.drop_last().len() == c.len());
        assert forall|i: int| 0 <= i < c.len() implies shows(
            (#[trigger] c[i]).0,
            snap,
            v.clog,
            id,
        ) == shows(d.drop_last()[i].0, snap, v.clog, id) && c[i].1 == d.drop_last()[i].1 by {
            if i != nl {
                assert(d.drop_last()[i] == c[i]);
            }
        }
        lemma_value_pointwise(c, d.drop_last(), snap, v.clog, v.clog, id);
    }
}

/// A transaction reads back what it wrote.
pub proof fn law_reads_own_write(v: StoreView, snap: SnapView, id: TxnId, row: int, value: i64)
    requires
        0 <= row < v.rows.len(),
    ensures
        v.updated(row, id, value).value(row, snap, id) == Ok::<i64, MvccError>(value),
{
}

/// A transaction that begins after a commit reads what was committed.
pub proof fn law_later_snapshots_see_the_commit(v: StoreView, id: TxnId, row: int, value: i64)
    requires
        v.wf(),
        v.active.contains(id),
        id != INVALID,
        v.next < u64::MAX,
        0 <= row < v.rows.len(),
    ensures
        ({
            let w = v.updated(row, id, value).finished(id, Status::Committed);
            w.begun().value(row, w.snapshot(), w.next) == Ok::<i64, MvccError>(value)
        }),
{
}

/// First updater wins: once `first` has written a row, no other running
/// transaction may write it, neither while `first` runs nor, if its snapshot
/// does not precede the commit, after `first` committed.
pub proof fn law_first_updater_wins(
    v: StoreView,
    first: TxnId,
    second: TxnId,
    snap: SnapView,
    row: int,
    value: i64,
)
    requires
        v.wf(),
        v.active.contains(first),
        reader_ok(v, snap, second),
        first != second,
        0 <= row < v.rows.len(),
    ensures
        !v.updated(row, first, value).may_write(row, snap, second),
        !v.updated(row, first, value).finished(first, Status::Committed).may_write(
            row,
            snap,
            second,
        ),
{
    let c = v.rows[row];
    assert(chain_ok(c, v.clog));
    lemma_update_keeps_chain(c, v.clog, first, value);
    let w = v.updated(row, first, value);
    let d = w.rows[row];
    assert(d.last().0.xmin == first);
    assert(newest_live(d, v.clog.insert(first, Status::Committed)) == d.len() - 1);
}

/// An aborted write leaves no trace on who may write next: the outcome of any
/// later update is what it would have been without the aborted transaction's
/// write.
pub proof fn law_aborted_write_does_not_poison(
    v: StoreView,
    aborted: TxnId,
    second: TxnId,
    snap: SnapView,
    row: int,
    value: i64,
)
    requires
        v.wf(),
        v.active.contains(aborted),
        reader_ok(v, snap, second),
        aborted != second,
        0 <= row < v.rows.len(),
        forall|i: int|
            0 <= i < v.rows[row].len() ==> (#[trigger] v.rows[row][i]).0.xmin != aborted,
    ensures
        v.updated(row, aborted, value).finished(aborted, Status::Aborted).may_write(
            row,
            snap,
            second,
        ) == v.may_write(row, snap, second),
{
    let c = v.rows[row];
    let w = v.updated(row, aborted, value).finished(aborted, Status::Aborted);
    let d = w.rows[row];
    assert(chain_ok(c, v.clog));
    lemma_newest_live_unmarked(c, v.clog);
    lemma_newest_live(c, v.clog);
    lemma_newest_live(d, w.clog);
    let nl = newest_live(c, v.clog);
    assert(d[nl].0.xmin == c[nl].0.xmin);
    assert forall|i: int| nl < i < d.len() implies status_of(w.clog, (#[trigger] d[i]).0.xmin)
        == Status::Aborted by {
        if i < c.len() {
            assert(d[i].0.xmin == c[i].0.xmin);
        }
    }
    assert(newest_live(d, w.clog) == nl);
}

/// Dropping versions that do not show changes no value.
proof fn lemma_value_of_vacuumed(
    chain: ChainView,
    clog: Map<TxnId, Status>,
    idle: bool,
    n: int,
    snap: SnapView,
    reader: TxnId,
)
    requires
        0 <= n <= chain.len(),
        forall|i: int|
            0 <= i < n && !vacuum_keeps(chain, clog, idle, i) ==> !shows(
                (#[trigger] chain[i]).0,
                snap,
                clog,
                reader,
            ),
    ensures
        value_seen(vacuumed(chain, clog, idle, n), snap, clog, reader) == value_seen(
            chain.take(n),
            snap,
            clog,
            reader,
        ),
    decreases n,
{
    if n > 0 {
        lemma_value_of_vacuumed(chain, clog, idle, n - 1, snap, reader);
        assert(chain.take(n).drop_last() =~= chain.take(n - 1));
        assert(chain.take(n).last() == chain[n - 1]);
        if vacuum_keeps(chain, clog, idle, n - 1) {
            assert(vacuumed(chain, clog, idle, n).drop_last() =~= vacuumed(
                chain,
                clog,
                idle,
                n - 1,
            ));
        }
    }
}

/// Vacuum changes no value that a running transaction reads.
pub proof fn law_vacuum_keeps_running_reads(v: StoreView, snap: SnapView, id: TxnId, row: int)
    requires
        v.wf(),
        v.active.contains(id),
        0 <= row < v.rows.len(),
    ensures
        v.vacuumed().value(row, snap, id) == v.value(row, snap, id),
{
    let c = v.rows[row];
    assert(!v.active.is_empty());
    lemma_value_of_vacuumed(c, v.clog, false, c.len() as int, snap, id);
    assert(c.take(c.len() as int) =~= c);
}

/// Nor one that a later transaction will read; and where nothing is active it
/// leaves one version of every row.
pub proof fn law_vacuum_keeps_later_reads(v: StoreView, row: int)
    requires
        v.wf(),
        v.next < u64::MAX,
        0 <= row < v.rows.len(),
    ensures
        v.vacuumed().begun().value(row, v.snapshot(), v.next) == v.begun().value(
            row,
            v.snapshot(),
            v.next,
        ),
        v.active.is_empty() ==> v.vacuumed().rows[row].len() == 1,
{
    let c = v.rows[row];
    let n = c.len() as int;
    let idle = v.active.is_empty();
    let snap = v.snapshot();
    let clog = v.clog.insert(v.next, Status::InProgress);
    let vac = vacuumed(c, v.clog, idle, n);
    assert(chain_ok(c, v.clog));
    assert(c.take(n) =~= c);
    assert(forall|t: TxnId| seen(t, snap, v.clog, v.next) == seen(t, snap, clog, v.next));
    lemma_value_pointwise(c, c, snap, v.clog, clog, v.next);
    lemma_value_pointwise(vac, vac, snap, v.clog, clog, v.next);
    assert forall|i: int| 0 <= i < c.len() implies (#[trigger] c[i]).0.xmin != v.next by {
        assert(v.clog.dom().contains(c[i].0.xmin));
    }
    if !idle {
        lemma_value_of_vacuumed(c, v.clog, idle, n, snap, v.next);
    } else {
        let nc = newest_committed(c, v.clog);
        lemma_newest_committed(c, v.clog);
        assert forall|i: int| 0 <= i < n && i != nc implies !vacuum_keeps(c, v.clog, idle, i) by {
            assert(v.clog.dom().contains(c[i].0.xmin));
            assert(!v.active.contains(c[i].0.xmin));
        }
        assert(vacuum_keeps(c, v.clog, idle, nc));
        lemma_vacuumed_at(c, v.clog, idle, nc, n);
        assert forall|p: int| 0 <= p < vac.len() implies vac[p] == c[nc] && p == vacuumed(
            c,
            v.clog,
            idle,
            nc,
        ).len() by {
            let i = lemma_vacuumed_from(c, v.clog, idle, n, p);
        }
        assert(vac.len() == 1) by {
            if vac.len() > 1 {
                assert(vac[0] == c[nc] && vac[1] == c[nc]);
            }
            assert(vac[0] == c[nc]);
        }
        assert(shows(c[nc].0, snap, v.clog, v.next)) by {
            assert(v.clog.dom().contains(c[nc].0.xmin));
            let m = c[nc].0.xmax;
            if m != INVALID && status_of(v.clog, m) != Status::Aborted {
                let j = choose|j: int| crate::mvcc::superseded_by(c, nc, j);
                assert(v.clog.dom().contains(c[j].0.xmin));
                assert(!v.active.contains(c[j].0.xmin));
                assert(committed(v.clog, c[j].0.xmin));
            }
        }
        lemma_value_at(c, snap, v.clog, v.next, nc);
        assert(vac.drop_last().len() == 0);
        assert(vac.last() == c[nc]);
    }
}

/// The value comes from version `k` if that shows and no newer one does.
proof fn lemma_value_at(
    chain: ChainView,
    snap: SnapView,
    clog: Map<TxnId, Status>,
    reader: TxnId,
    k: int,
)
    requires
        0 <= k < chain.len(),
        shows(chain[k].0, snap, clog, reader),
        forall|i: int|
            k < i < chain.len() ==> !shows((#[trigger] chain[i]).0, snap, clog, reader),
    ensures
        value_seen(chain, snap, clog, reader) == Ok::<i64, MvccError>(chain[k].1),
    decreases chain.len(),
{
    if k < chain.len() - 1 {
        assert(!shows(chain[chain.len() - 1].0, snap, clog, reader));
        lemma_value_at(chain.drop_last(), snap, clog, reader, k);
    }
}

/// Vacuum leaves no version of an aborted transaction, and takes no other while a transaction
/// is running.
pub proof fn law_vacuum_drops_aborted_versions(
    chain: ChainView,
    clog: Map<TxnId, Status>,
    idle: bool,
    n: int,
)
    requires
        0 <= n <= chain.len(),
    ensures
        forall|i: int|
            0 <= i < vacuumed(chain, clog, idle, n).len() ==> status_of(
                clog,
                (#[trigger] vacuumed(chain, clog, idle, n)[i]).0.xmin,
            ) != Status::Aborted,
        !idle ==> forall|j: int|
            0 <= j < n && status_of(clog, (#[trigger] chain[j]).0.xmin) != Status::Aborted
                ==> vacuumed(chain, clog, idle, n).contains(chain[j]),
    decreases n,
{
    if n > 0 {
        law_vacuum_drops_aborted_versions(chain, clog, idle, n - 1);
        let was = vacuumed(chain, clog, idle, n - 1);
        let now = vacuumed(chain, clog, idle, n);
        assert forall|i: int| 0 <= i < now.len() implies status_of(
            clog,
            (#[trigger] now[i]).0.xmin,
        ) != Status::Aborted by {
            if i < was.len() {
                assert(now[i] == was[i]);
            }
        }
        if !idle {
            assert forall|j: int|
                0 <= j < n && status_of(clog, (#[trigger] chain[j]).0.xmin) != Status::Aborted
                    implies now.contains(chain[j]) by {
                if j < n - 1 {
                    let i = was.index_of(chain[j]);
                    assert(was.contains(chain[j]));
                    assert(now[i] == chain[j]);
                } else {
                    assert(now[now.len() - 1] == chain[j]);
                }
            }
        }
    }
}

/// Versions are counted one by one: those of two lists of rows are those of the one and those
/// of the other, and a row counts as many as it has.
pub proof fn law_versions_are_counted(a: Seq<ChainView>, b: Seq<ChainView>, c: ChainView)
    ensures
        total_versions(Seq::<ChainView>::empty()) == 0,
        total_versions(seq![c]) == c.len(),
        total_versions(a + b) == total_versions(a) + total_versions(b),
    decreases b.len(),
{
    assert(seq![c].drop_last() =~= Seq::<ChainView>::empty());
    assert(seq![c].last() == c);
    reveal_with_fuel(total_versions, 2);
    if b.len() == 0 {
        assert(a + b =~= a);
    } else {
        law_versions_are_counted(a, b.drop_last(), c);
        assert((a + b).drop_last() =~= a + b.drop_last());
    }
}

} // verus!
