//! First updater wins, stated of whole histories: the snapshots that the transactions
//! hold are kept beside the store, and an update is refused exactly where another
//! transaction came first.

use vstd::prelude::*;

use crate::mvcc::laws::{law_reads_ignore_other_writes, law_reads_own_write, reader_ok};
use crate::mvcc::{
    chain_ok, chain_updated, committed, lemma_newest_live,
    lemma_newest_live_unmarked, lemma_vacuumed_at, lemma_vacuumed_from, newest_live, status_of,
    vacuumed, ChainView, MvccError, SnapView, Status, StoreView, TxnId,
};

verus! {

/// The snapshot of every transaction that began.
pub type Snaps = Map<TxnId, SnapView>;

/// The creators of any two versions that did not abort are the same transaction, or the
/// later one began after the earlier one had committed.
pub open spec fn serial(chain: ChainView, clog: Map<TxnId, Status>, snaps: Snaps) -> bool {
    forall|i: int, j: int|
        0 <= i < j < chain.len() && status_of(clog, (#[trigger] chain[i]).0.xmin)
            != Status::Aborted && status_of(clog, (#[trigger] chain[j]).0.xmin) != Status::Aborted
            && chain[i].0.xmin != chain[j].0.xmin ==> {
            &&& snaps.dom().contains(chain[j].0.xmin)
            &&& committed(clog, chain[i].0.xmin)
            &&& snaps[chain[j].0.xmin].precedes(chain[i].0.xmin)
        }
}

/// The snapshots are those that the transactions took when they began, and the versions of
/// every row follow each other.
pub open spec fn traced(v: StoreView, snaps: Snaps) -> bool {
    &&& v.wf()
    &&& forall|t: TxnId| #[trigger] v.active.contains(t) ==> snaps.dom().contains(t)
    &&& forall|t: TxnId| #[trigger]
        snaps.dom().contains(t) ==> snaps[t].xmax == t && v.clog.dom().contains(t)
    &&& forall|t: TxnId, u: TxnId|
        #![trigger snaps[t].in_flight.contains(u)]
        snaps.dom().contains(t) && v.active.contains(u) && u < t
            ==> snaps[t].in_flight.contains(u)
    &&& forall|w: TxnId, t: TxnId, u: TxnId|
        #![trigger snaps[t].in_flight.contains(u), snaps[w].in_flight.contains(u)]
        snaps.dom().contains(w) && snaps.dom().contains(t) && u < w < t
            && snaps[t].in_flight.contains(u) ==> snaps[w].in_flight.contains(u)
    &&& forall|r: int|
        0 <= r < v.rows.len() ==> serial(#[trigger] v.rows[r], v.clog, snaps)
}

/// A store without rows has such a history.
pub proof fn law_history_starts(v: StoreView)
    requires
        v.wf(),
        v.rows.len() == 0,
        v.active.is_empty(),
    ensures
        traced(v, Map::empty()),
{
}

/// Adding a row goes on with it.
pub proof fn law_history_goes_on_with_a_row(v: StoreView, snaps: Snaps, value: i64)
    requires
        traced(v, snaps),
        v.with_row(value).wf(),
        v.next < u64::MAX,
    ensures
        traced(v.with_row(value), snaps),
{
    let w = v.with_row(value);
    assert forall|r: int| 0 <= r < w.rows.len() implies serial(
        #[trigger] w.rows[r],
        w.clog,
        snaps,
    ) by {
        if r < v.rows.len() {
            assert(w.rows[r] == v.rows[r]);
            assert(chain_ok(v.rows[r], v.clog));
            assert(serial(v.rows[r], v.clog, snaps));
        }
    }
}

/// A beginning transaction goes on with it, under its own snapshot.
pub proof fn law_history_goes_on_with_begin(v: StoreView, snaps: Snaps)
    requires
        traced(v, snaps),
        v.begun().wf(),
        v.next < u64::MAX,
    ensures
        traced(v.begun(), snaps.insert(v.next, v.snapshot())),
{
    let w = v.begun();
    let after = snaps.insert(v.next, v.snapshot());
    assert(!snaps.dom().contains(v.next));
    assert forall|r: int| 0 <= r < w.rows.len() implies serial(
        #[trigger] w.rows[r],
        w.clog,
        after,
    ) by {
        assert(chain_ok(v.rows[r], v.clog));
        assert(serial(v.rows[r], v.clog, snaps));
    }
    assert forall|a: TxnId, t: TxnId, u: TxnId|
        #![trigger after[t].in_flight.contains(u), after[a].in_flight.contains(u)]
        after.dom().contains(a) && after.dom().contains(t) && u < a < t
            && after[t].in_flight.contains(u) implies after[a].in_flight.contains(u) by {
        assert(a != v.next);
        assert(after[a] == snaps[a]);
        if t == v.next {
            assert(v.active.contains(u));
            assert(snaps[a].in_flight.contains(u));
        } else {
            assert(snaps[t].in_flight.contains(u));
            assert(snaps[a].in_flight.contains(u));
        }
    }
    assert forall|t: TxnId, u: TxnId|
        #![trigger after[t].in_flight.contains(u)]
        after.dom().contains(t) && w.active.contains(u) && u < t implies after[t].in_flight.contains(
        u,
    ) by {
        if t != v.next {
            assert(u != v.next);
            assert(snaps[t].in_flight.contains(u));
        }
    }
}

/// The end of a running transaction goes on with it.
pub proof fn law_history_goes_on_with_an_outcome(v: StoreView, snaps: Snaps, t: TxnId, s: Status)
    requires
        traced(v, snaps),
        v.active.contains(t),
        s != Status::InProgress,
        v.finished(t, s).wf(),
    ensures
        traced(v.finished(t, s), snaps),
{
    let w = v.finished(t, s);
    assert forall|r: int| 0 <= r < w.rows.len() implies serial(
        #[trigger] w.rows[r],
        w.clog,
        snaps,
    ) by {
        assert(serial(v.rows[r], v.clog, snaps));
    }
}

/// Vacuum goes on with it.
pub proof fn law_history_goes_on_with_vacuum(v: StoreView, snaps: Snaps)
    requires
        traced(v, snaps),
        v.vacuumed().wf(),
    ensures
        traced(v.vacuumed(), snaps),
{
    let w = v.vacuumed();
    let idle = v.active.is_empty();
    assert forall|r: int| 0 <= r < w.rows.len() implies serial(
        #[trigger] w.rows[r],
        w.clog,
        snaps,
    ) by {
        let c = v.rows[r];
        let n = c.len() as int;
        let d = vacuumed(c, v.clog, idle, n);
        assert(w.rows[r] == d);
        assert(serial(c, v.clog, snaps));
        assert forall|p: int, q: int|
            0 <= p < q < d.len() && status_of(w.clog, (#[trigger] d[p]).0.xmin) != Status::Aborted
                && status_of(w.clog, (#[trigger] d[q]).0.xmin) != Status::Aborted && d[p].0.xmin
                != d[q].0.xmin implies {
            &&& snaps.dom().contains(d[q].0.xmin)
            &&& committed(w.clog, d[p].0.xmin)
            &&& snaps[d[q].0.xmin].precedes(d[p].0.xmin)
        } by {
            let i = lemma_vacuumed_from(c, v.clog, idle, n, p);
            let j = lemma_vacuumed_from(c, v.clog, idle, n, q);
            if j < i {
                lemma_vacuumed_at(c, v.clog, idle, j, i);
            }
            assert(c[i] == d[p] && c[j] == d[q]);
        }
    }
}

/// `t` may write over version `nl` only where everyone before came before it too.
proof fn lemma_all_before(v: StoreView, snaps: Snaps, t: TxnId, row: int, i: int)
    requires
        traced(v, snaps),
        v.active.contains(t),
        0 <= row < v.rows.len(),
        v.may_write(row, snaps[t], t),
        0 <= i < v.rows[row].len(),
        status_of(v.clog, v.rows[row][i].0.xmin) != Status::Aborted,
        v.rows[row][i].0.xmin != t,
    ensures
        committed(v.clog, v.rows[row][i].0.xmin),
        snaps[t].precedes(v.rows[row][i].0.xmin),
{
    let c = v.rows[row];
    let nl = newest_live(c, v.clog);
    assert(chain_ok(c, v.clog));
    assert(serial(c, v.clog, snaps));
    lemma_newest_live_unmarked(c, v.clog);
    lemma_newest_live(c, v.clog);
    let u = c[i].0.xmin;
    let w = c[nl].0.xmin;
    assert(i <= nl);
    if i < nl && u != w && w != t {
        assert(snaps[w].precedes(u));
        assert(snaps.dom().contains(t) && snaps.dom().contains(w));
        assert(snaps[w].xmax == w && snaps[t].xmax == t);
        if snaps[t].in_flight.contains(u) {
            assert(snaps[w].in_flight.contains(u));
        }
    }
}

/// A permitted write goes on with it.
pub proof fn law_history_goes_on_with_an_update(
    v: StoreView,
    snaps: Snaps,
    t: TxnId,
    row: int,
    value: i64,
)
    requires
        traced(v, snaps),
        v.active.contains(t),
        0 <= row < v.rows.len(),
        v.may_write(row, snaps[t], t),
        v.updated(row, t, value).wf(),
    ensures
        traced(v.updated(row, t, value), snaps),
{
    let w = v.updated(row, t, value);
    assert forall|r: int| 0 <= r < w.rows.len() implies serial(
        #[trigger] w.rows[r],
        w.clog,
        snaps,
    ) by {
        let c = v.rows[r];
        assert(serial(c, v.clog, snaps));
        assert(chain_ok(c, v.clog));
        if r == row {
            let d = chain_updated(c, v.clog, t, value);
            lemma_newest_live_unmarked(c, v.clog);
            assert(forall|i: int|
                0 <= i < c.len() ==> (#[trigger] d[i]).0.xmin == c[i].0.xmin);
            assert forall|i: int, j: int|
                0 <= i < j < d.len() && status_of(v.clog, (#[trigger] d[i]).0.xmin)
                    != Status::Aborted && status_of(v.clog, (#[trigger] d[j]).0.xmin)
                    != Status::Aborted && d[i].0.xmin != d[j].0.xmin implies {
                &&& snaps.dom().contains(d[j].0.xmin)
                &&& committed(v.clog, d[i].0.xmin)
                &&& snaps[d[j].0.xmin].precedes(d[i].0.xmin)
            } by {
                if j == c.len() {
                    lemma_all_before(v, snaps, t, row, i);
                } else {
                    assert(c[i].0.xmin == d[i].0.xmin && c[j].0.xmin == d[j].0.xmin);
                }
            }
        }
    }
}

/// Another transaction than `t` wrote version `i` of the row, has not aborted, and is still
/// running or committed after `t` began.
pub open spec fn came_first(v: StoreView, snap: SnapView, t: TxnId, row: int, i: int) -> bool {
    let u = v.rows[row][i].0.xmin;
    &&& 0 <= i < v.rows[row].len()
    &&& u != t
    &&& status_of(v.clog, u) != Status::Aborted
    &&& v.active.contains(u) || !snap.precedes(u)
}

/// First updater wins: a running transaction's write is refused if and only if another
/// transaction that has not aborted wrote the row and is still running, or committed after
/// this one began.
pub proof fn law_update_is_refused_iff_another_came_first(
    v: StoreView,
    snaps: Snaps,
    t: TxnId,
    row: int,
)
    requires
        traced(v, snaps),
        v.active.contains(t),
        0 <= row < v.rows.len(),
    ensures
        !v.may_write(row, snaps[t], t) <==> exists|i: int| came_first(v, snaps[t], t, row, i),
{
    let c = v.rows[row];
    let nl = newest_live(c, v.clog);
    assert(chain_ok(c, v.clog));
    lemma_newest_live_unmarked(c, v.clog);
    lemma_newest_live(c, v.clog);
    if v.may_write(row, snaps[t], t) {
        assert forall|i: int| !came_first(v, snaps[t], t, row, i) by {
            if came_first(v, snaps[t], t, row, i) {
                lemma_all_before(v, snaps, t, row, i);
            }
        }
    } else {
        assert(v.clog.dom().contains(c[nl].0.xmin));
        assert(came_first(v, snaps[t], t, row, nl));
    }
}

/// A permitted write is read back by its writer, adds one version, and changes what no
/// other running transaction reads.
pub proof fn law_permitted_update(
    v: StoreView,
    snaps: Snaps,
    t: TxnId,
    row: int,
    value: i64,
    other: TxnId,
    read: int,
)
    requires
        traced(v, snaps),
        v.active.contains(t),
        v.active.contains(other),
        other != t,
        0 <= row < v.rows.len(),
        0 <= read < v.rows.len(),
    ensures
        ({
            let w = v.updated(row, t, value);
            &&& w.value(row, snaps[t], t) == Ok::<i64, MvccError>(value)
            &&& w.rows[row].len() == v.rows[row].len() + 1
            &&& w.value(read, snaps[other], other) == v.value(read, snaps[other], other)
        }),
{
    assert(reader_ok(v, snaps[other], other)) by {
        assert(snaps.dom().contains(other));
        assert forall|u: TxnId| #[trigger]
            v.active.contains(u) && u != other && u < snaps[other].xmax implies snaps[other].in_flight.contains(
        u) by {
            assert(snaps[other].in_flight.contains(u));
        }
    }
    assert(chain_ok(v.rows[row], v.clog));
    lemma_newest_live_unmarked(v.rows[row], v.clog);
    law_reads_own_write(v, snaps[t], t, row, value);
    law_reads_ignore_other_writes(v, snaps[other], other, t, row, value, read);
}

} // verus!
