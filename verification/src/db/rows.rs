//! Storing and replacing many rows.

use vstd::prelude::*;

use crate::btree::tree::Tree;
use crate::btree::MAX_KEY;
use crate::db::catalog::IndexMeta;
use crate::db::dml::{row_fits, table_record, touched};
use crate::db::statement::lemma_same_indexes;
use crate::db::store::{
    defines, device, entered, exchanged, grown_trees, growth, key_in, numbers, regrown_trees,
    retakes, same_data, same_indexes, takes, Database, Entries,
};
use crate::db::DbError;
use crate::heap::{update_result, HeapError, HeapFile, Rid, MAX_RECORD};
use crate::pager::{holds_out, Pager};
use crate::types::{views, Value, ValueView};

verus! {

/// The values of rows.
pub open spec fn values_of(rs: Seq<(Vec<Value>, Vec<u8>)>) -> Seq<Seq<ValueView>> {
    rs.map_values(|r: (Vec<Value>, Vec<u8>)| views(r.0@))
}

/// The rows as they are stored.
pub open spec fn payloads_of(rs: Seq<(Vec<Value>, Vec<u8>)>) -> Seq<Seq<u8>> {
    rs.map_values(|r: (Vec<Value>, Vec<u8>)| r.1@)
}

/// So many pages at most.
pub open spec fn reaches(count: int, limit: int) -> bool {
    count <= limit
}

/// Wherever the rows before it are put, each row from the `k`th on finds room in the
/// indexes of its table, or its key is too long.
pub open spec fn hosts(
    ts: Seq<Tree>,
    idxs: Seq<IndexMeta>,
    tid: u16,
    rows: Seq<Seq<ValueView>>,
    count: int,
    k: int,
    limit: int,
) -> bool
    decreases rows.len() - k,
{
    0 <= k < rows.len() ==> {
        &&& takes(ts, idxs, tid, rows[k])
        &&& count + growth(ts, ts.len() as int) + 1 <= limit
        &&& forall|rid: Rid, fresh: Seq<int>, next: int|
            numbers(fresh, ts.len() as int) && #[trigger] reaches(next, count + growth(ts, ts.len() as int) + 1)
                ==> hosts(
                #[trigger] grown_trees(ts, idxs, tid, rows[k], rid, fresh),
                idxs,
                tid,
                rows,
                next,
                k + 1,
                limit,
            )
    }
}

/// After a row was put somewhere, the next ones find room.
proof fn lemma_hosts_next(
    ts: Seq<Tree>,
    idxs: Seq<IndexMeta>,
    tid: u16,
    rows: Seq<Seq<ValueView>>,
    count: int,
    k: int,
    rid: Rid,
    fresh: Seq<int>,
    next: int,
    limit: int,
)
    requires
        hosts(ts, idxs, tid, rows, count, k, limit),
        0 <= k < rows.len(),
        numbers(fresh, ts.len() as int),
        next <= count + growth(ts, ts.len() as int) + 1,
    ensures
        hosts(grown_trees(ts, idxs, tid, rows[k], rid, fresh), idxs, tid, rows, next, k + 1, limit),
{
    let us = grown_trees(ts, idxs, tid, rows[k], rid, fresh);
    assert(reaches(next, count + growth(ts, ts.len() as int) + 1));
    assert(hosts(us, idxs, tid, rows, next, k + 1, limit));
}

/// The records with the first `n` rows at their places.
pub open spec fn with_rows(
    recs: Map<Rid, Seq<u8>>,
    tid: u16,
    rids: Seq<Rid>,
    pays: Seq<Seq<u8>>,
    n: int,
) -> Map<Rid, Seq<u8>>
    decreases n,
{
    if n <= 0 {
        recs
    } else {
        with_rows(recs, tid, rids, pays, n - 1).insert(
            rids[n - 1],
            table_record(tid, pays[n - 1]),
        )
    }
}

/// What the indexes hold when they know the first `n` rows.
pub open spec fn all_entered(
    es: Entries,
    idxs: Seq<IndexMeta>,
    tid: u16,
    rows: Seq<Seq<ValueView>>,
    rids: Seq<Rid>,
    n: int,
) -> Entries
    decreases n,
{
    if n <= 0 {
        es
    } else {
        entered(
            all_entered(es, idxs, tid, rows, rids, n - 1),
            idxs,
            tid,
            rows[n - 1],
            rids[n - 1],
            idxs.len() as int,
        )
    }
}

/// New places, each for one row.
pub open spec fn new_places(recs: Map<Rid, Seq<u8>>, rids: Seq<Rid>) -> bool {
    &&& forall|i: int| 0 <= i < rids.len() ==> !recs.dom().contains(#[trigger] rids[i])
    &&& rids.no_duplicates()
}

proof fn lemma_with_rows(
    recs: Map<Rid, Seq<u8>>,
    tid: u16,
    rids: Seq<Rid>,
    more: Seq<Rid>,
    pays: Seq<Seq<u8>>,
    n: int,
)
    requires
        0 <= n <= rids.len(),
        n <= more.len(),
        forall|i: int| 0 <= i < n ==> rids[i] == more[i],
    ensures
        with_rows(recs, tid, rids, pays, n) == with_rows(recs, tid, more, pays, n),
        forall|r: Rid| #[trigger]
            with_rows(recs, tid, rids, pays, n).dom().contains(r) <==> recs.dom().contains(r)
                || rids.take(n).contains(r),
    decreases n,
{
    if n > 0 {
        lemma_with_rows(recs, tid, rids, more, pays, n - 1);
        let a = with_rows(recs, tid, rids, pays, n - 1);
        assert forall|r: Rid| #[trigger]
            with_rows(recs, tid, rids, pays, n).dom().contains(r) <==> recs.dom().contains(r)
                || rids.take(n).contains(r) by {
            assert(rids.take(n).last() == rids[n - 1]);
            if rids.take(n).contains(r) {
                let j = rids.take(n).index_of(r);
                if j < n - 1 {
                    assert(rids.take(n - 1)[j] == r);
                }
            }
            if rids.take(n - 1).contains(r) {
                let j = rids.take(n - 1).index_of(r);
                assert(rids.take(n)[j] == r);
            }
        }
    }
}

proof fn lemma_all_entered(
    es: Entries,
    idxs: Seq<IndexMeta>,
    tid: u16,
    rows: Seq<Seq<ValueView>>,
    rids: Seq<Rid>,
    more: Seq<Rid>,
    n: int,
)
    requires
        0 <= n <= rids.len(),
        n <= more.len(),
        forall|i: int| 0 <= i < n ==> rids[i] == more[i],
    ensures
        all_entered(es, idxs, tid, rows, rids, n) == all_entered(es, idxs, tid, rows, more, n),
        all_entered(es, idxs, tid, rows, rids, n).len() == es.len(),
    decreases n,
{
    if n > 0 {
        lemma_all_entered(es, idxs, tid, rows, rids, more, n - 1);
    }
}

/// The same indexes take and keep the same rows.
proof fn lemma_same_hosts(a: Seq<IndexMeta>, b: Seq<IndexMeta>, ts: Seq<Tree>, tid: u16)
    requires
        same_indexes(a, b),
        ts.len() == a.len(),
    ensures
        forall|row: Seq<ValueView>| #[trigger] takes(ts, a, tid, row) ==> takes(ts, b, tid, row),
        forall|row: Seq<ValueView>, rid: Rid, fresh: Seq<int>| #[trigger]
            grown_trees(ts, b, tid, row, rid, fresh) == grown_trees(ts, a, tid, row, rid, fresh),
        forall|es: Entries, row: Seq<ValueView>, rid: Rid, n: int|
            es.len() == a.len() ==> #[trigger] entered(es, b, tid, row, rid, n) == entered(
                es,
                a,
                tid,
                row,
                rid,
                n,
            ),
        forall|i: int, row: Seq<ValueView>, rid: Rid|
            0 <= i < a.len() ==> #[trigger] key_in(b[i], row, rid) == key_in(a[i], row, rid),
{
    assert forall|i: int, row: Seq<ValueView>, rid: Rid| 0 <= i < a.len() implies #[trigger] key_in(
        b[i],
        row,
        rid,
    ) == key_in(a[i], row, rid) && b[i].table_id == a[i].table_id by {
        assert(b[i] == (IndexMeta { root: b[i].root, ..a[i] }));
    }
    assert forall|i: int| 0 <= i < a.len() implies (#[trigger] b[i]).table_id == a[i].table_id by {
        assert(b[i] == (IndexMeta { root: b[i].root, ..a[i] }));
    }
    assert forall|row: Seq<ValueView>| #[trigger] takes(ts, a, tid, row) implies takes(
        ts,
        b,
        tid,
        row,
    ) by {
        assert forall|i: int, rid: Rid, fresh: int|
            0 <= i < b.len() && b[i].table_id == tid && key_in(b[i], row, rid).len() <= MAX_KEY && 0
                <= fresh implies #[trigger] crate::btree::insertable(
            ts[i],
            key_in(b[i], row, rid),
            rid,
            fresh,
        ) by {
            assert(key_in(b[i], row, rid) == key_in(a[i], row, rid));
            assert(crate::btree::insertable(ts[i], key_in(a[i], row, rid), rid, fresh));
        }
    }
    assert forall|row: Seq<ValueView>, rid: Rid, fresh: Seq<int>| #[trigger]
        grown_trees(ts, b, tid, row, rid, fresh) == grown_trees(ts, a, tid, row, rid, fresh) by {
        let x = grown_trees(ts, a, tid, row, rid, fresh);
        let y = grown_trees(ts, b, tid, row, rid, fresh);
        assert forall|i: int| 0 <= i < x.len() implies #[trigger] x[i] == y[i] by {
            assert(key_in(b[i], row, rid) == key_in(a[i], row, rid));
        }
        assert(x =~= y);
    }
    assert forall|es: Entries, row: Seq<ValueView>, rid: Rid, n: int|
        es.len() == a.len() implies #[trigger] entered(es, b, tid, row, rid, n) == entered(
        es,
        a,
        tid,
        row,
        rid,
        n,
    ) by {
        let x = entered(es, a, tid, row, rid, n);
        let y = entered(es, b, tid, row, rid, n);
        assert forall|i: int| 0 <= i < x.len() implies #[trigger] x[i] == y[i] by {
            assert(key_in(b[i], row, rid) == key_in(a[i], row, rid));
        }
        assert(x =~= y);
    }
}

impl<P: Pager> Database<P> {
    /// What storing rows came to: all of them stored, or those before the one that was refused.
    pub open spec fn inserted(
        &self,
        before: &Self,
        tid: u16,
        vs: Seq<Seq<ValueView>>,
        ps: Seq<Seq<u8>>,
        r: Result<Vec<Rid>, DbError>,
    ) -> bool {
        match r {
            Ok(rids) => {
                &&& rids@.len() == vs.len()
                &&& self.ok()
                &&& self.filled_with(before, tid, vs, ps, rids@)
            },
            Err(DbError::Heap(HeapError::RecordTooLarge)) => {
                &&& self.ok()
                &&& exists|rids: Seq<Rid>|
                    rids.len() < vs.len() && ps[rids.len() as int].len() + 2 > MAX_RECORD
                        && #[trigger] self.filled_with(before, tid, vs, ps, rids)
            },
            Err(DbError::Exec(t)) => {
                &&& t@ == "entry too large for a node"@
                &&& self.ok()
                &&& exists|rids: Seq<Rid>, n: int|
                    #![trigger self.part_filled_with(before, tid, vs, ps, rids, n)]
                    {
                        &&& 0 <= n < before.indexes@.len()
                        &&& before.indexes@[n].table_id == tid
                        &&& key_in(
                            before.indexes@[n],
                            vs[rids.len() - 1],
                            rids.last(),
                        ).len() > MAX_KEY
                        &&& self.part_filled_with(before, tid, vs, ps, rids, n)
                    }
            },
            Err(e) => device(e) && !(holds_out(&before.bp, 0) && hosts(
                before.trees@,
                before.indexes@,
                tid,
                vs,
                before.bp.count() as int,
                0,
                before.bp.reach(),
            )),
        }
    }

    /// What happened then.
    pub proof fn lemma_then(
        &self,
        here: &Self,
        was: &Self,
        before: Map<Rid, Seq<u8>>,
        es: Entries,
        then: Map<Rid, Seq<u8>>,
        after: Map<Rid, Seq<u8>>,
        fs: Entries,
    )
        requires
            here.became(was, before, es),
            self.became(here, then, fs),
            same_data(after, then, was.indexes@),
        ensures
            self.became(was, after, fs),
    {
        let idxs = was.indexes@;
        lemma_same_indexes(idxs, here.indexes@, 0);
        assert forall|j: int| 0 <= j < idxs.len() implies #[trigger] self.indexes@[j] == (IndexMeta {
            root: self.indexes@[j].root,
            ..idxs[j]
        }) by {
            assert(here.indexes@[j] == (IndexMeta { root: here.indexes@[j].root, ..idxs[j] }));
            assert(self.indexes@[j] == (IndexMeta {
                root: self.indexes@[j].root,
                ..here.indexes@[j]
            }));
        }
        assert forall|r: Rid| #[trigger] after.dom().contains(r) <==> self.stored().dom().contains(
            r,
        ) by {
            assert(then.dom().contains(r) <==> self.stored().dom().contains(r));
        }
        assert forall|r: Rid| #[trigger] after.dom().contains(r) && !defines(
            idxs,
            r,
        ) implies self.stored()[r] == after[r] by {
            assert(then.dom().contains(r));
            assert(!defines(here.indexes@, r));
        }
    }

    /// Where nothing moved, the same is held.
    pub proof fn lemma_unmoved_same(&self, was: &Self)
        requires
            self.unmoved(was),
        ensures
            self.stored() == was.stored(),
            self.all_entries() == was.all_entries(),
    {
        reveal(Database::entries);
        reveal(Database::stored);
        assert(self.all_entries() =~= was.all_entries());
    }

    /// What the indexes hold, one after the other.
    pub proof fn lemma_entries_are(&self, was: &Self, recs: Map<Rid, Seq<u8>>, es: Entries)
        requires
            self.became(was, recs, es),
        ensures
            self.all_entries() == es,
    {
        assert(self.all_entries() =~= es) by {
            assert forall|j: int| 0 <= j < es.len() implies self.all_entries()[j]
                == #[trigger] es[j] by {
                assert(self.entries(j) == es[j]);
            }
        }
    }

    /// The first rows are stored at these places, and the indexes know them.
    pub open spec fn filled_with(
        &self,
        old: &Self,
        tid: u16,
        rows: Seq<Seq<ValueView>>,
        pays: Seq<Seq<u8>>,
        rids: Seq<Rid>,
    ) -> bool {
        &&& new_places(old.stored(), rids)
        &&& rids.len() <= rows.len()
        &&& self.became(
            old,
            with_rows(old.stored(), tid, rids, pays, rids.len() as int),
            all_entered(old.all_entries(), old.indexes@, tid, rows, rids, rids.len() as int),
        )
    }

    /// The first rows are stored at these places, and all indexes know all of them but
    /// that only the first `n` know the last row.
    pub open spec fn part_filled_with(
        &self,
        old: &Self,
        tid: u16,
        rows: Seq<Seq<ValueView>>,
        pays: Seq<Seq<u8>>,
        rids: Seq<Rid>,
        n: int,
    ) -> bool {
        let k = rids.len() - 1;
        &&& new_places(old.stored(), rids)
        &&& 0 <= k < rows.len()
        &&& self.became(
            old,
            with_rows(old.stored(), tid, rids, pays, k + 1),
            entered(
                all_entered(old.all_entries(), old.indexes@, tid, rows, rids, k),
                old.indexes@,
                tid,
                rows[k],
                rids[k],
                n,
            ),
        )
    }

    /// A row more was stored, and the first `n` indexes know it.
    proof fn lemma_one_more(
        &self,
        here: &Self,
        was: &Self,
        tid: u16,
        rows: Seq<Seq<ValueView>>,
        pays: Seq<Seq<u8>>,
        rids: Seq<Rid>,
        rid: Rid,
        n: int,
    )
        requires
            was.ok(),
            here.ok(),
            rids.len() < rows.len(),
            here.filled_with(was, tid, rows, pays, rids),
            self.gained(here, tid, rows[rids.len() as int], pays[rids.len() as int], rid, n),
        ensures
            self.part_filled_with(was, tid, rows, pays, rids.push(rid), n),
            n == was.indexes@.len() ==> self.filled_with(was, tid, rows, pays, rids.push(rid)),
    {
        let idxs = was.indexes@;
        let k = rids.len() as int;
        let more = rids.push(rid);
        let before = with_rows(was.stored(), tid, rids, pays, k);
        let es = all_entered(was.all_entries(), idxs, tid, rows, rids, k);
        let then = here.stored().insert(rid, table_record(tid, pays[k]));
        let after = with_rows(was.stored(), tid, more, pays, k + 1);
        lemma_with_rows(was.stored(), tid, rids, more, pays, k);
        lemma_all_entered(was.all_entries(), idxs, tid, rows, rids, more, k);
        lemma_same_hosts(idxs, here.indexes@, here.trees@, tid);
        here.lemma_entries_are(was, before, es);
        assert(after == before.insert(rid, table_record(tid, pays[k])));
        assert(rids.take(k) =~= rids);
        assert(!before.dom().contains(rid)) by {
            assert(before.dom().contains(rid) <==> here.stored().dom().contains(rid));
        }
        assert forall|r: Rid| #[trigger] after.dom().contains(r) <==> then.dom().contains(r) by {
            assert(before.dom().contains(r) <==> here.stored().dom().contains(r));
        }
        assert forall|r: Rid| #[trigger] after.dom().contains(r) && !defines(
            idxs,
            r,
        ) implies then[r] == after[r] by {
            if r != rid {
                assert(before.dom().contains(r));
            }
        }
        let fs = entered(es, idxs, tid, rows[k], rid, n);
        assert(entered(here.all_entries(), here.indexes@, tid, rows[k], rid, n) == fs);
        self.lemma_then(here, was, before, es, then, after, fs);
        assert(new_places(was.stored(), more)) by {
            assert forall|i: int| 0 <= i < more.len() implies !was.stored().dom().contains(
                #[trigger] more[i],
            ) by {
                if i < k {
                    assert(more[i] == rids[i]);
                }
            }
            assert(!rids.contains(rid));
            assert forall|i: int, j: int| 0 <= i < j < more.len() implies more[i] != more[j] by {
                assert(more[i] == rids[i]);
                if j < k {
                    assert(more[j] == rids[j]);
                } else {
                    assert(rids.contains(rids[i]));
                }
            }
        }
    }

    /// Store rows of table `tid` one after the other and enter them into its indexes:
    /// where they are.
    #[verifier::rlimit(60)]
    #[verifier::spinoff_prover]
    pub fn insert_rows(&mut self, tid: u16, rows: &Vec<(Vec<Value>, Vec<u8>)>) -> (r: Result<
        Vec<Rid>,
        DbError,
    >)
        requires
            old(self).ok(),
            forall|i: int|
                0 <= i < rows@.len() ==> row_fits(
                    old(self).indexes@,
                    tid,
                    #[trigger] values_of(rows@)[i],
                ),
            hosts(
                old(self).trees@,
                old(self).indexes@,
                tid,
                values_of(rows@),
                old(self).bp.count() as int,
                0,
                u32::MAX as int,
            ),
        ensures
            final(self).counts == old(self).counts,
            final(self).bp.pager_ok(),
            final(self).bp.reach() == old(self).bp.reach(),
            final(self).inserted(old(self), tid, values_of(rows@), payloads_of(rows@), r),
    {
        let ghost was = *self;
        let ghost idxs = self.indexes@;
        let ghost vs = values_of(rows@);
        let ghost ps = payloads_of(rows@);
        let mut rids: Vec<Rid> = Vec::new();
        let mut heap: HeapFile = match HeapFile::open(&mut self.bp) {
            Ok(h) => h,
            Err(e) => {
                return Err(DbError::Heap(e));
            },
        };
        proof {
            self.lemma_unmoved_became(&was);
        }
        let n: usize = rows.len();
        let mut k: usize = 0;
        while k < n
            invariant
                self.counts == old(self).counts,
                k <= n == rows@.len(),
                was == *old(self),
                was.ok(),
                idxs == was.indexes@,
                vs == values_of(rows@),
                ps == payloads_of(rows@),
                forall|i: int| 0 <= i < vs.len() ==> row_fits(idxs, tid, #[trigger] vs[i]),
                self.ok(),
                heap.ready(&self.bp),
                rids@.len() == k,
                self.bp.reach() == was.bp.reach(),
                self.filled_with(&was, tid, vs, ps, rids@),
                hosts(self.trees@, idxs, tid, vs, self.bp.count() as int, k as int, u32::MAX as int),
                hosts(
                    was.trees@,
                    idxs,
                    tid,
                    vs,
                    was.bp.count() as int,
                    0,
                    was.bp.reach(),
                ) ==> hosts(
                    self.trees@,
                    idxs,
                    tid,
                    vs,
                    self.bp.count() as int,
                    k as int,
                    was.bp.reach(),
                ),
            decreases n - k,
        {
            let ghost here = *self;
            let ghost done = rids@;
            proof {
                assert(vs[k as int] == views(rows@[k as int].0@));
                assert(ps[k as int] == rows@[k as int].1@);
                lemma_same_indexes(idxs, here.indexes@, tid);
                lemma_same_hosts(idxs, here.indexes@, here.trees@, tid);
                assert(row_fits(idxs, tid, vs[k as int]));
                assert(takes(here.trees@, idxs, tid, vs[k as int]));
            }
            match self.insert_row(&mut heap, tid, &rows[k].0, rows[k].1.as_slice()) {
                Ok(rid) => {
                    rids.push(rid);
                    proof {
                        self.lemma_one_more(
                            &here,
                            &was,
                            tid,
                            vs,
                            ps,
                            done,
                            rid,
                            idxs.len() as int,
                        );
                        let fresh = choose|fresh: Seq<int>|
                            numbers(fresh, here.trees@.len() as int) && self.trees@
                                == #[trigger] grown_trees(
                                here.trees@,
                                here.indexes@,
                                tid,
                                vs[k as int],
                                rid,
                                fresh,
                            );
                        assert(numbers(fresh, here.trees@.len() as int));
                        assert(self.trees@ == grown_trees(
                            here.trees@,
                            idxs,
                            tid,
                            vs[k as int],
                            rid,
                            fresh,
                        ));
                        lemma_hosts_next(
                            here.trees@,
                            idxs,
                            tid,
                            vs,
                            here.bp.count() as int,
                            k as int,
                            rid,
                            fresh,
                            self.bp.count() as int,
                            u32::MAX as int,
                        );
                        if hosts(
                            here.trees@,
                            idxs,
                            tid,
                            vs,
                            here.bp.count() as int,
                            k as int,
                            was.bp.reach(),
                        ) {
                            lemma_hosts_next(
                                here.trees@,
                                idxs,
                                tid,
                                vs,
                                here.bp.count() as int,
                                k as int,
                                rid,
                                fresh,
                                self.bp.count() as int,
                                was.bp.reach(),
                            );
                        }
                        assert(hosts(
                            grown_trees(here.trees@, idxs, tid, vs[k as int], rid, fresh),
                            idxs,
                            tid,
                            vs,
                            self.bp.count() as int,
                            k + 1,
                            u32::MAX as int,
                        ));
                    }
                },
                Err(e) => {
                    proof {
                        match e {
                            DbError::Heap(HeapError::RecordTooLarge) => {
                                self.lemma_became_still(
                                    &here,
                                    &was,
                                    with_rows(was.stored(), tid, done, ps, k as int),
                                    all_entered(was.all_entries(), idxs, tid, vs, done, k as int),
                                );
                                assert(self.filled_with(old(self), tid, vs, ps, done));
                            },
                            DbError::Exec(_) => {
                                let (rid, m) = choose|rid: Rid, m: int|
                                    #![trigger self.gained(&here, tid, vs[k as int], ps[k as int], rid, m)]
                                    {
                                        &&& 0 <= m < here.indexes@.len()
                                        &&& here.indexes@[m].table_id == tid
                                        &&& key_in(here.indexes@[m], vs[k as int], rid).len()
                                            > MAX_KEY
                                        &&& self.gained(
                                            &here,
                                            tid,
                                            vs[k as int],
                                            ps[k as int],
                                            rid,
                                            m,
                                        )
                                    };
                                self.lemma_one_more(&here, &was, tid, vs, ps, done, rid, m);
                                let all = done.push(rid);
                                assert(here.indexes@[m] == (IndexMeta {
                                    root: here.indexes@[m].root,
                                    ..idxs[m]
                                }));
                                assert(all.last() == rid);
                                assert(key_in(idxs[m], vs[all.len() - 1], all.last()).len()
                                    > MAX_KEY);
                                assert(self.part_filled_with(old(self), tid, vs, ps, all, m));
                            },
                            _ => {},
                        }
                    }
                    return Err(e);
                },
            }
            k = k + 1;
        }
        Ok(rids)
    }
}

// ---- replacing rows ----

/// A row that is to be replaced: where it is, what it holds, and what it is to hold.
pub struct RowChange {
    pub rid: Rid,
    pub old_row: Vec<Value>,
    pub new_row: Vec<Value>,
    pub payload: Vec<u8>,
}

pub ghost struct ChangeView {
    pub rid: Rid,
    pub old_row: Seq<ValueView>,
    pub new_row: Seq<ValueView>,
    pub payload: Seq<u8>,
}

impl View for RowChange {
    type V = ChangeView;

    open spec fn view(&self) -> ChangeView {
        ChangeView {
            rid: self.rid,
            old_row: views(self.old_row@),
            new_row: views(self.new_row@),
            payload: self.payload@,
        }
    }
}

pub open spec fn change_views(ws: Seq<RowChange>) -> Seq<ChangeView> {
    ws.map_values(|w: RowChange| w@)
}

/// Each row from the `k`th on finds room in the indexes of its table for its new values,
/// or its key is too long.
pub open spec fn rehosts(
    ts: Seq<Tree>,
    idxs: Seq<IndexMeta>,
    tid: u16,
    ws: Seq<ChangeView>,
    count: int,
    k: int,
    limit: int,
) -> bool
    decreases ws.len() - k,
{
    0 <= k < ws.len() ==> {
        &&& retakes(ts, idxs, tid, ws[k].old_row, ws[k].new_row, ws[k].rid)
        &&& count + growth(ts, ts.len() as int) + 1 <= limit
        &&& forall|fresh: Seq<int>, next: int|
            numbers(fresh, ts.len() as int) && #[trigger] reaches(
                next,
                count + growth(ts, ts.len() as int) + 1,
            ) ==> rehosts(
                #[trigger] regrown_trees(
                    ts,
                    idxs,
                    tid,
                    ws[k].old_row,
                    ws[k].new_row,
                    ws[k].rid,
                    fresh,
                ),
                idxs,
                tid,
                ws,
                next,
                k + 1,
                limit,
            )
    }
}

/// The records with the first `n` changes made.
pub open spec fn with_changes(
    recs: Map<Rid, Seq<u8>>,
    tid: u16,
    ws: Seq<ChangeView>,
    n: int,
) -> Map<Rid, Seq<u8>>
    decreases n,
{
    if n <= 0 {
        recs
    } else {
        with_changes(recs, tid, ws, n - 1).insert(
            ws[n - 1].rid,
            table_record(tid, ws[n - 1].payload),
        )
    }
}

/// What the indexes hold when they know of the first `n` changes.
pub open spec fn all_exchanged(
    es: Entries,
    idxs: Seq<IndexMeta>,
    tid: u16,
    ws: Seq<ChangeView>,
    n: int,
) -> Entries
    decreases n,
{
    if n <= 0 {
        es
    } else {
        exchanged(
            all_exchanged(es, idxs, tid, ws, n - 1),
            idxs,
            tid,
            ws[n - 1].old_row,
            ws[n - 1].new_row,
            ws[n - 1].rid,
            idxs.len() as int,
        )
    }
}

proof fn lemma_with_changes(recs: Map<Rid, Seq<u8>>, tid: u16, ws: Seq<ChangeView>, n: int, r: Rid)
    requires
        recs.dom().contains(r),
    ensures
        with_changes(recs, tid, ws, n).dom().contains(r),
    decreases n,
{
    if n > 0 {
        lemma_with_changes(recs, tid, ws, n - 1, r);
    }
}

proof fn lemma_all_exchanged_len(
    es: Entries,
    idxs: Seq<IndexMeta>,
    tid: u16,
    ws: Seq<ChangeView>,
    n: int,
)
    ensures
        all_exchanged(es, idxs, tid, ws, n).len() == es.len(),
    decreases n,
{
    if n > 0 {
        lemma_all_exchanged_len(es, idxs, tid, ws, n - 1);
    }
}

/// The same indexes take and keep the same changes.
proof fn lemma_same_rehosts(
    a: Seq<IndexMeta>,
    b: Seq<IndexMeta>,
    ts: Seq<Tree>,
    tid: u16,
    w: ChangeView,
)
    requires
        same_indexes(a, b),
        ts.len() == a.len(),
    ensures
        retakes(ts, a, tid, w.old_row, w.new_row, w.rid) ==> retakes(
            ts,
            b,
            tid,
            w.old_row,
            w.new_row,
            w.rid,
        ),
        forall|fresh: Seq<int>| #[trigger]
            regrown_trees(ts, b, tid, w.old_row, w.new_row, w.rid, fresh) == regrown_trees(
                ts,
                a,
                tid,
                w.old_row,
                w.new_row,
                w.rid,
                fresh,
            ),
        forall|es: Entries, n: int|
            es.len() == a.len() ==> #[trigger] exchanged(
                es,
                b,
                tid,
                w.old_row,
                w.new_row,
                w.rid,
                n,
            ) == exchanged(es, a, tid, w.old_row, w.new_row, w.rid, n),
        forall|i: int| #![trigger b[i]]
            0 <= i < a.len() ==> key_in(b[i], w.old_row, w.rid) == key_in(a[i], w.old_row, w.rid)
                && key_in(b[i], w.new_row, w.rid) == key_in(a[i], w.new_row, w.rid) && touched(
                b[i],
                tid,
                w.old_row,
                w.new_row,
            ) == touched(a[i], tid, w.old_row, w.new_row),
{
    let o = w.old_row;
    let nw = w.new_row;
    let rid = w.rid;
    assert forall|i: int| #![trigger b[i]] 0 <= i < a.len() implies key_in(b[i], o, rid) == key_in(
        a[i],
        o,
        rid,
    ) && key_in(b[i], nw, rid) == key_in(a[i], nw, rid) && touched(b[i], tid, o, nw) == touched(
        a[i],
        tid,
        o,
        nw,
    ) by {
        assert(b[i] == (IndexMeta { root: b[i].root, ..a[i] }));
    }
    if retakes(ts, a, tid, o, nw, rid) {
        assert forall|i: int, fresh: int|
            0 <= i < b.len() && touched(b[i], tid, o, nw) && key_in(b[i], nw, rid).len() <= MAX_KEY
                && 0 <= fresh implies #[trigger] crate::btree::insertable(
            crate::btree::grow::shrink(ts[i], key_in(b[i], o, rid)),
            key_in(b[i], nw, rid),
            rid,
            fresh,
        ) by {
            assert(crate::btree::insertable(
                crate::btree::grow::shrink(ts[i], key_in(a[i], o, rid)),
                key_in(a[i], nw, rid),
                rid,
                fresh,
            ));
        }
    }
    assert forall|fresh: Seq<int>| #[trigger]
        regrown_trees(ts, b, tid, o, nw, rid, fresh) == regrown_trees(
            ts,
            a,
            tid,
            o,
            nw,
            rid,
            fresh,
        ) by {
        let x = regrown_trees(ts, a, tid, o, nw, rid, fresh);
        let y = regrown_trees(ts, b, tid, o, nw, rid, fresh);
        assert forall|i: int| 0 <= i < x.len() implies #[trigger] x[i] == y[i] by {
            assert(key_in(b[i], o, rid) == key_in(a[i], o, rid));
        }
        assert(x =~= y);
    }
    assert forall|es: Entries, n: int| es.len() == a.len() implies #[trigger] exchanged(
        es,
        b,
        tid,
        o,
        nw,
        rid,
        n,
    ) == exchanged(es, a, tid, o, nw, rid, n) by {
        let x = exchanged(es, a, tid, o, nw, rid, n);
        let y = exchanged(es, b, tid, o, nw, rid, n);
        assert forall|i: int| 0 <= i < x.len() implies #[trigger] x[i] == y[i] by {
            assert(key_in(b[i], o, rid) == key_in(a[i], o, rid));
        }
        assert(x =~= y);
    }
}

proof fn lemma_rehosts_next(
    ts: Seq<Tree>,
    idxs: Seq<IndexMeta>,
    tid: u16,
    ws: Seq<ChangeView>,
    count: int,
    k: int,
    fresh: Seq<int>,
    next: int,
    limit: int,
)
    requires
        rehosts(ts, idxs, tid, ws, count, k, limit),
        0 <= k < ws.len(),
        numbers(fresh, ts.len() as int),
        next <= count + growth(ts, ts.len() as int) + 1,
    ensures
        rehosts(
            regrown_trees(ts, idxs, tid, ws[k].old_row, ws[k].new_row, ws[k].rid, fresh),
            idxs,
            tid,
            ws,
            next,
            k + 1,
            limit,
        ),
{
    let us = regrown_trees(ts, idxs, tid, ws[k].old_row, ws[k].new_row, ws[k].rid, fresh);
    assert(reaches(next, count + growth(ts, ts.len() as int) + 1));
    assert(rehosts(us, idxs, tid, ws, next, k + 1, limit));
}

impl<P: Pager> Database<P> {
    /// What replacing rows came to: all of them replaced, or those before the one that was refused.
    pub open spec fn rewritten(
        &self,
        before: &Self,
        tid: u16,
        ws: Seq<ChangeView>,
        r: Result<usize, DbError>,
    ) -> bool {
        match r {
            Ok(n) => {
                &&& n == ws.len()
                &&& self.ok()
                &&& self.replaced(before, tid, ws, n as int)
            },
            Err(DbError::Exec(t)) => {
                &&& t@ == "entry too large for a node"@
                &&& self.ok()
                &&& exists|n: int, m: int|
                    #![trigger self.part_replaced(before, tid, ws, n, m)]
                    {
                        &&& 0 <= n < ws.len()
                        &&& 0 <= m < before.indexes@.len()
                        &&& touched(
                            before.indexes@[m],
                            tid,
                            ws[n].old_row,
                            ws[n].new_row,
                        )
                        &&& key_in(
                            before.indexes@[m],
                            ws[n].new_row,
                            ws[n].rid,
                        ).len() > MAX_KEY
                        &&& self.part_replaced(before, tid, ws, n, m)
                    }
            },
            Err(e) => {
                ||| device(e) && !(holds_out(&before.bp, 0) && rehosts(
                    before.trees@,
                    before.indexes@,
                    tid,
                    ws,
                    before.bp.count() as int,
                    0,
                    before.bp.reach(),
                ))
                ||| exists|ss: Seq<Self>, n: int| #[trigger] self.stopped(before, tid, ws, e, ss, n)
            },
        }
    }

    /// Row `i` was replaced between two states, and the heap could take it.
    pub open spec fn step(ss: Seq<Self>, tid: u16, ws: Seq<ChangeView>, i: int) -> bool {
        let w = ws[i];
        &&& update_result(ss[i].bp.pages(), w.rid, w.payload.len() + 2int) == Ok::<bool, HeapError>(
            true,
        )
        &&& ss[i + 1].changed(
            &ss[i],
            tid,
            w.old_row,
            w.new_row,
            w.payload,
            w.rid,
            ss[i].indexes@.len() as int,
        )
    }

    /// The first rows were replaced one after the other, beginning at `before`.
    pub open spec fn steps(ss: Seq<Self>, before: &Self, tid: u16, ws: Seq<ChangeView>) -> bool {
        &&& 0 < ss.len() <= ws.len() + 1
        &&& ss[0] == *before
        &&& forall|i: int| 0 <= i < ss.len() - 1 ==> #[trigger] Self::step(ss, tid, ws, i)
    }

    /// The first `n` rows were replaced, and the heap as they left it refused the next with
    /// the error `e`.
    pub open spec fn stopped(
        &self,
        before: &Self,
        tid: u16,
        ws: Seq<ChangeView>,
        e: DbError,
        ss: Seq<Self>,
        n: int,
    ) -> bool {
        &&& 0 <= n < ws.len()
        &&& ss.len() == n + 1
        &&& Self::steps(ss, before, tid, ws)
        &&& e matches DbError::Heap(h) && update_result(
            ss[n].bp.pages(),
            ws[n].rid,
            ws[n].payload.len() + 2int,
        ) == Err::<bool, HeapError>(h)
        &&& self.became(&ss[n], ss[n].stored(), ss[n].all_entries())
        &&& self.replaced(before, tid, ws, n)
        &&& self.ok()
    }

    /// The first `n` rows were replaced, and the indexes know.
    pub open spec fn replaced(&self, old: &Self, tid: u16, ws: Seq<ChangeView>, n: int) -> bool {
        self.became(
            old,
            with_changes(old.stored(), tid, ws, n),
            all_exchanged(old.all_entries(), old.indexes@, tid, ws, n),
        )
    }

    /// The first `n` rows and the one behind them were replaced; of that one the first
    /// `m` indexes know, and index `m` knows neither its new values nor the old ones.
    pub open spec fn part_replaced(
        &self,
        old: &Self,
        tid: u16,
        ws: Seq<ChangeView>,
        n: int,
        m: int,
    ) -> bool {
        let w = ws[n];
        let es = all_exchanged(old.all_entries(), old.indexes@, tid, ws, n);
        self.became(
            old,
            with_changes(old.stored(), tid, ws, n + 1),
            exchanged(es, old.indexes@, tid, w.old_row, w.new_row, w.rid, m).update(
                m,
                es[m].remove(key_in(old.indexes@[m], w.old_row, w.rid)),
            ),
        )
    }

    /// A row more was replaced.
    proof fn lemma_replaced_more(
        &self,
        here: &Self,
        was: &Self,
        tid: u16,
        ws: Seq<ChangeView>,
        k: int,
        m: int,
    )
        requires
            was.ok(),
            here.ok(),
            0 <= k < ws.len(),
            here.replaced(was, tid, ws, k),
            self.changed(
                here,
                tid,
                ws[k].old_row,
                ws[k].new_row,
                ws[k].payload,
                ws[k].rid,
                here.indexes@.len() as int,
            ) || 0 <= m < was.indexes@.len() && self.half_changed(
                here,
                tid,
                ws[k].old_row,
                ws[k].new_row,
                ws[k].payload,
                ws[k].rid,
                m,
            ),
        ensures
            self.changed(
                here,
                tid,
                ws[k].old_row,
                ws[k].new_row,
                ws[k].payload,
                ws[k].rid,
                here.indexes@.len() as int,
            ) ==> self.replaced(was, tid, ws, k + 1),
            0 <= m < was.indexes@.len() && self.half_changed(
                here,
                tid,
                ws[k].old_row,
                ws[k].new_row,
                ws[k].payload,
                ws[k].rid,
                m,
            ) ==> self.part_replaced(was, tid, ws, k, m),
    {
        let w = ws[k];
        let idxs = was.indexes@;
        let before = with_changes(was.stored(), tid, ws, k);
        let es = all_exchanged(was.all_entries(), idxs, tid, ws, k);
        let then = here.stored().insert(w.rid, table_record(tid, w.payload));
        let after = with_changes(was.stored(), tid, ws, k + 1);
        lemma_all_exchanged_len(was.all_entries(), idxs, tid, ws, k);
        lemma_same_rehosts(idxs, here.indexes@, here.trees@, tid, w);
        here.lemma_entries_are(was, before, es);
        assert(after == before.insert(w.rid, table_record(tid, w.payload)));
        assert forall|r: Rid| #[trigger] after.dom().contains(r) <==> then.dom().contains(r) by {
            assert(before.dom().contains(r) <==> here.stored().dom().contains(r));
        }
        assert forall|r: Rid| #[trigger] after.dom().contains(r) && !defines(
            idxs,
            r,
        ) implies then[r] == after[r] by {
            if r != w.rid {
                assert(before.dom().contains(r));
            }
        }
        let len = idxs.len() as int;
        if self.changed(here, tid, w.old_row, w.new_row, w.payload, w.rid, len) {
            let fs = exchanged(es, idxs, tid, w.old_row, w.new_row, w.rid, len);
            assert(exchanged(
                here.all_entries(),
                here.indexes@,
                tid,
                w.old_row,
                w.new_row,
                w.rid,
                len,
            ) == fs);
            self.lemma_then(here, was, before, es, then, after, fs);
        }
        if 0 <= m < len && self.half_changed(
            here,
            tid,
            w.old_row,
            w.new_row,
            w.payload,
            w.rid,
            m,
        ) {
            let fs = exchanged(es, idxs, tid, w.old_row, w.new_row, w.rid, m).update(
                m,
                es[m].remove(key_in(idxs[m], w.old_row, w.rid)),
            );
            assert(here.entries(m) == es[m]);
            assert(key_in(here.indexes@[m], w.old_row, w.rid) == key_in(
                idxs[m],
                w.old_row,
                w.rid,
            ));
            assert(exchanged(
                here.all_entries(),
                here.indexes@,
                tid,
                w.old_row,
                w.new_row,
                w.rid,
                m,
            ) == exchanged(es, idxs, tid, w.old_row, w.new_row, w.rid, m));
            self.lemma_then(here, was, before, es, then, after, fs);
        }
    }

    /// Replace rows of table `tid` one after the other, with their entries in its indexes:
    /// how many.
    #[verifier::rlimit(80)]
    #[verifier::spinoff_prover]
    pub fn update_rows(&mut self, tid: u16, work: &Vec<RowChange>) -> (r: Result<usize, DbError>)
        requires
            old(self).ok(),
            forall|i: int|
                0 <= i < work@.len() ==> {
                    let w = #[trigger] change_views(work@)[i];
                    &&& old(self).stored().dom().contains(w.rid)
                    &&& !defines(old(self).indexes@, w.rid)
                    &&& row_fits(old(self).indexes@, tid, w.old_row)
                    &&& row_fits(old(self).indexes@, tid, w.new_row)
                },
            rehosts(
                old(self).trees@,
                old(self).indexes@,
                tid,
                change_views(work@),
                old(self).bp.count() as int,
                0,
                u32::MAX as int,
            ),
        ensures
            final(self).counts == old(self).counts,
            final(self).bp.pager_ok(),
            final(self).bp.reach() == old(self).bp.reach(),
            final(self).rewritten(old(self), tid, change_views(work@), r),
    {
        let ghost was = *self;
        let ghost idxs = self.indexes@;
        let ghost ws = change_views(work@);
        let mut heap: HeapFile = match HeapFile::open(&mut self.bp) {
            Ok(h) => h,
            Err(e) => {
                return Err(DbError::Heap(e));
            },
        };
        proof {
            self.lemma_unmoved_became(&was);
        }
        let n: usize = work.len();
        let mut k: usize = 0;
        let ghost mut ss: Seq<Self> = seq![was];
        while k < n
            invariant
                self.counts == old(self).counts,
                k <= n == work@.len(),
                was == *old(self),
                was.ok(),
                idxs == was.indexes@,
                ws == change_views(work@),
                forall|i: int|
                    0 <= i < ws.len() ==> {
                        let w = #[trigger] ws[i];
                        &&& was.stored().dom().contains(w.rid)
                        &&& !defines(idxs, w.rid)
                        &&& row_fits(idxs, tid, w.old_row)
                        &&& row_fits(idxs, tid, w.new_row)
                    },
                self.ok(),
                heap.ready(&self.bp),
                self.bp.reach() == was.bp.reach(),
                self.replaced(&was, tid, ws, k as int),
                ss.len() == k + 1,
                Self::steps(ss, &was, tid, ws),
                self.unmoved(&ss[k as int]),
                rehosts(
                    was.trees@,
                    idxs,
                    tid,
                    ws,
                    was.bp.count() as int,
                    0,
                    was.bp.reach(),
                ) ==> rehosts(
                    self.trees@,
                    idxs,
                    tid,
                    ws,
                    self.bp.count() as int,
                    k as int,
                    was.bp.reach(),
                ),
                rehosts(self.trees@, idxs, tid, ws, self.bp.count() as int, k as int, u32::MAX as int),
            decreases n - k,
        {
            let ghost here = *self;
            let ghost w = ws[k as int];
            let ghost last = ss[k as int];
            proof {
                here.lemma_unmoved_same(&last);
                assert(w == work@[k as int]@);
                lemma_same_indexes(idxs, here.indexes@, tid);
                lemma_same_rehosts(idxs, here.indexes@, here.trees@, tid, w);
                lemma_with_changes(was.stored(), tid, ws, k as int, w.rid);
                assert(with_changes(was.stored(), tid, ws, k as int).dom().contains(w.rid));
                assert(here.stored().dom().contains(w.rid));
                assert(!defines(idxs, w.rid));
                assert(row_fits(idxs, tid, w.old_row) && row_fits(idxs, tid, w.new_row));
            }
            match self.update_row(
                &mut heap,
                tid,
                work[k].rid,
                &work[k].old_row,
                &work[k].new_row,
                work[k].payload.as_slice(),
            ) {
                Ok(()) => {
                    proof {
                        self.lemma_replaced_more(&here, &was, tid, ws, k as int, -1);
                        let fresh = choose|fresh: Seq<int>|
                            numbers(fresh, here.trees@.len() as int) && self.trees@
                                == #[trigger] regrown_trees(
                                here.trees@,
                                here.indexes@,
                                tid,
                                w.old_row,
                                w.new_row,
                                w.rid,
                                fresh,
                            );
                        assert(self.trees@ == regrown_trees(
                            here.trees@,
                            idxs,
                            tid,
                            w.old_row,
                            w.new_row,
                            w.rid,
                            fresh,
                        ));
                        lemma_rehosts_next(
                            here.trees@,
                            idxs,
                            tid,
                            ws,
                            here.bp.count() as int,
                            k as int,
                            fresh,
                            self.bp.count() as int,
                            u32::MAX as int,
                        );
                        if rehosts(
                            here.trees@,
                            idxs,
                            tid,
                            ws,
                            here.bp.count() as int,
                            k as int,
                            was.bp.reach(),
                        ) {
                            lemma_rehosts_next(
                                here.trees@,
                                idxs,
                                tid,
                                ws,
                                here.bp.count() as int,
                                k as int,
                                fresh,
                                self.bp.count() as int,
                                was.bp.reach(),
                            );
                        }
                        let before = ss;
                        ss = ss.push(*self);
                        assert(self.changed(
                            &last,
                            tid,
                            w.old_row,
                            w.new_row,
                            w.payload,
                            w.rid,
                            last.indexes@.len() as int,
                        ));
                        assert forall|i: int| 0 <= i < ss.len() - 1 implies #[trigger] Self::step(
                            ss,
                            tid,
                            ws,
                            i,
                        ) by {
                            if i < k {
                                assert(Self::step(before, tid, ws, i));
                                assert(ss[i] == before[i] && ss[i + 1] == before[i + 1]);
                            }
                        }
                    }
                },
                Err(e) => {
                    proof {
                        if e is Exec {
                            let m = choose|m: int|
                                0 <= m < here.indexes@.len() && touched(
                                    here.indexes@[m],
                                    tid,
                                    w.old_row,
                                    w.new_row,
                                ) && key_in(here.indexes@[m], w.new_row, w.rid).len() > MAX_KEY
                                    && #[trigger] self.half_changed(
                                    &here,
                                    tid,
                                    w.old_row,
                                    w.new_row,
                                    w.payload,
                                    w.rid,
                                    m,
                                );
                            self.lemma_replaced_more(&here, &was, tid, ws, k as int, m);
                            assert(self.part_replaced(old(self), tid, ws, k as int, m));
                        } else if !device(e) {
                            let before = with_changes(was.stored(), tid, ws, k as int);
                            let es = all_exchanged(was.all_entries(), idxs, tid, ws, k as int);
                            here.lemma_entries_are(&was, before, es);
                            self.lemma_then(
                                &here,
                                &was,
                                before,
                                es,
                                here.stored(),
                                before,
                                es,
                            );
                            assert(self.replaced(old(self), tid, ws, k as int));
                            assert(self.became(&last, last.stored(), last.all_entries()));
                            assert(self.stopped(old(self), tid, ws, e, ss, k as int));
                        }
                    }
                    return Err(e);
                },
            }
            k = k + 1;
        }
        Ok(n)
    }
}

} // verus!
