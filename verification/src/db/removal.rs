//! Dropping tables and indexes.

use vstd::prelude::*;
use vstd::utf8::encode_utf8;

use crate::btree::tree::{disjoint, tree_ok, Tree};
use crate::db::catalog::{law_index_roundtrip, stored_index, IndexMeta, FIRST_USER_TID, INDEX_TID};
use crate::db::define::named;
use crate::db::dml::{
    doomed, doomed_records, goes_with_table, law_record_roundtrip, own_names, quoted, quoted_err,
    rec_views, record_fits, TableDef,
};
use crate::db::store::{
    defined, device, index_record, lemma_reachable, lemma_still_wired, lemma_stored_len, planted,
    wired, Database,
};
use crate::db::DbError;
use crate::heap::{
    is_moved, is_stub, record, records, rid_lt, sound, target, tidy, HeapFile, Pages, Rid,
};
use crate::page::MAX_TUPLE_SIZE;
use crate::pager::{holds_out, Pager};

verus! {

/// What makes an index stay.
pub type Keep = spec_fn(IndexMeta) -> bool;

/// The positions of the indexes that stay.
pub open spec fn kept_at(idxs: Seq<IndexMeta>, keep: Keep) -> Seq<int>
    decreases idxs.len(),
{
    if idxs.len() == 0 {
        Seq::empty()
    } else if keep(idxs.last()) {
        kept_at(idxs.drop_last(), keep).push(idxs.len() - 1)
    } else {
        kept_at(idxs.drop_last(), keep)
    }
}

/// The indexes that stay.
pub open spec fn staying(idxs: Seq<IndexMeta>, keep: Keep) -> Seq<IndexMeta> {
    let at = kept_at(idxs, keep);
    Seq::new(at.len(), |k: int| idxs[at[k]])
}

/// The trees of the indexes that stay.
pub open spec fn staying_trees(idxs: Seq<IndexMeta>, ts: Seq<Tree>, keep: Keep) -> Seq<Tree> {
    let at = kept_at(idxs, keep);
    Seq::new(at.len(), |k: int| ts[at[k]])
}

proof fn lemma_kept_at(idxs: Seq<IndexMeta>, keep: Keep)
    ensures
        ({
            let at = kept_at(idxs, keep);
            &&& forall|k: int|
                0 <= k < at.len() ==> 0 <= #[trigger] at[k] < idxs.len() && keep(idxs[at[k]])
            &&& forall|j: int, k: int| 0 <= j < k < at.len() ==> #[trigger] at[j] < #[trigger] at[k]
        }),
    decreases idxs.len(),
{
    if idxs.len() > 0 {
        lemma_kept_at(idxs.drop_last(), keep);
        let was = kept_at(idxs.drop_last(), keep);
        let at = kept_at(idxs, keep);
        assert forall|k: int| 0 <= k < at.len() implies 0 <= #[trigger] at[k] < idxs.len() && keep(
            idxs[at[k]],
        ) by {
            if k < was.len() {
                assert(at[k] == was[k]);
            }
        }
        assert forall|j: int, k: int| 0 <= j < k < at.len() implies #[trigger] at[j]
            < #[trigger] at[k] by {
            assert(at[j] == was[j]);
            if k < was.len() {
                assert(at[k] == was[k]);
            }
        }
    }
}

/// The indexes that stay are wired as they were.
proof fn lemma_staying_wired(pages: Pages, idxs: Seq<IndexMeta>, ts: Seq<Tree>, keep: Keep)
    requires
        wired(pages, idxs, ts),
    ensures
        wired(pages, staying(idxs, keep), staying_trees(idxs, ts, keep)),
{
    reveal(wired);
    reveal(planted);
    lemma_kept_at(idxs, keep);
    let at = kept_at(idxs, keep);
    let xs = staying(idxs, keep);
    let us = staying_trees(idxs, ts, keep);
    assert forall|i: int| 0 <= i < us.len() implies tree_ok(pages, #[trigger] us[i]) by {
        assert(us[i] == ts[at[i]]);
    }
    assert forall|i: int, j: int| 0 <= i < j < us.len() implies disjoint(
        #[trigger] us[i],
        #[trigger] us[j],
    ) by {
        assert(at[i] < at[j]);
        assert(disjoint(ts[at[i]], ts[at[j]]));
    }
    assert forall|i: int| 0 <= i < xs.len() implies defined(records(pages), #[trigger] xs[i])
        && xs[i].root == us[i].pid() by {
        assert(xs[i] == idxs[at[i]]);
    }
    assert forall|i: int, j: int| 0 <= i < j < xs.len() implies (#[trigger] xs[i]).catalog_rid != (
    #[trigger] xs[j]).catalog_rid by {
        assert(at[i] < at[j]);
        assert(idxs[at[i]].catalog_rid != idxs[at[j]].catalog_rid);
    }
}

/// Leave out the indexes on table `tid`.
fn without_table(all: Vec<IndexMeta>, tid: u16) -> (out: Vec<IndexMeta>)
    ensures
        out@ == staying(all@, |m: IndexMeta| m.table_id != tid),
{
    let ghost idxs = all@;
    let ghost keep: Keep = |m: IndexMeta| m.table_id != tid;
    let n: usize = all.len();
    let mut rest: Vec<IndexMeta> = all;
    let mut out: Vec<IndexMeta> = Vec::new();
    let mut i: usize = 0;
    assert(staying(idxs.take(0), keep) =~= Seq::empty());
    assert(idxs.skip(0) =~= idxs);
    while i < n
        invariant
            i <= n == idxs.len(),
            keep == (|m: IndexMeta| m.table_id != tid),
            rest@ == idxs.skip(i as int),
            out@ == staying(idxs.take(i as int), keep),
        decreases n - i,
    {
        proof {
            lemma_staying_next(idxs, keep, i as int);
            assert(idxs.skip(i as int)[0] == idxs[i as int]);
        }
        let m: IndexMeta = rest.remove(0);
        assert(rest@ =~= idxs.skip(i + 1));
        if m.table_id != tid {
            out.push(m);
        }
        i = i + 1;
    }
    assert(idxs.take(i as int) =~= idxs);
    out
}

/// Leave out the indexes of the name.
fn without_name(all: Vec<IndexMeta>, name: &String) -> (out: Vec<IndexMeta>)
    ensures
        out@ == staying(all@, |m: IndexMeta| m.name@ != name@),
{
    let ghost idxs = all@;
    let ghost keep: Keep = |m: IndexMeta| m.name@ != name@;
    let n: usize = all.len();
    let mut rest: Vec<IndexMeta> = all;
    let mut out: Vec<IndexMeta> = Vec::new();
    let mut i: usize = 0;
    assert(staying(idxs.take(0), keep) =~= Seq::empty());
    assert(idxs.skip(0) =~= idxs);
    while i < n
        invariant
            i <= n == idxs.len(),
            keep == (|m: IndexMeta| m.name@ != name@),
            rest@ == idxs.skip(i as int),
            out@ == staying(idxs.take(i as int), keep),
        decreases n - i,
    {
        proof {
            lemma_staying_next(idxs, keep, i as int);
            assert(idxs.skip(i as int)[0] == idxs[i as int]);
        }
        let m: IndexMeta = rest.remove(0);
        assert(rest@ =~= idxs.skip(i + 1));
        if m.name != *name {
            out.push(m);
        }
        i = i + 1;
    }
    assert(idxs.take(i as int) =~= idxs);
    out
}

proof fn lemma_staying_next(idxs: Seq<IndexMeta>, keep: Keep, i: int)
    requires
        0 <= i < idxs.len(),
    ensures
        staying(idxs.take(i + 1), keep) == if keep(idxs[i]) {
            staying(idxs.take(i), keep).push(idxs[i])
        } else {
            staying(idxs.take(i), keep)
        },
{
    let a = idxs.take(i);
    let b = idxs.take(i + 1);
    assert(b.drop_last() =~= a);
    lemma_kept_at(a, keep);
    lemma_kept_at(b, keep);
    if keep(idxs[i]) {
        assert(staying(b, keep) =~= staying(a, keep).push(idxs[i]));
    } else {
        assert(staying(b, keep) =~= staying(a, keep));
    }
}

/// The records that stay when table `tid` is dropped.
pub open spec fn without_table_data(recs: Map<Rid, Seq<u8>>, tid: u16) -> Map<Rid, Seq<u8>> {
    Map::new(
        |r: Rid| recs.dom().contains(r) && !goes_with_table(recs[r], tid),
        |r: Rid| recs[r],
    )
}

/// The records without those at the first `n` places.
spec fn minus(recs: Map<Rid, Seq<u8>>, rids: Seq<Rid>, n: int) -> Map<Rid, Seq<u8>> {
    Map::new(
        |r: Rid| recs.dom().contains(r) && !exists|k: int| 0 <= k < n && #[trigger] rids[k] == r,
        |r: Rid| recs[r],
    )
}

/// The record at `r`, which goes, is the one at position `j`.
spec fn goes_at(v: Seq<(Rid, Seq<u8>)>, tid: u16, r: Rid, j: int) -> bool {
    0 <= j < v.len() && v[j].0 == r && goes_with_table(v[j].1, tid)
}

/// The record at `r` goes.
spec fn goes(v: Seq<(Rid, Seq<u8>)>, tid: u16, r: Rid) -> bool {
    exists|j: int| goes_at(v, tid, r, j)
}

/// The places of the records that go.
proof fn lemma_doomed(v: Seq<(Rid, Seq<u8>)>, tid: u16)
    requires
        forall|i: int, j: int|
            0 <= i < j < v.len() ==> rid_lt((#[trigger] v[i]).0, (#[trigger] v[j]).0),
    ensures
        forall|k: int|
            0 <= k < doomed(v, tid).len() ==> goes(v, tid, #[trigger] doomed(v, tid)[k]),
        forall|j: int|
            0 <= j < v.len() && goes_with_table((#[trigger] v[j]).1, tid) ==> doomed(
                v,
                tid,
            ).contains(v[j].0),
        doomed(v, tid).no_duplicates(),
    decreases v.len(),
{
    let d = doomed(v, tid);
    if v.len() > 0 {
        let w = v.drop_last();
        let was = doomed(w, tid);
        lemma_doomed(w, tid);
        let n = v.len() - 1;
        assert forall|k: int| 0 <= k < d.len() implies goes(v, tid, #[trigger] d[k]) by {
            if k < was.len() {
                assert(d[k] == was[k]);
                assert(goes(w, tid, was[k]));
                let j = choose|j: int| goes_at(w, tid, was[k], j);
                assert(goes_at(v, tid, d[k], j));
            } else {
                assert(goes_at(v, tid, d[k], n));
            }
        }
        assert forall|j: int| 0 <= j < v.len() && goes_with_table(
            (#[trigger] v[j]).1,
            tid,
        ) implies d.contains(v[j].0) by {
            if j < n {
                assert(w[j] == v[j]);
                let k = choose|k: int| 0 <= k < was.len() && was[k] == w[j].0;
                assert(d[k] == was[k]);
            } else {
                assert(d[was.len() as int] == v[j].0);
            }
        }
        assert forall|j: int, k: int| 0 <= j < k < d.len() implies d[j] != d[k] by {
            assert(d[j] == was[j]);
            if k < was.len() {
                assert(d[k] == was[k]);
            } else {
                assert(goes(w, tid, was[j]));
                let x = choose|x: int| goes_at(w, tid, was[j], x);
                assert(v[x] == w[x]);
                assert(rid_lt(v[x].0, v[n].0));
            }
        }
    }
}

/// The definition of an index on another table stays.
proof fn lemma_other_definition(pages: Pages, count: u32, m: IndexMeta, tid: u16)
    requires
        tidy(pages, count),
        sound(pages),
        defined(records(pages), m),
        m.table_id != tid,
        tid >= FIRST_USER_TID,
    ensures
        !goes_with_table(index_record(m), tid),
{
    let name = encode_utf8(m.name@);
    let b = stored_index(name, m.table_id, m.col_index as u32, m.col_type, m.root);
    let r = m.catalog_rid;
    assert(record(pages, r) is Some);
    lemma_stored_len(pages, count, r);
    if is_stub(pages, r) {
        assert(is_moved(pages, target(pages, r)));
        lemma_stored_len(pages, count, target(pages, r));
    }
    assert(index_record(m).len() <= MAX_TUPLE_SIZE);
    assert(b.len() >= name.len());
    law_index_roundtrip(name, m.table_id, m.col_index as u32, m.col_type, m.root);
    law_record_roundtrip(INDEX_TID, b);
    assert(index_record(m).skip(2) == b);
}

/// Without one of them the tables still have names of their own.
proof fn lemma_still_own_names(ts: Seq<TableDef>, i: int)
    requires
        own_names(ts),
        0 <= i < ts.len(),
    ensures
        own_names(ts.remove(i)),
{
    let us = ts.remove(i);
    assert forall|x: int, y: int| 0 <= x < y < us.len() implies (#[trigger] us[x]).name@ != (
    #[trigger] us[y]).name@ by {
        let p = if x < i {
            x
        } else {
            x + 1
        };
        let q = if y < i {
            y
        } else {
            y + 1
        };
        assert(us[x] == ts[p] && us[y] == ts[q]);
    }
}

impl<P: Pager> Database<P> {
    /// What dropping an index came to.
    pub open spec fn unindexed(
        &self,
        before: &Self,
        name: Seq<char>,
        r: Result<(), DbError>,
    ) -> bool {
        &&& self.counts == before.counts
        &&& self.bp.pager_ok()
        &&& self.bp.reach() == before.bp.reach()
        &&& self.tables == before.tables
        &&& self.next_tid == before.next_tid
        &&& ({
            let idxs = before.indexes@;
            let keep: Keep = |m: IndexMeta| m.name@ != name;
            match r {
                Ok(()) => {
                    &&& self.ok()
                    &&& self.indexes@ == staying(idxs, keep)
                    &&& self.trees@ == staying_trees(idxs, before.trees@, keep)
                    &&& exists|i: int|
                        0 <= i < idxs.len() && (#[trigger] idxs[i]).name@ == name && (forall|
                            j: int,
                        |
                            0 <= j < i ==> (#[trigger] idxs[j]).name@ != name)
                            && self.stored() == before.stored().remove(
                            idxs[i].catalog_rid,
                        )
                },
                Err(DbError::Exec(t)) => {
                    &&& forall|i: int|
                        0 <= i < idxs.len() ==> (#[trigger] idxs[i]).name@ != name
                    &&& t@ == quoted("no such index '"@, name)
                    &&& *self == *before
                },
                Err(e) => device(e) && !holds_out(&before.bp, 0),
            }
        })
    }

    /// Drop the index of the name.
    #[verifier::rlimit(40)]
    #[verifier::spinoff_prover]
    pub fn drop_index(&mut self, name: &String) -> (r: Result<(), DbError>)
        requires
            old(self).ok(),
        ensures
            final(self).unindexed(old(self), name@, r),
    {
        let ghost was = *self;
        let ghost a = self.bp.pages();
        let ghost idxs = self.indexes@;
        let ghost ts = self.trees@;
        let ghost keep: Keep = |m: IndexMeta| m.name@ != name@;
        let n: usize = self.indexes.len();
        let mut i: usize = 0;
        while i < n && self.indexes[i].name != *name
            invariant
                self.counts == old(self).counts,
                i <= n == idxs.len(),
                *self == was,
                idxs == was.indexes@,
                forall|j: int| 0 <= j < i ==> (#[trigger] idxs[j]).name@ != name@,
            decreases n - i,
        {
            i = i + 1;
        }
        if i == n {
            return quoted_err("no such index '", name);
        }
        let at: Rid = self.indexes[i].catalog_rid;
        assert(idxs[i as int].name@ == name@);
        proof {
            reveal(Database::stored);
            was.lemma_defined(i as int);
            lemma_reachable(a, at);
            lemma_staying_wired(a, idxs, ts, keep);
            lemma_kept_at(idxs, keep);
        }
        let mut heap: HeapFile = match HeapFile::open(&mut self.bp) {
            Ok(h) => h,
            Err(e) => {
                return Err(DbError::Heap(e));
            },
        };
        match heap.delete(&mut self.bp, at) {
            Ok(_) => {},
            Err(e) => {
                return Err(DbError::Heap(e));
            },
        }
        let mut all: Vec<IndexMeta> = Vec::new();
        std::mem::swap(&mut all, &mut self.indexes);
        self.indexes = without_name(all, name);
        proof {
            let xs = staying(idxs, keep);
            let us = staying_trees(idxs, ts, keep);
            let b = self.bp.pages();
            assert forall|k: int| 0 <= k < xs.len() implies records(b).dom().contains(
                (#[trigger] xs[k]).catalog_rid,
            ) && records(b)[xs[k].catalog_rid] == records(a)[xs[k].catalog_rid] by {
                let x = kept_at(idxs, keep)[k];
                was.lemma_defined(x);
                assert(x != i);
                reveal(wired);
                if x < i {
                    assert(idxs[x].catalog_rid != idxs[i as int].catalog_rid);
                } else {
                    assert(idxs[i as int].catalog_rid != idxs[x].catalog_rid);
                }
            }
            lemma_still_wired(a, b, xs, us);
            self.trees@ = us;
        }
        Ok(())
    }

    /// What dropping a table came to.
    pub open spec fn dropped(
        &self,
        before: &Self,
        name: Seq<char>,
        r: Result<(), DbError>,
    ) -> bool {
        &&& self.counts == before.counts
        &&& self.bp.pager_ok()
        &&& self.bp.reach() == before.bp.reach()
        &&& self.next_tid == before.next_tid
        &&& match r {
            Ok(()) => {
                &&& self.ok()
                &&& exists|i: int| {
                    let tid = before.tables@[i].tid;
                    let keep: Keep = |m: IndexMeta| m.table_id != tid;
                    &&& #[trigger] named(before.tables@, name, i)
                    &&& self.tables@ == before.tables@.remove(i)
                    &&& self.indexes@ == staying(before.indexes@, keep)
                    &&& self.trees@ == staying_trees(
                        before.indexes@,
                        before.trees@,
                        keep,
                    )
                    &&& self.stored() == without_table_data(before.stored(), tid)
                }
            },
            Err(DbError::Exec(t)) => {
                &&& forall|i: int| !named(before.tables@, name, i)
                &&& t@ == quoted("no such table '"@, name)
                &&& *self == *before
            },
            Err(e) => device(e) && !holds_out(&before.bp, 0),
        }
    }

    /// Drop the table of the name, with its rows and its indexes.
    #[verifier::rlimit(80)]
    #[verifier::spinoff_prover]
    pub fn drop_table(&mut self, name: &String) -> (r: Result<(), DbError>)
        requires
            old(self).ok(),
            forall|i: int|
                named(old(self).tables@, name@, i) ==> old(self).tables@[i].tid >= FIRST_USER_TID,
            forall|x: Rid| #[trigger]
                old(self).stored().dom().contains(x) ==> record_fits(old(self).stored()[x]),
        ensures
            final(self).dropped(old(self), name@, r),
    {
        let ghost was = *self;
        let ghost a = self.bp.pages();
        let ghost idxs = self.indexes@;
        let ghost ts = self.trees@;
        let ghost recs = self.stored();
        let i: usize = match self.find_table(name) {
            Ok(i) => i,
            Err(e) => {
                return Err(e);
            },
        };
        let tid: u16 = self.tables[i].tid;
        let ghost keep: Keep = |m: IndexMeta| m.table_id != tid;
        let ghost xs = staying(idxs, keep);
        let ghost us = staying_trees(idxs, ts, keep);
        assert(named(was.tables@, name@, i as int));
        let (mut heap, v): (HeapFile, Vec<(Rid, Vec<u8>)>) = match self.scan_records() {
            Ok(x) => x,
            Err(e) => {
                return Err(e);
            },
        };
        let ghost rv = rec_views(v@);
        proof {
            assert forall|k: int| 0 <= k < rv.len() implies record_fits((#[trigger] rv[k]).1) by {
                assert(recs.dom().contains(rv[k].0));
            }
        }
        let gone: Vec<Rid> = doomed_records(&v, tid);
        let ghost d = doomed(rv, tid);
        proof {
            lemma_doomed(rv, tid);
            lemma_staying_wired(a, idxs, ts, keep);
            lemma_kept_at(idxs, keep);
            assert(recs == records(a)) by {
                reveal(Database::stored);
            }
            assert(minus(recs, d, 0) =~= recs);
            assert forall|k: int| 0 <= k < d.len() implies recs.dom().contains(#[trigger] d[k])
                && goes_with_table(recs[d[k]], tid) by {
                assert(goes(rv, tid, d[k]));
                let j = choose|j: int| goes_at(rv, tid, d[k], j);
                assert(recs.dom().contains(rv[j].0));
            }
            assert forall|k: int| 0 <= k < xs.len() implies recs.dom().contains(
                (#[trigger] xs[k]).catalog_rid,
            ) && !goes_with_table(recs[xs[k].catalog_rid], tid) by {
                let x = kept_at(idxs, keep)[k];
                was.lemma_defined(x);
                lemma_other_definition(a, was.bp.count(), idxs[x], tid);
            }
        }
        let mut j: usize = 0;
        while j < gone.len()
            invariant
                self.counts == old(self).counts,
                j <= gone@.len(),
                gone@ == d,
                recs == was.stored(),
                xs.len() == us.len(),
                heap.ready(&self.bp),
                sound(self.bp.pages()),
                self.bp.pager_ok(),
                self.bp.reach() == was.bp.reach(),
                self.bp.count() == was.bp.count(),
                was == *old(self),
                was.ok(),
                self.tables == was.tables,
                self.indexes == was.indexes,
                self.next_tid == was.next_tid,
                records(self.bp.pages()) == minus(recs, d, j as int),
                wired(self.bp.pages(), xs, us),
                forall|k: int|
                    0 <= k < d.len() ==> recs.dom().contains(#[trigger] d[k]) && goes_with_table(
                        recs[d[k]],
                        tid,
                    ),
                forall|x: int, k: int| 0 <= x < k < d.len() ==> #[trigger] d[x] != #[trigger] d[k],
                forall|k: int|
                    0 <= k < xs.len() ==> recs.dom().contains((#[trigger] xs[k]).catalog_rid)
                        && !goes_with_table(recs[xs[k].catalog_rid], tid),
            decreases gone@.len() - j,
        {
            let ghost b = self.bp.pages();
            let rid: Rid = gone[j];
            proof {
                assert(rid == d[j as int]);
                assert(records(b).dom().contains(rid)) by {
                    assert(minus(recs, d, j as int).dom().contains(rid));
                }
                lemma_reachable(b, rid);
            }
            match heap.delete(&mut self.bp, rid) {
                Ok(_) => {},
                Err(e) => {
                    return Err(DbError::Heap(e));
                },
            }
            proof {
                let c = self.bp.pages();
                assert(minus(recs, d, j + 1) =~= minus(recs, d, j as int).remove(rid)) by {
                    assert forall|x: Rid| minus(recs, d, j + 1).dom().contains(x) <==> minus(
                        recs,
                        d,
                        j as int,
                    ).remove(rid).dom().contains(x) by {
                        if x == rid {
                            assert(d[j as int] == x);
                        }
                    }
                }
                assert forall|k: int| 0 <= k < xs.len() implies records(c).dom().contains(
                    (#[trigger] xs[k]).catalog_rid,
                ) && records(c)[xs[k].catalog_rid] == records(b)[xs[k].catalog_rid] by {
                    let x = xs[k].catalog_rid;
                    assert forall|y: int| 0 <= y < d.len() implies #[trigger] d[y] != x by {}
                    assert(minus(recs, d, j + 1).dom().contains(x));
                    assert(minus(recs, d, j as int).dom().contains(x));
                }
                lemma_still_wired(b, c, xs, us);
            }
            j = j + 1;
        }
        self.tables.remove(i);
        proof {
            lemma_still_own_names(was.tables@, i as int);
        }
        let mut all: Vec<IndexMeta> = Vec::new();
        std::mem::swap(&mut all, &mut self.indexes);
        self.indexes = without_table(all, tid);
        proof {
            self.trees@ = us;
            reveal(Database::stored);
            assert(minus(recs, d, d.len() as int) =~= without_table_data(recs, tid)) by {
                assert forall|x: Rid| minus(recs, d, d.len() as int).dom().contains(x)
                    <==> without_table_data(recs, tid).dom().contains(x) by {
                    if recs.dom().contains(x) {
                        let k = choose|k: int| 0 <= k < rv.len() && (#[trigger] rv[k]).0 == x;
                        assert(rv[k].1 == recs[x]);
                        if goes_with_table(recs[x], tid) {
                            assert(d.contains(x));
                            let y = choose|y: int| 0 <= y < d.len() && d[y] == x;
                            assert(d[y] == x);
                        }
                    }
                }
            }
            assert(named(old(self).tables@, name@, i as int));
        }
        Ok(())
    }
}

} // verus!
