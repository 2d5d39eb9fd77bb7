//! Tables and indexes: defining them, dropping them, and reading what they hold.

use vstd::prelude::*;
use vstd::utf8::encode_utf8;

use crate::btree::node::{plain, Entry};
use crate::btree::tree::{disjoint, flat, height, tree_ok, Tree};
use crate::btree::walk::between;
use crate::btree::{grown_count, grown_tree, insertable, BTree, BtreeError, MAX_KEY};
use crate::buffer::{BufferError, PageId};
use crate::bytes::{bytes_lt, lemma_lex_total, lemma_lex_transitive, lex_lt};
use crate::db::ast::BinOp;
use crate::db::catalog::{
    bound_view, bounds_of, columns, entry_key, index_bounds, index_key, serialize_catalog,
    serialize_index, stored_table, IndexMeta, Schema, CATALOG_TID, FIRST_USER_TID,
    INDEX_TID,
};
use crate::db::dml::{
    flaw, greatest_tid, index_read, load_catalog, lemma_own_names, of_kind, own_names, payloads, quoted, quoted_err,
    rec_views, record_fits, row_record, sound_record, table_of, table_record, table_rows,
    tables_read,
    TableDef,
};
use crate::db::store::{
    defined, device, index_record, lemma_all_kept, lemma_heap_steps, lemma_index, lemma_new_tree,
    lemma_tree_step, lemma_tree_steps, no_counts, planted, regrown, wired, Counts, Database,
};
use crate::db::exec::ExecError;
use crate::db::session::Replay;
use crate::db::{exec_err, says, DbError};
use crate::heap::{
    addressable, faultless, first_fault, first_lost, frame, get_result, heap_wf,
    law_get_returns_the_record, law_scan_returns_the_records, readings, record, records, rid_lt, scanned,
    solid, sound, tidy, told, whole_stubs, HeapError, HeapFile, Pages, Rid, MAX_RECORD,
};
use crate::keys::encode_value;
use crate::keys::encoded;
use crate::pager::{holds_out, Pager};
use crate::types::{fits_type, ColumnType, Value, ValueView};

verus! {

/// All records in the order of their addresses.
pub open spec fn lists(recs: Map<Rid, Seq<u8>>, v: Seq<(Rid, Seq<u8>)>) -> bool {
    &&& forall|i: int|
        0 <= i < v.len() ==> recs.dom().contains((#[trigger] v[i]).0) && recs[v[i].0] == v[i].1
    &&& forall|i: int, j: int|
        0 <= i < j < v.len() ==> rid_lt((#[trigger] v[i]).0, (#[trigger] v[j]).0)
    &&& forall|r: Rid| #[trigger]
        recs.dom().contains(r) ==> exists|i: int| 0 <= i < v.len() && (#[trigger] v[i]).0 == r
}

/// The rows of a table.
pub open spec fn table_data(recs: Map<Rid, Seq<u8>>, tid: u16) -> Map<Rid, Seq<u8>> {
    Map::new(
        |r: Rid| recs.dom().contains(r) && table_of(recs[r]) == Some(tid),
        |r: Rid| recs[r].skip(2),
    )
}

/// The payloads of a table's records among all records are the rows of the table.
proof fn lemma_payloads(recs: Map<Rid, Seq<u8>>, v: Seq<(Rid, Seq<u8>)>, tid: u16, n: int)
    requires
        lists(recs, v),
        0 <= n <= v.len(),
    ensures
        ({
            let out = payloads(v.take(n), tid);
            &&& forall|i: int|
                0 <= i < out.len() ==> recs.dom().contains((#[trigger] out[i]).0) && table_of(
                    recs[out[i].0],
                ) == Some(tid) && out[i].1 == recs[out[i].0].skip(2) && exists|j: int|
                    0 <= j < n && (#[trigger] v[j]).0 == out[i].0
            &&& forall|i: int, j: int|
                0 <= i < j < out.len() ==> rid_lt((#[trigger] out[i]).0, (#[trigger] out[j]).0)
            &&& forall|j: int|
                0 <= j < n && table_of((#[trigger] v[j]).1) == Some(tid) ==> exists|i: int|
                    0 <= i < out.len() && (#[trigger] out[i]).0 == v[j].0
        }),
    decreases n,
{
    let out = payloads(v.take(n), tid);
    if n > 0 {
        let was = payloads(v.take(n - 1), tid);
        lemma_payloads(recs, v, tid, n - 1);
        assert(v.take(n).drop_last() =~= v.take(n - 1));
        assert(v.take(n).last() == v[n - 1]);
        let last = v[n - 1];
        if table_of(last.1) == Some(tid) {
            assert(out == was.push((last.0, last.1.skip(2))));
            assert forall|i: int| 0 <= i < out.len() implies recs.dom().contains(
                (#[trigger] out[i]).0,
            ) && table_of(recs[out[i].0]) == Some(tid) && out[i].1 == recs[out[i].0].skip(2)
                && exists|j: int| 0 <= j < n && (#[trigger] v[j]).0 == out[i].0 by {
                if i < was.len() {
                    assert(was[i] == out[i]);
                } else {
                    assert(v[n - 1].0 == out[i].0);
                }
            }
            assert forall|i: int, j: int| 0 <= i < j < out.len() implies rid_lt(
                (#[trigger] out[i]).0,
                (#[trigger] out[j]).0,
            ) by {
                assert(was[i] == out[i]);
                if j < was.len() {
                    assert(was[j] == out[j]);
                } else {
                    let k = choose|k: int| 0 <= k < n - 1 && (#[trigger] v[k]).0 == was[i].0;
                    assert(rid_lt(v[k].0, v[n - 1].0));
                }
            }
            assert forall|j: int| 0 <= j < n && table_of((#[trigger] v[j]).1) == Some(
                tid,
            ) implies exists|i: int| 0 <= i < out.len() && (#[trigger] out[i]).0 == v[j].0 by {
                if j < n - 1 {
                    let i = choose|i: int| 0 <= i < was.len() && (#[trigger] was[i]).0 == v[j].0;
                    assert(out[i] == was[i]);
                } else {
                    assert(out[was.len() as int].0 == v[j].0);
                }
            }
        }
    }
}

/// The rows at those of the given places where there are rows of the table.
pub open spec fn fetched(
    recs: Map<Rid, Seq<u8>>,
    tid: u16,
    es: Seq<Entry>,
) -> Seq<(Rid, Seq<u8>)>
    decreases es.len(),
{
    if es.len() == 0 {
        Seq::empty()
    } else {
        let r = es.last().1;
        let before = fetched(recs, tid, es.drop_last());
        if recs.dom().contains(r) && table_of(recs[r]) == Some(tid) {
            before.push((r, recs[r].skip(2)))
        } else {
            before
        }
    }
}

/// A table has the name.
pub open spec fn named(ts: Seq<TableDef>, name: Seq<char>, i: int) -> bool {
    0 <= i < ts.len() && ts[i].name@ == name
}

impl<P: Pager> Database<P> {
    /// Every record of the heap.
    pub fn scan_records(&mut self) -> (r: Result<(HeapFile, Vec<(Rid, Vec<u8>)>), DbError>)
        requires
            old(self).ok(),
        ensures
            final(self).counts == old(self).counts,
            final(self).ok(),
            final(self).unmoved(old(self)),
            match r {
                Ok((heap, v)) => {
                    &&& heap.ready(&final(self).bp)
                    &&& lists(old(self).stored(), rec_views(v@))
                },
                Err(e) => device(e) && !holds_out(&old(self).bp, 0),
            },
    {
        let ghost a = self.bp.pages();
        let mut heap: HeapFile = match HeapFile::open(&mut self.bp) {
            Ok(h) => h,
            Err(e) => {
                return Err(DbError::Heap(e));
            },
        };
        match heap.scan(&mut self.bp) {
            Ok(v) => {
                proof {
                    reveal(Database::stored);
                    lemma_scan_lists(a, v@);
                }
                Ok((heap, v))
            },
            Err(e) => {
                proof {
                    if !(e is Buffer) {
                        let x = choose|x: Rid| #[trigger] first_fault(a, x, e);
                        law_get_returns_the_record(a, x);
                    }
                }
                Err(DbError::Heap(e))
            },
        }
    }

    /// The rows of table `tid`, by address.
    pub fn scan_table(&mut self, tid: u16) -> (r: Result<Vec<(Rid, Vec<u8>)>, DbError>)
        requires
            old(self).ok(),
        ensures
            final(self).counts == old(self).counts,
            final(self).ok(),
            final(self).unmoved(old(self)),
            match r {
                Ok(v) => lists(table_data(old(self).stored(), tid), rec_views(v@)),
                Err(e) => device(e) && !holds_out(&old(self).bp, 0),
            },
    {
        let ghost recs = self.stored();
        match self.scan_records() {
            Ok((_, all)) => {
                let out: Vec<(Rid, Vec<u8>)> = table_rows(&all, tid);
                proof {
                    let v = rec_views(all@);
                    let o = rec_views(out@);
                    let data = table_data(recs, tid);
                    lemma_payloads(recs, v, tid, v.len() as int);
                    assert(v.take(v.len() as int) =~= v);
                    assert forall|r: Rid| #[trigger] data.dom().contains(r) implies exists|i: int|
                        0 <= i < o.len() && (#[trigger] o[i]).0 == r by {
                        assert(recs.dom().contains(r));
                        let j = choose|j: int| 0 <= j < v.len() && (#[trigger] v[j]).0 == r;
                        assert(table_of(v[j].1) == Some(tid));
                    }
                }
                Ok(out)
            },
            Err(e) => Err(e),
        }
    }

    /// The table of the name.
    pub fn find_table(&self, name: &String) -> (r: Result<usize, DbError>)
        ensures
            match r {
                Ok(i) => {
                    &&& named(self.tables@, name@, i as int)
                    &&& forall|j: int| j < i ==> !named(self.tables@, name@, j)
                },
                Err(e) => {
                    &&& forall|i: int| !named(self.tables@, name@, i)
                    &&& says(e, quoted("no such table '"@, name@))
                },
            },
    {
        let mut i: usize = 0;
        while i < self.tables.len()
            invariant
                i <= self.tables@.len(),
                forall|j: int| 0 <= j < i ==> !named(self.tables@, name@, j),
            decreases self.tables@.len() - i,
        {
            if self.tables[i].name == *name {
                return Ok(i);
            }
            i = i + 1;
        }
        quoted_err("no such table '", name)
    }

    /// What defining a table came to.
    pub open spec fn created(
        &self,
        before: &Self,
        name: Seq<char>,
        schema: Schema,
        r: Result<u16, DbError>,
    ) -> bool {
        &&& self.counts == before.counts
        &&& self.bp.pager_ok()
        &&& self.bp.reach() == before.bp.reach()
        &&& self.indexes == before.indexes
        &&& self.trees == before.trees
        &&& ({
            let taken = exists|i: int| named(before.tables@, name, i);
            let rec = table_record(
                CATALOG_TID,
                stored_table(
                    before.next_tid,
                    encode_utf8(name),
                    columns(schema.columns@),
                ),
            );
            &&& self.next_tid == before.next_tid + if taken {
                0int
            } else {
                1
            }
            &&& match r {
                Ok(tid) => {
                    &&& !taken
                    &&& tid == before.next_tid
                    &&& self.ok()
                    &&& self.tables@.len() == before.tables@.len() + 1
                    &&& self.tables@.drop_last() == before.tables@
                    &&& self.tables@.last().name@ == name
                    &&& self.tables@.last().tid == tid
                    &&& self.tables@.last().schema == schema
                    &&& exists|rid: Rid|
                        !before.stored().dom().contains(rid) && #[trigger] before.stored().insert(rid, rec) == self.stored()
                    &&& self.all_entries() == before.all_entries()
                },
                Err(DbError::Exec(t)) => {
                    &&& taken
                    &&& t@ == quoted("table '"@, name) + " already exists"@
                    &&& *self == *before
                },
                Err(DbError::Heap(HeapError::RecordTooLarge)) => {
                    &&& !taken
                    &&& rec.len() > MAX_RECORD
                    &&& self.ok()
                    &&& self.tables == before.tables
                    &&& self.bp.pages() == before.bp.pages()
                },
                Err(e) => !taken && device(e) && !holds_out(&before.bp, 1),
            }
        })
    }

    /// Define a table: its number.
    pub fn create_table(&mut self, name: &String, schema: Schema) -> (r: Result<u16, DbError>)
        requires
            old(self).ok(),
            old(self).next_tid < u16::MAX,
            old(self).bp.count() < u32::MAX,
        ensures
            final(self).created(old(self), name@, schema, r),
    {
        match self.find_table(name) {
            Ok(_) => {
                let text: String = "table '".to_owned().concat(name.as_str()).concat(
                    "'",
                ).concat(" already exists");
                proof {
                    assert(text@ =~= quoted("table '"@, name@) + " already exists"@);
                }
                return Err(DbError::Exec(text));
            },
            Err(_) => {},
        }
        let ghost was = *self;
        let ghost a = self.bp.pages();
        let ghost idxs = self.indexes@;
        let tid: u16 = self.next_tid;
        self.next_tid = tid + 1;
        let mut heap: HeapFile = match HeapFile::open(&mut self.bp) {
            Ok(h) => h,
            Err(e) => {
                return Err(DbError::Heap(e));
            },
        };
        let def: Vec<u8> = serialize_catalog(tid, name.as_str(), &schema);
        let rec: Vec<u8> = row_record(CATALOG_TID, def.as_slice());
        let rid: Rid = match heap.insert(&mut self.bp, rec.as_slice()) {
            Ok(rid) => rid,
            Err(e) => {
                return Err(DbError::Heap(e));
            },
        };
        let ghost mid = *self;
        self.tables.push(TableDef { name: name.clone(), tid, schema });
        proof {
            let recs = was.stored().insert(rid, rec@);
            assert(!was.stored().dom().contains(rid) && records(self.bp.pages()) == recs) by {
                reveal(Database::stored);
                assert(record(a, rid) is None);
            }
            assert(self.stored() == recs) by {
                reveal(Database::stored);
            }
            self.lemma_heap_only(&was, recs);
            assert(self.tables@.drop_last() =~= was.tables@);
            assert(own_names(self.tables@)) by {
                assert forall|x: int, y: int| 0 <= x < y < self.tables@.len() implies (
                #[trigger] self.tables@[x]).name@ != (#[trigger] self.tables@[y]).name@ by {
                    assert(self.tables@[x] == was.tables@[x]);
                    assert(!named(was.tables@, name@, x));
                }
            }
        }
        Ok(tid)
    }

    /// The heap came to hold other records than the definitions of indexes.
    pub proof fn lemma_heap_only(&self, was: &Self, recs: Map<Rid, Seq<u8>>)
        requires
            was.ok(),
            self.indexes == was.indexes,
            self.trees == was.trees,
            frame(was.bp.pages(), self.bp.pages()),
            records(self.bp.pages()) == recs,
            forall|r: Rid| #[trigger]
                was.stored().dom().contains(r) ==> recs.dom().contains(r) && recs[r]
                    == was.stored()[r],
        ensures
            wired(self.bp.pages(), self.indexes@, self.trees@),
            self.all_entries() == was.all_entries(),
    {
        let idxs = was.indexes@;
        assert forall|i: int| 0 <= i < idxs.len() implies records(
            self.bp.pages(),
        ).dom().contains((#[trigger] idxs[i]).catalog_rid) && records(
            self.bp.pages(),
        )[idxs[i].catalog_rid] == records(was.bp.pages())[idxs[i].catalog_rid] by {
            was.lemma_defined(i);
            reveal(Database::stored);
        }
        crate::db::store::lemma_still_wired(was.bp.pages(), self.bp.pages(), idxs, was.trees@);
        reveal(Database::entries);
        assert(self.all_entries() =~= was.all_entries());
    }

    /// The rows at those of the given places where there are rows of table `tid`.
    fn fetch_rows(&mut self, tid: u16, es: &Vec<(Vec<u8>, Rid)>) -> (r: Result<
        Vec<(Rid, Vec<u8>)>,
        DbError,
    >)
        requires
            old(self).ok(),
            forall|k: int|
                0 <= k < plain(es@).len() ==> addressable(
                    old(self).bp.pages(),
                    (#[trigger] plain(es@)[k]).1,
                ),
        ensures
            final(self).counts == old(self).counts,
            final(self).ok(),
            final(self).unmoved(old(self)),
            match r {
                Ok(v) => rec_views(v@) == fetched(old(self).stored(), tid, plain(es@)),
                Err(e) => device(e) && !holds_out(&old(self).bp, 0),
            },
    {
        let ghost a = self.bp.pages();
        let ghost recs = self.stored();
        let mut heap: HeapFile = match HeapFile::open(&mut self.bp) {
            Ok(h) => h,
            Err(e) => {
                return Err(DbError::Heap(e));
            },
        };
        let ghost found = plain(es@);
        let mut out: Vec<(Rid, Vec<u8>)> = Vec::new();
        let mut j: usize = 0;
        proof {
            assert(found.take(0) =~= Seq::<Entry>::empty());
            assert(rec_views(out@) =~= Seq::<(Rid, Seq<u8>)>::empty());
            assert(recs == records(a)) by {
                reveal(Database::stored);
            }
        }
        while j < es.len()
            invariant
                self.counts == old(self).counts,
                j <= es@.len(),
                found == plain(es@),
                a == old(self).bp.pages(),
                recs == old(self).stored(),
                recs == records(a),
                self.ok(),
                self.unmoved(old(self)),
                heap.ready(&self.bp),
                forall|k: int| 0 <= k < found.len() ==> addressable(
                    a,
                    (#[trigger] found[k]).1,
                ),
                rec_views(out@) == fetched(recs, tid, found.take(j as int)),
            decreases es@.len() - j,
        {
            let rid: Rid = es[j].1;
            proof {
                assert(found[j as int].1 == rid);
                assert(found.take(j + 1).drop_last() =~= found.take(j as int));
                assert(found.take(j + 1).last() == found[j as int]);
                law_get_returns_the_record(a, rid);
            }
            match heap.get(&mut self.bp, rid) {
                Ok(Some(rec)) => {
                    let mut one: Vec<(Rid, Vec<u8>)> = Vec::new();
                    one.push((rid, rec));
                    let mut mine: Vec<(Rid, Vec<u8>)> = table_rows(&one, tid);
                    proof {
                        let ov = rec_views(one@);
                        assert(ov =~= seq![(rid, recs[rid])]);
                        assert(ov.drop_last() =~= Seq::<(Rid, Seq<u8>)>::empty());
                        assert(payloads(ov.drop_last(), tid) =~= Seq::<(Rid, Seq<u8>)>::empty());
                    }
                    let ghost was = out@;
                    let ghost more = mine@;
                    out.append(&mut mine);
                    proof {
                        assert(rec_views(out@) =~= rec_views(was) + rec_views(more));
                        if table_of(recs[rid]) == Some(tid) {
                            assert(rec_views(more) =~= seq![(rid, recs[rid].skip(2))]);
                            assert(rec_views(was) + rec_views(more) =~= rec_views(was).push(
                                (rid, recs[rid].skip(2)),
                            ));
                        } else {
                            assert(rec_views(was) + rec_views(more) =~= rec_views(was));
                        }
                    }
                },
                Ok(None) => {},
                Err(e) => {
                    return Err(DbError::Heap(e));
                },
            }
            j = j + 1;
        }
        assert(found.take(j as int) =~= found);
        Ok(out)
    }

    /// The rows that index `i` of table `tid` finds for a comparison with `value`.
    pub fn index_rows(&mut self, i: usize, tid: u16, op: BinOp, value: &Value) -> (r: Result<
        Vec<(Rid, Vec<u8>)>,
        DbError,
    >)
        requires
            old(self).ok(),
            i < old(self).indexes@.len(),
            fits_type(old(self).indexes@[i as int].col_type, value@),
            forall|k: Seq<u8>| #[trigger]
                old(self).entries(i as int).dom().contains(k) ==> addressable(
                    old(self).bp.pages(),
                    old(self).entries(i as int)[k],
                ),
        ensures
            final(self).counts == (Counts {
                index_lookups: old(self).counts.index_lookups.wrapping_add(1),
                ..old(self).counts
            }),
            final(self).ok(),
            final(self).unmoved(old(self)),
            match r {
                Ok(v) => {
                    let (lo, hi) = bounds_of(op, encoded(value@));
                    rec_views(v@) == fetched(
                        old(self).stored(),
                        tid,
                        between(flat(old(self).trees@[i as int]), lo, hi),
                    )
                },
                Err(e) => device(e) && !holds_out(&old(self).bp, 0),
            },
    {
        let ghost a = self.bp.pages();
        let ghost n = self.bp.count();
        let ghost t = self.trees@[i as int];
        let ghost recs = self.stored();
        self.counts.index_lookups = self.counts.index_lookups.wrapping_add(1);
        proof {
            lemma_index(a, self.indexes@, self.trees@, i as int);
        }
        let enc: Vec<u8> = encode_value(self.indexes[i].col_type, value);
        let (lo, hi): (Vec<u8>, Option<Vec<u8>>) = index_bounds(op, enc.as_slice());
        let bt: BTree = BTree::open_rooted(&self.bp, self.indexes[i].root);
        assert(bt.tree@ == t && bt.ok(&self.bp));
        let high: Option<&[u8]> = match &hi {
            Some(h) => Some(h.as_slice()),
            None => None,
        };
        let got: Result<Vec<(Vec<u8>, Rid)>, BtreeError> = bt.range(
            &mut self.bp,
            lo.as_slice(),
            high,
        );
        proof {
            self.bp.lemma_pages();
            lemma_all_kept(a, self.bp.pages(), n);
        }
        let es: Vec<(Vec<u8>, Rid)> = match got {
            Ok(v) => v,
            Err(BtreeError::Buffer(e)) => {
                return Err(DbError::Buffer(e));
            },
            Err(_) => {
                return exec_err("page is not a B-tree node");
            },
        };
        proof {
            assert(self.entries(i as int) == old(self).entries(i as int)) by {
                reveal(Database::entries);
            }
            assert(self.stored() == recs) by {
                reveal(Database::stored);
            }
            let b = bounds_of(op, encoded(value@));
            assert(enc@ == encoded(value@));
            assert(b.0 == lo@ && b.1 == bound_view(hi));
            assert(plain(es@) == between(flat(t), b.0, b.1));
            assert(self.trees@[i as int] == t);
            lemma_range_addresses(self, i as int, b);
            assert forall|k: int| 0 <= k < plain(es@).len() implies addressable(
                self.bp.pages(),
                (#[trigger] plain(es@)[k]).1,
            ) by {
                assert(plain(es@)[k] == between(flat(self.trees@[i as int]), b.0, b.1)[k]);
            }
        }
        self.fetch_rows(tid, &es)
    }
}

/// What entries of a new index: the key of each row, and where it is.
pub open spec fn keys_for(rows: Seq<(Rid, ValueView)>) -> Seq<Entry> {
    Seq::new(rows.len(), |i: int| (entry_key(rows[i].1, rows[i].0), rows[i].0))
}

/// The tree and the next page number after the first `n` entries were set.
pub open spec fn built(t: Tree, es: Seq<Entry>, fresh: int, n: int) -> (Tree, int)
    decreases n,
{
    if n <= 0 {
        (t, fresh)
    } else {
        let (u, f) = built(t, es, fresh, n - 1);
        let e = es[n - 1];
        (grown_tree(u, e.0, e.1, f), grown_count(u, e.0, e.1, f))
    }
}

/// Each entry finds room in the tree when its turn comes, or its key is too long.
pub open spec fn buildable(t: Tree, es: Seq<Entry>, fresh: int, limit: int) -> bool {
    forall|n: int|
        #![trigger built(t, es, fresh, n)]
        0 <= n < es.len() ==> {
            let (u, f) = built(t, es, fresh, n);
            &&& f + height(u) + 2 <= limit
            &&& es[n].0.len() <= MAX_KEY ==> insertable(u, es[n].0, es[n].1, f)
        }
}

/// What the first `n` entries come to.
pub open spec fn gathered(es: Seq<Entry>, n: int) -> Map<Seq<u8>, Rid>
    decreases n,
{
    if n <= 0 {
        Map::empty()
    } else {
        gathered(es, n - 1).insert(es[n - 1].0, es[n - 1].1)
    }
}

pub open spec fn pair_views(rows: Seq<(Rid, Value)>) -> Seq<(Rid, ValueView)> {
    rows.map_values(|r: (Rid, Value)| (r.0, r.1@))
}

/// An empty tree on page `p`.
pub open spec fn sapling(p: PageId) -> Tree {
    Tree::Leaf { pid: p, es: Seq::empty() }
}

impl<P: Pager> Database<P> {
    /// An index with these entries can be built and defined within `limit` pages.
    pub open spec fn indexable(&self, es: Seq<Entry>, limit: int) -> bool {
        let seed = sapling(self.bp.count());
        let fresh = self.bp.count() + 1;
        &&& fresh <= limit
        &&& buildable(seed, es, fresh, limit)
        &&& built(seed, es, fresh, es.len() as int).1 + 1 <= limit
    }

    /// Build a tree that holds the keys of the given rows.
    #[verifier::rlimit(60)]
    #[verifier::spinoff_prover]
    pub fn build_tree(&mut self, col_type: ColumnType, rows: &Vec<(Rid, Value)>) -> (r: Result<
        BTree,
        DbError,
    >)
        requires
            old(self).ok(),
            old(self).bp.count() < u32::MAX,
            forall|i: int| 0 <= i < rows@.len() ==> fits_type(col_type, (#[trigger] rows@[i]).1@),
            buildable(
                sapling(old(self).bp.count()),
                keys_for(pair_views(rows@)),
                old(self).bp.count() + 1,
                u32::MAX as int,
            ),
        ensures
            final(self).counts == old(self).counts,
            final(self).bp.pager_ok(),
            final(self).bp.reach() == old(self).bp.reach(),
            final(self).tables == old(self).tables,
            final(self).indexes == old(self).indexes,
            final(self).trees == old(self).trees,
            final(self).next_tid == old(self).next_tid,
            ({
                let es = keys_for(pair_views(rows@));
                let (u, f) = built(
                    sapling(old(self).bp.count()),
                    es,
                    old(self).bp.count() + 1,
                    es.len() as int,
                );
                match r {
                    Ok(bt) => {
                        &&& bt.tree@ == u
                        &&& bt.root == u.pid()
                        &&& bt@.entries == gathered(es, es.len() as int)
                        &&& final(self).bp.count() == f
                        &&& final(self).ok()
                        &&& final(self).stored() == old(self).stored()
                        &&& planted(final(self).bp.pages(), old(self).trees@.push(u))
                        &&& forall|i: int| 0 <= i < es.len() ==> (#[trigger] es[i]).0.len() <= MAX_KEY
                    },
                    Err(DbError::Exec(t)) => {
                        &&& t@ == "entry too large for a node"@
                        &&& exists|i: int| 0 <= i < es.len() && (#[trigger] es[i]).0.len() > MAX_KEY
                        &&& final(self).ok()
                        &&& final(self).stored() == old(self).stored()
                    },
                    Err(e) => device(e) && !(holds_out(&old(self).bp, 1) && buildable(
                        sapling(old(self).bp.count()),
                        es,
                        old(self).bp.count() + 1,
                        old(self).bp.reach(),
                    )),
                }
            }),
    {
        let ghost a = self.bp.pages();
        let ghost na = self.bp.count();
        let ghost ts = self.trees@;
        let ghost idxs = self.indexes@;
        let ghost rv = pair_views(rows@);
        let ghost es = keys_for(rv);
        let ghost seed = sapling(na);
        let ghost fresh = na + 1;
        proof {
            lemma_all_wired(a, idxs, ts);
        }
        let mut bt: BTree = match BTree::create_rooted(&mut self.bp) {
            Ok(b) => b,
            Err(BtreeError::Buffer(e)) => {
                return Err(DbError::Buffer(e));
            },
            Err(_) => {
                return exec_err("page is not a B-tree node");
            },
        };
        proof {
            self.bp.lemma_pages();
            assert(bt.tree@ == seed);
            lemma_new_tree(a, na, self.bp.pages(), self.bp.count(), ts, seed);
        }
        let mut j: usize = 0;
        while j < rows.len()
            invariant
                self.counts == old(self).counts,
                j <= rows@.len(),
                rv == pair_views(rows@),
                es == keys_for(rv),
                ts == old(self).trees@,
                idxs == old(self).indexes@,
                ts.len() == idxs.len(),
                a == old(self).bp.pages(),
                na == old(self).bp.count(),
                old(self).ok(),
                wired(a, idxs, ts),
                seed == sapling(na),
                fresh == na + 1,
                buildable(seed, es, fresh, u32::MAX as int),
                forall|i: int|
                    0 <= i < rows@.len() ==> fits_type(col_type, (#[trigger] rows@[i]).1@),
                self.bp.reach() == old(self).bp.reach(),
                self.tables == old(self).tables,
                self.indexes == old(self).indexes,
                self.trees == old(self).trees,
                self.next_tid == old(self).next_tid,
                bt.meta is None,
                bt.ok(&self.bp),
                bt.tree@ == built(seed, es, fresh, j as int).0,
                self.bp.count() == built(seed, es, fresh, j as int).1,
                bt@.entries == gathered(es, j as int),
                tidy(self.bp.pages(), self.bp.count()),
                sound(self.bp.pages()),
                records(self.bp.pages()) == records(a),
                planted(self.bp.pages(), ts.push(bt.tree@)),
                forall|i: int| 0 <= i < j ==> (#[trigger] es[i]).0.len() <= MAX_KEY,
            decreases rows@.len() - j,
        {
            let ghost b = self.bp.pages();
            let ghost nb = self.bp.count();
            let ghost t = bt.tree@;
            let rid: Rid = rows[j].0;
            let key: Vec<u8> = index_key(col_type, &rows[j].1, rid);
            proof {
                assert(rv[j as int] == (rid, rows@[j as int].1@));
                assert(es[j as int] == (key@, rid));
                let x = built(seed, es, fresh, j as int);
                assert(x.1 + height(x.0) + 2 <= u32::MAX);
            }
            match bt.insert(&mut self.bp, key.as_slice(), rid) {
                Ok(()) => {},
                Err(BtreeError::Buffer(e)) => {
                    return Err(DbError::Buffer(e));
                },
                Err(_) => {
                    proof {
                        self.bp.lemma_pages();
                        lemma_all_kept(b, self.bp.pages(), nb);
                        lemma_without_last(self.bp.pages(), ts, t);
                        lemma_same_wiring(a, self.bp.pages(), idxs, ts);
                        reveal(Database::stored);
                        assert(es[j as int].0.len() > MAX_KEY);
                    }
                    return exec_err("entry too large for a node");
                },
            }
            proof {
                let c = self.bp.pages();
                let nc = self.bp.count();
                let u = bt.tree@;
                let us = ts.push(t);
                self.bp.lemma_pages();
                assert(regrown(b, nb as int, c, nc as int, t, u));
                lemma_tree_step(b, nb, c, nc, t, u);
                assert(us[ts.len() as int] == t);
                lemma_tree_steps(b, nb, c, nc, us, ts.len() as int, u);
                assert(us.update(ts.len() as int, u) =~= ts.push(u));
            }
            j = j + 1;
        }
        proof {
            lemma_without_last(self.bp.pages(), ts, bt.tree@);
            lemma_same_wiring(a, self.bp.pages(), idxs, ts);
            reveal(Database::stored);
        }
        Ok(bt)
    }

    /// What defining an index with the entries of these rows came to.
    pub open spec fn indexed(
        &self,
        before: &Self,
        name: Seq<char>,
        tid: u16,
        col_index: usize,
        col_type: ColumnType,
        rows: Seq<(Rid, ValueView)>,
        r: Result<(), DbError>,
    ) -> bool {
        &&& self.counts == before.counts
        &&& self.bp.pager_ok()
        &&& self.bp.reach() == before.bp.reach()
        &&& self.tables == before.tables
        &&& self.next_tid == before.next_tid
        &&& ({
            let es = keys_for(rows);
            match r {
                Ok(()) => {
                    let m = self.indexes@.last();
                    &&& self.ok()
                    &&& self.indexes@.len() == before.indexes@.len() + 1
                    &&& self.indexes@.drop_last() == before.indexes@
                    &&& self.trees@.drop_last() == before.trees@
                    &&& m.name@ == name
                    &&& m.table_id == tid
                    &&& m.col_index == col_index
                    &&& m.col_type == col_type
                    &&& !before.stored().dom().contains(m.catalog_rid)
                    &&& self.stored() == before.stored().insert(
                        m.catalog_rid,
                        index_record(m),
                    )
                    &&& self.all_entries() == before.all_entries().push(
                        gathered(es, es.len() as int),
                    )
                },
                Err(DbError::Exec(t)) => {
                    &&& t@ == "entry too large for a node"@
                    &&& exists|i: int| 0 <= i < es.len() && (#[trigger] es[i]).0.len() > MAX_KEY
                    &&& self.ok()
                    &&& self.indexes == before.indexes
                    &&& self.trees == before.trees
                    &&& self.stored() == before.stored()
                },
                Err(DbError::Heap(HeapError::RecordTooLarge)) => {
                    &&& encode_utf8(name).len() + 17 > MAX_RECORD
                    &&& self.ok()
                    &&& self.indexes == before.indexes
                    &&& self.trees == before.trees
                    &&& self.stored() == before.stored()
                },
                Err(e) => device(e) && !before.indexable(es, before.bp.reach()),
            }
        })
    }

    /// Define an index on a column of table `tid` and enter the given rows: those of the
    /// table, with what the column holds.
    #[verifier::rlimit(60)]
    #[verifier::spinoff_prover]
    pub fn create_index(
        &mut self,
        name: &String,
        tid: u16,
        col_index: usize,
        col_type: ColumnType,
        rows: &Vec<(Rid, Value)>,
    ) -> (r: Result<(), DbError>)
        requires
            old(self).ok(),
            col_index <= u32::MAX,
            forall|i: int| 0 <= i < rows@.len() ==> fits_type(col_type, (#[trigger] rows@[i]).1@),
            old(self).indexable(keys_for(pair_views(rows@)), u32::MAX as int),
        ensures
            final(self).indexed(
                old(self),
                name@,
                tid,
                col_index,
                col_type,
                pair_views(rows@),
                r,
            ),
    {
        let ghost was = *self;
        let ghost ts = self.trees@;
        let ghost idxs = self.indexes@;
        let bt: BTree = match self.build_tree(col_type, rows) {
            Ok(b) => b,
            Err(e) => {
                return Err(e);
            },
        };
        let ghost mid = *self;
        let ghost b = self.bp.pages();
        let ghost u = bt.tree@;
        let root: PageId = bt.root();
        let mut heap: HeapFile = match HeapFile::open(&mut self.bp) {
            Ok(h) => h,
            Err(e) => {
                return Err(DbError::Heap(e));
            },
        };
        let def: Vec<u8> = serialize_index(name.as_str(), tid, col_index, col_type, root);
        let rec: Vec<u8> = row_record(INDEX_TID, def.as_slice());
        let rid: Rid = match heap.insert(&mut self.bp, rec.as_slice()) {
            Ok(rid) => rid,
            Err(e) => {
                proof {
                    reveal(Database::stored);
                }
                return Err(DbError::Heap(e));
            },
        };
        let ghost c = self.bp.pages();
        let m: IndexMeta = IndexMeta {
            name: name.clone(),
            table_id: tid,
            col_index,
            col_type,
            root,
            catalog_rid: rid,
        };
        let ghost mv = m;
        self.indexes.push(m);
        proof {
            self.trees@ = ts.push(u);
            assert(rec@ == index_record(mv));
            assert(record(b, rid) is None);
            lemma_heap_steps(b, c, ts.push(u));
            reveal(Database::stored);
            lemma_wired_push(b, c, idxs, ts, mv, u);
            assert(self.indexes@.drop_last() =~= idxs);
            assert(self.trees@.drop_last() =~= ts);
            assert(self.all_entries() =~= was.all_entries().push(bt@.entries)) by {
                reveal(Database::entries);
            }
        }
        Ok(())
    }
}

/// The indexes are wired to their trees.
proof fn lemma_all_wired(pages: Pages, idxs: Seq<IndexMeta>, ts: Seq<Tree>)
    requires
        wired(pages, idxs, ts),
    ensures
        planted(pages, ts),
{
    reveal(wired);
}

/// One tree less is still planted.
proof fn lemma_without_last(pages: Pages, ts: Seq<Tree>, t: Tree)
    requires
        planted(pages, ts.push(t)),
    ensures
        planted(pages, ts),
{
    reveal(planted);
    let us = ts.push(t);
    assert forall|i: int| 0 <= i < ts.len() implies tree_ok(pages, #[trigger] ts[i]) by {
        assert(us[i] == ts[i]);
    }
    assert forall|i: int, j: int| 0 <= i < j < ts.len() implies disjoint(
        #[trigger] ts[i],
        #[trigger] ts[j],
    ) by {
        assert(us[i] == ts[i] && us[j] == ts[j]);
    }
}

/// The same trees and the same records are wired as before.
proof fn lemma_same_wiring(a: Pages, b: Pages, idxs: Seq<IndexMeta>, ts: Seq<Tree>)
    requires
        wired(a, idxs, ts),
        planted(b, ts),
        records(b) == records(a),
    ensures
        wired(b, idxs, ts),
{
    reveal(wired);
}

/// One more index is wired.
proof fn lemma_wired_push(
    b: Pages,
    c: Pages,
    idxs: Seq<IndexMeta>,
    ts: Seq<Tree>,
    m: IndexMeta,
    u: Tree,
)
    requires
        wired(b, idxs, ts),
        planted(c, ts.push(u)),
        m.root == u.pid(),
        record(b, m.catalog_rid) is None,
        records(c) == records(b).insert(m.catalog_rid, index_record(m)),
    ensures
        wired(c, idxs.push(m), ts.push(u)),
{
    reveal(wired);
    let now = idxs.push(m);
    assert forall|i: int| 0 <= i < now.len() implies defined(records(c), #[trigger] now[i])
        && now[i].root == ts.push(u)[i].pid() by {
        if i < idxs.len() {
            assert(defined(records(b), idxs[i]));
        }
    }
    assert forall|i: int, j: int| 0 <= i < j < now.len() implies (#[trigger] now[i]).catalog_rid
        != (#[trigger] now[j]).catalog_rid by {
        assert(defined(records(b), idxs[i]));
        if j < idxs.len() {
            assert(idxs[i].catalog_rid != idxs[j].catalog_rid);
        }
    }
}

/// The tables and indexes are those that the records define.
pub open spec fn loaded(
    tables: Seq<TableDef>,
    idxs: Seq<IndexMeta>,
    next_tid: u16,
    v: Seq<(Rid, Seq<u8>)>,
) -> bool {
    let ts = of_kind(v, CATALOG_TID);
    let xs = of_kind(v, INDEX_TID);
    &&& tables_read(tables, ts)
    &&& idxs.len() == xs.len()
    &&& forall|i: int| 0 <= i < xs.len() ==> index_read(#[trigger] idxs[i], xs[i].0, xs[i].1)
    &&& next_tid == if greatest_tid(ts) + 1 > FIRST_USER_TID {
        greatest_tid(ts) + 1
    } else {
        FIRST_USER_TID as int
    }
}

/// The definition at `x` is the first, by address, that cannot be read.
pub open spec fn first_flaw(recs: Map<Rid, Seq<u8>>, x: Rid) -> bool {
    &&& recs.dom().contains(x)
    &&& !sound_record(recs[x])
    &&& forall|y: Rid| recs.dom().contains(y) && #[trigger] rid_lt(y, x) ==> sound_record(recs[y])
}

/// The error of a page that does not verify.
pub open spec fn damage_at(e: DbError, p: PageId) -> bool {
    e == DbError::Heap(HeapError::Buffer(BufferError::Corrupt(p)))
}

/// What streaming a query came to: a result is counted, an error is the statement's, and a
/// query that could not be streamed is left to be answered otherwise.
pub open spec fn tallied<T>(
    before: Counts,
    after: Counts,
    res: Option<Result<T, ExecError>>,
    joined: bool,
    aggregate: bool,
    r: Result<Option<T>, DbError>,
) -> bool {
    match res {
        Some(Ok(rs)) => {
            &&& r == Ok::<Option<T>, DbError>(Some(rs))
            &&& after == (Counts {
                join_streams: if joined {
                    before.join_streams.wrapping_add(1)
                } else {
                    before.join_streams
                },
                agg_streams: if aggregate {
                    before.agg_streams.wrapping_add(1)
                } else {
                    before.agg_streams
                },
                ..before
            })
        },
        Some(Err(e)) => r is Err && says(r->Err_0, e.text@) && after == before,
        None => r == Ok::<Option<T>, DbError>(None) && after == before,
    }
}

impl<P: Pager> Database<P> {
    /// The database on the given pages, of which `all` are the records.
    fn with_records(bp: P, all: &Vec<(Rid, Vec<u8>)>) -> (r: Result<Database<P>, DbError>)
        requires
            bp.pager_ok(),
            tidy(bp.pages(), bp.count()),
            lists(readings(bp.pages()), rec_views(all@)),
            forall|x: Rid| #[trigger]
                readings(bp.pages()).dom().contains(x) ==> record_fits(readings(bp.pages())[x]),
            greatest_tid(of_kind(rec_views(all@), CATALOG_TID)) < 0xFFFF,
        ensures
            match r {
                Ok(db) => {
                    &&& db.bp == bp
                    &&& db.counts == no_counts()
                    &&& loaded(db.tables@, db.indexes@, db.next_tid, rec_views(all@))
                    &&& forall|x: Rid| #[trigger]
                        readings(bp.pages()).dom().contains(x) ==> sound_record(
                            readings(bp.pages())[x],
                        )
                    &&& sound(bp.pages()) ==> forall|ts: Seq<Tree>| #[trigger]
                        wired(bp.pages(), db.indexes@, ts) ==> db.ok()
                },
                Err(e) => exists|x: Rid| #[trigger]
                    first_flaw(readings(bp.pages()), x) && says(e, flaw(readings(bp.pages())[x])),
            },
    {
        let ghost a = bp.pages();
        let ghost v = rec_views(all@);
        proof {
            assert forall|i: int| 0 <= i < v.len() implies record_fits((#[trigger] v[i]).1) by {
                assert(readings(a).dom().contains(v[i].0));
            }
        }
        match load_catalog(all) {
            Ok(c) => {
                let ghost ts = choose|ts: Seq<Tree>| wired(a, c.indexes@, ts);
                let db: Database<P> = Database {
                    bp,
                    tables: c.tables,
                    indexes: c.indexes,
                    next_tid: c.next_tid,
                    trees: Ghost(ts),
                    counts: Counts {
                        index_lookups: 0,
                        join_streams: 0,
                        agg_streams: 0,
                        replayed: 0,
                    },
                };
                proof {
                    assert(loaded(db.tables@, db.indexes@, db.next_tid, v));
                    lemma_own_names(db.tables@, of_kind(v, CATALOG_TID));
                    assert forall|x: Rid| #[trigger]
                        readings(a).dom().contains(x) implies sound_record(readings(a)[x]) by {
                        let j = choose|j: int| 0 <= j < v.len() && (#[trigger] v[j]).0 == x;
                        assert(sound_record(v[j].1));
                    }
                    assert forall|us: Seq<Tree>|
                        sound(a) && #[trigger] wired(a, db.indexes@, us) implies db.ok() by {
                        assert(wired(a, db.indexes@, ts));
                        reveal(wired);
                    }
                }
                Ok(db)
            },
            Err(e) => {
                proof {
                    let i = choose|i: int|
                        0 <= i < all@.len() && !sound_record((#[trigger] rec_views(all@)[i]).1)
                            && says(e, flaw(rec_views(all@)[i].1)) && forall|j: int|
                            0 <= j < i ==> sound_record((#[trigger] rec_views(all@)[j]).1);
                    let x = v[i].0;
                    assert(readings(a).dom().contains(x));
                    assert forall|y: Rid|
                        readings(a).dom().contains(y) && #[trigger] rid_lt(y, x) implies sound_record(
                        readings(a)[y],
                    ) by {
                        let j = choose|j: int| 0 <= j < v.len() && (#[trigger] v[j]).0 == y;
                        if j > i {
                            assert(rid_lt(v[i].0, v[j].0));
                        }
                    }
                    assert(first_flaw(readings(a), x));
                }
                Err(e)
            },
        }
    }

    /// The database on the given pages.
    pub fn with_pager(bp: P) -> (r: Result<Database<P>, DbError>)
        requires
            bp.pager_ok(),
            told(&bp),
            heap_wf(bp.pages()),
            whole_stubs(bp.pages()),
            faultless(bp.pages()) ==> forall|x: Rid| #[trigger]
                readings(bp.pages()).dom().contains(x) ==> record_fits(readings(bp.pages())[x]),
            faultless(bp.pages()) ==> forall|v: Seq<(Rid, Seq<u8>)>| #[trigger]
                lists(readings(bp.pages()), v) ==> greatest_tid(of_kind(v, CATALOG_TID)) < 0xFFFF,
        ensures
            match r {
                Ok(db) => {
                    &&& db.bp.pager_ok()
                    &&& db.bp.pages() == bp.pages()
                    &&& db.bp.count() == bp.count()
                    &&& db.bp.reach() == bp.reach()
                    &&& db.counts == no_counts()
                    &&& solid(bp.pages(), bp.count())
                    &&& faultless(bp.pages())
                    &&& exists|v: Seq<(Rid, Seq<u8>)>| #[trigger]
                        lists(readings(bp.pages()), v) && loaded(
                            db.tables@,
                            db.indexes@,
                            db.next_tid,
                            v,
                        )
                    &&& forall|x: Rid| #[trigger]
                        readings(bp.pages()).dom().contains(x) ==> sound_record(readings(bp.pages())[x])
                    &&& sound(bp.pages()) ==> forall|ts: Seq<Tree>| #[trigger]
                        wired(bp.pages(), db.indexes@, ts) ==> db.ok()
                },
                Err(e) => {
                    ||| device(e) && !holds_out(&bp, 0)
                    ||| exists|p: PageId| #[trigger] first_lost(&bp, p) && damage_at(e, p)
                    ||| solid(bp.pages(), bp.count()) && exists|x: Rid, h: HeapError| #[trigger]
                        first_fault(bp.pages(), x, h) && e == DbError::Heap(h)
                    ||| faultless(bp.pages()) && exists|x: Rid| #[trigger]
                        first_flaw(readings(bp.pages()), x) && says(e, flaw(readings(bp.pages())[x]))
                },
            },
    {
        let ghost a = bp.pages();
        let ghost given = bp;
        let mut pages: P = bp;
        let mut heap: HeapFile = match HeapFile::open(&mut pages) {
            Ok(h) => h,
            Err(e) => {
                proof {
                    if holds_out(&given, 0) {
                        let p = choose|p: PageId|
                            e == HeapError::Buffer(BufferError::Corrupt(p)) && #[trigger] first_lost(
                                &given,
                                p,
                            );
                        assert(first_lost(&given, p) && damage_at(DbError::Heap(e), p));
                    }
                }
                return Err(DbError::Heap(e));
            },
        };
        let all: Vec<(Rid, Vec<u8>)> = match heap.scan(&mut pages) {
            Ok(v) => v,
            Err(e) => {
                proof {
                    if !(e is Buffer) {
                        let x = choose|x: Rid| #[trigger] first_fault(a, x, e);
                        assert(first_fault(a, x, e) && DbError::Heap(e) == DbError::Heap(e));
                    }
                }
                return Err(DbError::Heap(e));
            },
        };
        proof {
            lemma_scan_finds(a, all@);
            assert(tidy(pages.pages(), pages.count()));
        }
        Database::with_records(pages, &all)
    }

    /// How many queries were answered through an index.
    pub fn index_lookups(&self) -> (n: u64)
        ensures
            n == self.counts.index_lookups,
    {
        self.counts.index_lookups
    }

    /// How many joins were streamed.
    pub fn join_streams(&self) -> (n: u64)
        ensures
            n == self.counts.join_streams,
    {
        self.counts.join_streams
    }

    /// How many aggregates were streamed.
    pub fn agg_streams(&self) -> (n: u64)
        ensures
            n == self.counts.agg_streams,
    {
        self.counts.agg_streams
    }

    /// How many statements the last recovery replayed.
    pub fn replay_count(&self) -> (n: u64)
        ensures
            n == self.counts.replayed,
    {
        self.counts.replayed
    }

    /// The outcome of streaming a query, if it could be streamed: a result is counted, and
    /// an error is the statement's.
    pub fn streamed<T>(
        &mut self,
        res: Option<Result<T, ExecError>>,
        joined: bool,
        aggregate: bool,
    ) -> (r: Result<Option<T>, DbError>)
        ensures
            *final(self) == (Database { counts: final(self).counts, ..*old(self) }),
            tallied(old(self).counts, final(self).counts, res, joined, aggregate, r),
    {
        match res {
            Some(Ok(rs)) => {
                if joined {
                    self.counts.join_streams = self.counts.join_streams.wrapping_add(1);
                }
                if aggregate {
                    self.counts.agg_streams = self.counts.agg_streams.wrapping_add(1);
                }
                Ok(Some(rs))
            },
            Some(Err(e)) => Err(DbError::Exec(e.text)),
            None => Ok(None),
        }
    }

    /// The log was replayed: the statements are counted, unless recovery failed.
    pub fn note_replayed(&mut self, replay: &Replay)
        ensures
            *final(self) == (Database { counts: final(self).counts, ..*old(self) }),
            final(self).counts == (Counts {
                replayed: if replay.error is None {
                    replay.stmts@.len() as u64
                } else {
                    old(self).counts.replayed
                },
                ..old(self).counts
            }),
    {
        if replay.error.is_none() {
            self.counts.replayed = replay.stmts.len() as u64;
        }
    }

    /// The names of the tables, by the bytes that spell them.
    pub fn table_names(&self) -> (out: Vec<String>)
        ensures
            exists|order: Seq<usize>| #[trigger]
                by_name(self.tables@, order) && out@.len() == order.len() && forall|i: int|
                    0 <= i < out@.len() ==> (#[trigger] out@[i])@
                        == self.tables@[order[i] as int].name@,
    {
        let n: usize = self.tables.len();
        let mut order: Vec<usize> = Vec::new();
        let mut k: usize = 0;
        while k < n
            invariant
                k <= n == self.tables@.len(),
                order@.len() == k,
                forall|i: int| 0 <= i < k ==> (#[trigger] order@[i]) < k,
                forall|i: int, j: int|
                    0 <= i < j < k ==> name_before(
                        self.tables@,
                        #[trigger] order@[i],
                        #[trigger] order@[j],
                    ),
            decreases n - k,
        {
            place_name(&self.tables, &mut order, k);
            k = k + 1;
        }
        let mut out: Vec<String> = Vec::new();
        let mut i: usize = 0;
        while i < n
            invariant
                i <= n == self.tables@.len(),
                order@.len() == n,
                forall|j: int| 0 <= j < n ==> (#[trigger] order@[j]) < n,
                out@.len() == i,
                forall|j: int|
                    0 <= j < i ==> (#[trigger] out@[j])@ == self.tables@[order@[j] as int].name@,
            decreases n - i,
        {
            out.push(self.tables[order[i]].name.clone());
            i = i + 1;
        }
        assert(by_name(self.tables@, order@));
        out
    }
}

/// The bytes of the name come before the other's; those of one name as they are listed.
pub open spec fn name_before(ts: Seq<TableDef>, a: usize, b: usize) -> bool {
    let x = encode_utf8(ts[a as int].name@);
    let y = encode_utf8(ts[b as int].name@);
    lex_lt(x, y) || x == y && a < b
}

/// The tables by their names, each once.
pub open spec fn by_name(ts: Seq<TableDef>, order: Seq<usize>) -> bool {
    &&& order.len() == ts.len()
    &&& forall|i: int| 0 <= i < order.len() ==> (#[trigger] order[i]) < ts.len()
    &&& forall|i: int, j: int|
        0 <= i < j < order.len() ==> name_before(ts, #[trigger] order[i], #[trigger] order[j])
}

/// Put table `k` in its place among those before it.
fn place_name(ts: &Vec<TableDef>, order: &mut Vec<usize>, k: usize)
    requires
        k < ts@.len(),
        old(order)@.len() == k,
        forall|i: int| 0 <= i < k ==> (#[trigger] old(order)@[i]) < k,
        forall|i: int, j: int|
            0 <= i < j < k ==> name_before(
                ts@,
                #[trigger] old(order)@[i],
                #[trigger] old(order)@[j],
            ),
    ensures
        final(order)@.len() == k + 1,
        forall|i: int| 0 <= i < k + 1 ==> (#[trigger] final(order)@[i]) < k + 1,
        forall|i: int, j: int|
            0 <= i < j < k + 1 ==> name_before(
                ts@,
                #[trigger] final(order)@[i],
                #[trigger] final(order)@[j],
            ),
{
    let ghost was = order@;
    let mut p: usize = k;
    let name: &[u8] = ts[k].name.as_str().as_bytes();
    while p > 0 && bytes_lt(name, ts[order[p - 1]].name.as_str().as_bytes())
        invariant
            p <= k < ts@.len(),
            order@ == was,
            was.len() == k,
            name@ == encode_utf8(ts@[k as int].name@),
            forall|i: int| 0 <= i < k ==> (#[trigger] was[i]) < k,
            forall|i: int|
                p <= i < k ==> lex_lt(
                    name@,
                    encode_utf8(ts@[(#[trigger] was[i]) as int].name@),
                ),
        decreases p,
    {
        p = p - 1;
    }
    order.insert(p, k);
    proof {
        let x = encode_utf8(ts@[k as int].name@);
        assert forall|i: int, j: int| 0 <= i < j < k + 1 implies name_before(
            ts@,
            #[trigger] order@[i],
            #[trigger] order@[j],
        ) by {
            if i != p && j != p {
                let a = if i < p { i } else { i - 1 };
                let b = if j < p { j } else { j - 1 };
                assert(name_before(ts@, was[a], was[b]));
            } else if i == p {
                assert(order@[j] == was[j - 1]);
            } else {
                assert(order@[i] == was[i]);
                let y = encode_utf8(ts@[was[p - 1] as int].name@);
                let z = encode_utf8(ts@[was[i] as int].name@);
                assert(!lex_lt(x, y));
                lemma_lex_total(x, y);
                if i < p - 1 {
                    assert(name_before(ts@, was[i], was[p - 1]));
                    if lex_lt(z, y) && lex_lt(y, x) {
                        lemma_lex_transitive(z, y, x);
                    }
                }
            }
        }
    }
}

/// What a scan returns lists what lookups give, and none of them fails.
proof fn lemma_scan_finds(a: Pages, v: Seq<(Rid, Vec<u8>)>)
    requires
        scanned(a, v),
    ensures
        faultless(a),
        lists(readings(a), rec_views(v)),
{
    reveal(readings);
    reveal(faultless);
    let rv = rec_views(v);
    assert forall|i: int| 0 <= i < rv.len() implies rv[i] == ((#[trigger] v[i]).0, v[i].1@) by {}
    assert forall|r: Rid| (#[trigger] get_result(a, r)) is Ok by {
        if get_result(a, r) != Ok::<Option<Seq<u8>>, HeapError>(None) {
            let i = choose|i: int| 0 <= i < v.len() && (#[trigger] v[i]).0 == r;
        }
    }
    assert forall|i: int| 0 <= i < rv.len() implies readings(a).dom().contains((#[trigger] rv[i]).0)
        && readings(a)[rv[i].0] == rv[i].1 by {
        assert(get_result(a, v[i].0) == Ok::<Option<Seq<u8>>, HeapError>(Some(v[i].1@)));
    }
    assert forall|i: int, j: int| 0 <= i < j < rv.len() implies rid_lt(
        (#[trigger] rv[i]).0,
        (#[trigger] rv[j]).0,
    ) by {
        assert(rid_lt(v[i].0, v[j].0));
    }
    assert forall|r: Rid| #[trigger] readings(a).dom().contains(r) implies exists|i: int|
        0 <= i < rv.len() && (#[trigger] rv[i]).0 == r by {
        assert(get_result(a, r) != Ok::<Option<Seq<u8>>, HeapError>(None));
        let i = choose|i: int| 0 <= i < v.len() && (#[trigger] v[i]).0 == r;
        assert(rv[i].0 == r);
    }
}

/// What a scan returns lists the records.
proof fn lemma_scan_lists(a: Pages, v: Seq<(Rid, Vec<u8>)>)
    requires
        sound(a),
        scanned(a, v),
    ensures
        lists(records(a), rec_views(v)),
{
    law_scan_returns_the_records(a, v);
    let rv = rec_views(v);
    assert forall|i: int| 0 <= i < rv.len() implies rv[i] == ((#[trigger] v[i]).0, v[i].1@) by {}
    assert forall|r: Rid| #[trigger] records(a).dom().contains(r) implies exists|i: int|
        0 <= i < rv.len() && (#[trigger] rv[i]).0 == r by {
        let i = choose|i: int| 0 <= i < v.len() && (#[trigger] v[i]).0 == r;
        assert(rv[i].0 == r);
    }
}

/// What a range of an index leads to can be looked up.
proof fn lemma_range_addresses<P: Pager>(
    db: &Database<P>,
    i: int,
    range: (Seq<u8>, Option<Seq<u8>>),
)
    requires
        db.ok(),
        0 <= i < db.indexes@.len(),
        forall|k: Seq<u8>| #[trigger]
            db.entries(i).dom().contains(k) ==> addressable(
                db.bp.pages(),
                db.entries(i)[k],
            ),
    ensures
        forall|k: int|
            0 <= k < between(flat(db.trees@[i]), range.0, range.1).len()
                ==> addressable(
                db.bp.pages(),
                (#[trigger] between(flat(db.trees@[i]), range.0, range.1)[k]).1,
            ),
{
    let t = db.trees@[i];
    let es = flat(t);
    let v = between(es, range.0, range.1);
    lemma_index(db.bp.pages(), db.indexes@, db.trees@, i);
    crate::btree::tree::lemma_ordered_flat(t, None, None);
    crate::btree::tree::lemma_rank_finds(es, range.0);
    if range.1 is Some {
        crate::btree::tree::lemma_rank_finds(es, range.1->0);
    }
    reveal(Database::entries);
    assert forall|k: int| 0 <= k < v.len() implies addressable(
        db.bp.pages(),
        (#[trigger] v[k]).1,
    ) by {
        let x = k + crate::btree::node::rank(es, range.0);
        assert(v[k] == es[x]);
        crate::btree::tree::lemma_map_at(es, x);
        assert(db.entries(i).dom().contains(es[x].0));
    }
}

} // verus!
