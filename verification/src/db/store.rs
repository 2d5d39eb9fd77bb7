//! The stored database: tables in one heap, an index tree for each index, and the
//! definitions of both among the records of the heap.

use vstd::prelude::*;
use vstd::utf8::encode_utf8;

use crate::btree::grow::{lemma_shrink_apart, shrink};
use crate::btree::node::child_of;
use crate::btree::tree::{contents, disjoint, height, lemma_owned_pages, owns, tree_ok, Tree};
use crate::btree::{grown_tree, insertable, lemma_tree_on, BTree, BtreeError, MAX_KEY};
use crate::buffer::PageId;
use crate::db::catalog::{
    entry_key, index_key, serialize_index, stored_index, IndexMeta, INDEX_TID,
};
use crate::db::dml::{own_names, row_fits, row_record, table_record, touched, TableDef};
use crate::db::{exec_err, DbError};
use crate::heap::{
    addressable, can_hold, cell, found, frame, leads_on, moved_to, tagged, is_heap, is_moved, is_stub, record, records, share_target, sound,
    target, tidy, update_result, updated, whole_stub, HeapError, HeapFile, Pages, Rid, MAX_RECORD,
};
use crate::page::{
    free_end_of, page_wf, slot_off, tuple_at, tuples_of, MAX_TUPLE_SIZE, PAGE_SIZE,
};
use crate::pager::{full, holds_out, kept, Pager};
use crate::types::{views, Value, ValueView};

verus! {

/// The pages failed.
pub open spec fn device(e: DbError) -> bool {
    match e {
        DbError::Buffer(_) => true,
        DbError::Heap(HeapError::Buffer(_)) => true,
        _ => false,
    }
}

/// The record that defines an index.
pub open spec fn index_record(m: IndexMeta) -> Seq<u8> {
    table_record(
        INDEX_TID,
        stored_index(encode_utf8(m.name@), m.table_id, m.col_index as u32, m.col_type, m.root),
    )
}

/// The heap holds the definition of an index.
pub open spec fn defined(recs: Map<Rid, Seq<u8>>, m: IndexMeta) -> bool {
    recs.dom().contains(m.catalog_rid) && recs[m.catalog_rid] == index_record(m)
}

/// The pages hold these trees, none of which shares a page with another.
#[verifier::opaque]
pub open spec fn planted(pages: Pages, ts: Seq<Tree>) -> bool {
    &&& forall|i: int| 0 <= i < ts.len() ==> tree_ok(pages, #[trigger] ts[i])
    &&& forall|i: int, j: int|
        0 <= i < j < ts.len() ==> disjoint(#[trigger] ts[i], #[trigger] ts[j])
}

/// Each index has its tree and its definition.
#[verifier::opaque]
pub open spec fn wired(pages: Pages, idxs: Seq<IndexMeta>, ts: Seq<Tree>) -> bool {
    &&& ts.len() == idxs.len()
    &&& planted(pages, ts)
    &&& forall|i: int| 0 <= i < idxs.len() ==> (#[trigger] idxs[i]).root == ts[i].pid()
    &&& forall|i: int| 0 <= i < idxs.len() ==> defined(records(pages), #[trigger] idxs[i])
    &&& forall|i: int, j: int|
        0 <= i < j < idxs.len() ==> (#[trigger] idxs[i]).catalog_rid != (
        #[trigger] idxs[j]).catalog_rid
}

/// What is known of one index.
pub proof fn lemma_index(pages: Pages, idxs: Seq<IndexMeta>, ts: Seq<Tree>, i: int)
    requires
        wired(pages, idxs, ts),
        0 <= i < idxs.len(),
    ensures
        ts.len() == idxs.len(),
        planted(pages, ts),
        tree_ok(pages, ts[i]),
        idxs[i].root == ts[i].pid(),
        defined(records(pages), idxs[i]),
{
    reveal(planted);
    reveal(wired);
}

/// How often the database took a shorter way, and how much it replayed.
#[derive(Clone, Copy, Debug, PartialEq, Eq, Structural)]
pub struct Counts {
    /// Queries answered through an index.
    pub index_lookups: u64,
    /// Joins that were streamed.
    pub join_streams: u64,
    /// Aggregates that were streamed.
    pub agg_streams: u64,
    /// Statements that the last recovery replayed.
    pub replayed: u64,
}

/// Nothing was counted yet.
pub open spec fn no_counts() -> Counts {
    Counts { index_lookups: 0, join_streams: 0, agg_streams: 0, replayed: 0 }
}

/// A stored database.
pub struct Database<P: Pager> {
    pub bp: P,
    pub tables: Vec<TableDef>,
    pub indexes: Vec<IndexMeta>,
    /// The number of the next table.
    pub next_tid: u16,
    /// The tree of each index.
    pub trees: Ghost<Seq<Tree>>,
    pub counts: Counts,
}

impl<P: Pager> Database<P> {
    /// What is stored is consistent.
    pub open spec fn ok(&self) -> bool {
        &&& self.bp.pager_ok()
        &&& tidy(self.bp.pages(), self.bp.count())
        &&& sound(self.bp.pages())
        &&& self.trees@.len() == self.indexes@.len()
        &&& own_names(self.tables@)
        &&& wired(self.bp.pages(), self.indexes@, self.trees@)
    }

    /// The records of the heap.
    #[verifier::opaque]
    pub open spec fn stored(&self) -> Map<Rid, Seq<u8>> {
        records(self.bp.pages())
    }

    /// What index `i` holds.
    #[verifier::opaque]
    pub open spec fn entries(&self, i: int) -> Map<Seq<u8>, Rid> {
        contents(self.trees@[i])
    }
}

// ---- the heap and the trees share the pages ----

/// What the heap does leaves a tree as it was.
pub proof fn lemma_heap_step(a: Pages, b: Pages, t: Tree)
    requires
        tree_ok(a, t),
        frame(a, b),
    ensures
        tree_ok(b, t),
{
    lemma_owned_pages(a, t);
    assert forall|p: PageId| #[trigger] owns(t, p) implies b.dom().contains(p) && b[p] == a[p] by {
        assert(!is_heap(a, p));
    }
    lemma_tree_on(a, b, t);
}

/// What the heap does leaves the trees as they were.
pub proof fn lemma_heap_steps(a: Pages, b: Pages, ts: Seq<Tree>)
    requires
        planted(a, ts),
        frame(a, b),
    ensures
        planted(b, ts),
{
    reveal(planted);
    assert forall|i: int| 0 <= i < ts.len() implies tree_ok(b, #[trigger] ts[i]) by {
        lemma_heap_step(a, b, ts[i]);
    }
}

/// What the heap does to other records leaves the indexes as they were.
pub proof fn lemma_still_wired(a: Pages, b: Pages, idxs: Seq<IndexMeta>, ts: Seq<Tree>)
    requires
        wired(a, idxs, ts),
        frame(a, b),
        forall|i: int|
            0 <= i < idxs.len() ==> records(b).dom().contains((#[trigger] idxs[i]).catalog_rid)
                && records(b)[idxs[i].catalog_rid] == records(a)[idxs[i].catalog_rid],
    ensures
        wired(b, idxs, ts),
{
    reveal(wired);
    lemma_heap_steps(a, b, ts);
    assert forall|i: int| 0 <= i < idxs.len() implies defined(records(b), #[trigger] idxs[i]) by {
        assert(defined(records(a), idxs[i]));
    }
}

/// Tree `t` became `u`, which took the page numbers from `na` up to `nb`; no page of
/// another kind changed.
pub open spec fn regrown(a: Pages, na: int, b: Pages, nb: int, t: Tree, u: Tree) -> bool {
    &&& tree_ok(a, t)
    &&& tree_ok(b, u)
    &&& na <= nb
    &&& forall|p: PageId| #[trigger] owns(u, p) <==> owns(t, p) || na <= p < nb
    &&& forall|p: PageId| #[trigger]
        a.dom().contains(p) && !owns(t, p) ==> b.dom().contains(p) && b[p] == a[p]
}

/// Changes to pages of other kinds leave the heap as it was.
pub proof fn lemma_heap_untouched(a: Pages, na: PageId, b: Pages, nb: PageId)
    requires
        tidy(a, na),
        sound(a),
        na <= nb,
        forall|p: PageId| #[trigger] b.dom().contains(p) <==> p < nb,
        forall|p: PageId| #[trigger] b.dom().contains(p) ==> b[p].len() == PAGE_SIZE - 4,
        forall|p: PageId| is_heap(a, p) == #[trigger] is_heap(b, p),
        forall|p: PageId| #[trigger] is_heap(a, p) ==> b[p] == a[p],
    ensures
        tidy(b, nb),
        records(b) == records(a),
        sound(b),
{
    assert forall|x: Rid| #[trigger] cell(b, x) == cell(a, x) by {
        assert(is_heap(a, x.page) == is_heap(b, x.page));
    }
    lemma_cells_same(a, b);
    assert forall|r: Rid| #[trigger] is_stub(b, r) implies whole_stub(b, r) by {
        assert(cell(b, r) == cell(a, r));
        assert(is_stub(a, r));
        assert(whole_stub(a, r));
        let g = target(a, r);
        assert(target(b, r) == g);
        assert(is_moved(a, g));
        assert(is_heap(a, g.page) == is_heap(b, g.page));
    }
    assert forall|p: PageId| #[trigger] is_heap(b, p) implies page_wf(full(b[p])) by {
        assert(is_heap(a, p));
    }
}

/// What a tree does leaves the heap as it was.
pub proof fn lemma_tree_step(a: Pages, na: PageId, b: Pages, nb: PageId, t: Tree, u: Tree)
    requires
        tidy(a, na),
        sound(a),
        regrown(a, na as int, b, nb as int, t, u),
        forall|p: PageId| #[trigger]
            b.dom().contains(p) ==> p < nb && b[p].len() == PAGE_SIZE - 4,
    ensures
        tidy(b, nb),
        forall|p: PageId| is_heap(a, p) == #[trigger] is_heap(b, p),
        records(b) == records(a),
        sound(b),
{
    lemma_owned_pages(a, t);
    lemma_owned_pages(b, u);
    assert forall|p: PageId| #[trigger] b.dom().contains(p) <==> p < nb by {
        if p < nb {
            if p < na {
                assert(a.dom().contains(p));
                if owns(t, p) {
                    assert(owns(u, p));
                }
            } else {
                assert(owns(u, p));
            }
        }
    }
    assert forall|p: PageId| is_heap(a, p) == #[trigger] is_heap(b, p) && (is_heap(a, p) ==> b[p]
        == a[p]) by {
        if a.dom().contains(p) {
            if owns(t, p) {
                assert(owns(u, p));
                assert(!is_heap(a, p));
                assert(!is_heap(b, p));
            }
        } else if b.dom().contains(p) {
            assert(na <= p < nb);
            assert(owns(u, p));
        }
    }
    lemma_heap_untouched(a, na, b, nb);
}

/// A new tree on new pages leaves the heap and the other trees as they were.
pub proof fn lemma_new_tree(a: Pages, na: PageId, b: Pages, nb: PageId, ts: Seq<Tree>, u: Tree)
    requires
        tidy(a, na),
        sound(a),
        planted(a, ts),
        kept(a, b),
        na <= nb,
        tree_ok(b, u),
        forall|p: PageId| #[trigger] owns(u, p) <==> na <= p < nb,
        forall|p: PageId| #[trigger]
            b.dom().contains(p) ==> p < nb && b[p].len() == PAGE_SIZE - 4,
    ensures
        tidy(b, nb),
        records(b) == records(a),
        sound(b),
        planted(b, ts.push(u)),
{
    lemma_owned_pages(b, u);
    assert forall|p: PageId| #[trigger] b.dom().contains(p) <==> p < nb by {
        if p < nb {
            if p < na {
                assert(a.dom().contains(p));
            } else {
                assert(owns(u, p));
            }
        }
    }
    assert forall|p: PageId| is_heap(a, p) == #[trigger] is_heap(b, p) && (is_heap(a, p) ==> b[p]
        == a[p]) by {
        if !a.dom().contains(p) && b.dom().contains(p) {
            assert(owns(u, p));
        }
    }
    lemma_heap_untouched(a, na, b, nb);
    reveal(planted);
    let us = ts.push(u);
    assert forall|j: int| 0 <= j < us.len() implies tree_ok(b, #[trigger] us[j]) by {
        if j < ts.len() {
            lemma_owned_pages(a, ts[j]);
            lemma_tree_on(a, b, ts[j]);
        }
    }
    assert forall|j: int, k: int| 0 <= j < k < us.len() implies disjoint(
        #[trigger] us[j],
        #[trigger] us[k],
    ) by {
        if k < ts.len() {
            assert(disjoint(ts[j], ts[k]));
        } else {
            lemma_owned_pages(a, ts[j]);
        }
    }
}

/// What a tree does leaves the other trees as they were.
pub proof fn lemma_tree_steps(a: Pages, na: PageId, b: Pages, nb: PageId, ts: Seq<Tree>, i: int, u: Tree)
    requires
        planted(a, ts),
        0 <= i < ts.len(),
        regrown(a, na as int, b, nb as int, ts[i], u),
        forall|p: PageId| #[trigger] a.dom().contains(p) ==> p < na,
    ensures
        planted(b, ts.update(i, u)),
{
    reveal(planted);
    let us = ts.update(i, u);
    assert forall|j: int| 0 <= j < us.len() implies tree_ok(b, #[trigger] us[j]) by {
        if j != i {
            lemma_owned_pages(a, ts[j]);
            assert(disjoint(ts[i], ts[j]) || disjoint(ts[j], ts[i])) by {
                if i < j {
                    assert(disjoint(ts[i], ts[j]));
                } else {
                    assert(disjoint(ts[j], ts[i]));
                }
            }
            assert forall|p: PageId| #[trigger] owns(ts[j], p) implies b.dom().contains(p) && b[p]
                == a[p] by {
                assert(a.dom().contains(p));
                assert(!owns(ts[i], p));
            }
            lemma_tree_on(a, b, ts[j]);
        }
    }
    assert forall|j: int, k: int| 0 <= j < k < us.len() implies disjoint(
        #[trigger] us[j],
        #[trigger] us[k],
    ) by {
        assert(disjoint(ts[j], ts[k]));
        lemma_owned_pages(a, ts[j]);
        lemma_owned_pages(a, ts[k]);
        assert forall|p: PageId| !(#[trigger] owns(us[j], p) && #[trigger] owns(us[k], p)) by {
            if owns(us[j], p) && owns(us[k], p) {
                if j == i {
                    assert(owns(ts[k], p));
                    assert(a.dom().contains(p));
                    assert(owns(ts[j], p));
                } else if k == i {
                    assert(owns(ts[j], p));
                    assert(a.dom().contains(p));
                    assert(owns(ts[k], p));
                }
            }
        }
    }
}

/// Pages of which none was lost and none was added are the same pages.
pub proof fn lemma_all_kept(a: Pages, b: Pages, n: PageId)
    requires
        tidy(a, n),
        kept(a, b),
        forall|p: PageId| #[trigger] b.dom().contains(p) ==> p < n,
    ensures
        b == a,
{
    assert(b =~= a) by {
        assert forall|p: PageId| b.dom().contains(p) <==> a.dom().contains(p) by {}
    }
}

/// What the heap knows of its space holds as long as its pages stay.
pub proof fn lemma_fits(h: &HeapFile, a: Pages, b: Pages)
    requires
        h.fits(a),
        forall|p: PageId| is_heap(a, p) == #[trigger] is_heap(b, p),
    ensures
        h.fits(b),
{
    assert forall|p: int| 0 <= p < h.fsm@.len() && (#[trigger] h.fsm@[p]) > 0 implies p <= u32::MAX
        && is_heap(b, p as u32) by {
        assert(is_heap(a, p as u32));
    }
}

/// A stored record is no longer than a page can hold.
pub proof fn lemma_stored_len(a: Pages, n: PageId, r: Rid)
    requires
        tidy(a, n),
        cell(a, r) is Some,
    ensures
        cell(a, r)->0.len() <= MAX_TUPLE_SIZE,
{
    let b = full(a[r.page]);
    assert(is_heap(a, r.page));
    assert(page_wf(b));
    let s = r.slot as int;
    assert(tuples_of(b)[s] == tuple_at(b, s));
    assert(slot_off(b, s) >= free_end_of(b));
}

/// A record can be replaced by one of the same length.
pub proof fn lemma_same_length(a: Pages, n: PageId, r: Rid, rec: Seq<u8>)
    requires
        tidy(a, n),
        sound(a),
        records(a).dom().contains(r),
        records(a)[r].len() == rec.len(),
    ensures
        addressable(a, r),
        leads_on(a, r),
        rec.len() <= MAX_RECORD,
        update_result(a, r, rec.len() as int) == Ok::<bool, HeapError>(true),
{
    assert(record(a, r) is Some);
    lemma_stored_len(a, n, r);
    if is_stub(a, r) {
        assert(is_moved(a, target(a, r)));
        lemma_stored_len(a, n, target(a, r));
    } else {
        assert(cell(a, r)->0.len() == rec.len() + 1);
        assert(can_hold(a, r, rec.len() as int + 1));
    }
}

/// A record of a sound heap can be looked up, replaced and deleted.
pub proof fn lemma_reachable(a: Pages, r: Rid)
    requires
        sound(a),
        records(a).dom().contains(r),
    ensures
        addressable(a, r),
        leads_on(a, r),
        found(a, r) == Ok::<bool, HeapError>(true),
        is_stub(a, r) ==> is_heap(a, target(a, r).page),
{
    assert(record(a, r) is Some);
    if is_stub(a, r) {
        assert(is_moved(a, target(a, r)));
    }
}

/// The same slots hold the same records.
pub proof fn lemma_cells_same(a: Pages, b: Pages)
    requires
        sound(a),
        forall|x: Rid| #[trigger] cell(b, x) == cell(a, x),
    ensures
        sound(b),
        records(b) == records(a),
{
    assert forall|r: Rid| #[trigger] is_stub(b, r) implies is_moved(b, target(b, r)) by {
        assert(cell(b, r) == cell(a, r));
        assert(is_stub(a, r));
        assert(target(b, r) == target(a, r));
        assert(is_moved(a, target(a, r)));
        assert(cell(b, target(a, r)) == cell(a, target(a, r)));
    }
    assert forall|x: Rid, y: Rid| #[trigger] share_target(b, x, y) implies x == y by {
        assert(cell(b, x) == cell(a, x) && cell(b, y) == cell(a, y));
        assert(share_target(a, x, y));
    }
    assert forall|x: Rid| #[trigger] record(b, x) == record(a, x) by {
        assert(cell(b, x) == cell(a, x));
        if is_stub(a, x) {
            assert(target(b, x) == target(a, x));
        }
    }
    assert(records(b) =~= records(a));
}

/// Moving a record leaves the pages of other kinds alone.
pub proof fn lemma_updated_frame(a: Pages, b: Pages, r: Rid, rec: Seq<u8>)
    requires
        updated(a, b, r, rec),
    ensures
        frame(a, b),
{
    let len = rec.len() as int + 1;
    if tagged(a, r, 0) && can_hold(a, r, len) {
    } else if tagged(a, r, 1) && can_hold(a, target(a, r), len) {
    } else {
        let t = choose|t: Rid| #[trigger] moved_to(a, b, r, t, rec);
        assert(frame(a, b));
    }
}

/// A definition is as long whatever page its tree begins at.
pub proof fn lemma_definition_len(m: IndexMeta, n: IndexMeta)
    requires
        n == (IndexMeta { root: n.root, ..m }),
    ensures
        index_record(n).len() == index_record(m).len(),
{
}

impl<P: Pager> Database<P> {
    /// Only the tree of index `i` and its definition changed.
    pub open spec fn moved_on(&self, old: &Self, i: int) -> bool {
        &&& self.bp.reach() == old.bp.reach()
        &&& self.tables == old.tables
        &&& self.next_tid == old.next_tid
        &&& self.trees@ == old.trees@.update(i, self.trees@[i])
        &&& self.indexes@ == old.indexes@.update(
            i,
            IndexMeta { root: self.trees@[i].pid(), ..old.indexes@[i] },
        )
        &&& self.stored() == old.stored().insert(
            old.indexes@[i].catalog_rid,
            index_record(self.indexes@[i]),
        )
    }

    /// Nothing of what is stored changed.
    pub open spec fn unmoved(&self, old: &Self) -> bool {
        &&& self.bp.reach() == old.bp.reach()
        &&& self.bp.pages() == old.bp.pages()
        &&& self.bp.count() == old.bp.count()
        &&& self.tables == old.tables
        &&& self.next_tid == old.next_tid
        &&& self.indexes == old.indexes
        &&& self.trees == old.trees
    }

    /// Note where the tree of index `i` begins now.
    #[verifier::spinoff_prover]
    fn name_root(&mut self, heap: &mut HeapFile, i: usize, root: PageId) -> (r: Result<(), DbError>)
        requires
            old(self).bp.pager_ok(),
            old(heap).ready(&old(self).bp),
            sound(old(self).bp.pages()),
            old(self).bp.count() < u32::MAX,
            i < old(self).indexes@.len(),
            old(self).trees@.len() == old(self).indexes@.len(),
            planted(old(self).bp.pages(), old(self).trees@),
            defined(old(self).stored(), old(self).indexes@[i as int]),
        ensures
            final(self).counts == old(self).counts,
            final(self).bp.pager_ok(),
            final(self).bp.reach() == old(self).bp.reach(),
            final(self).tables == old(self).tables,
            final(self).next_tid == old(self).next_tid,
            final(self).trees == old(self).trees,
            final(self).bp.count() <= old(self).bp.count() + 1,
            match r {
                Ok(()) => {
                    &&& final(heap).ready(&final(self).bp)
                    &&& sound(final(self).bp.pages())
                    &&& planted(final(self).bp.pages(), old(self).trees@)
                    &&& final(self).indexes@ == old(self).indexes@.update(
                        i as int,
                        IndexMeta { root, ..old(self).indexes@[i as int] },
                    )
                    &&& final(self).stored() == old(self).stored().insert(
                        old(self).indexes@[i as int].catalog_rid,
                        index_record(final(self).indexes@[i as int]),
                    )
                },
                Err(e) => device(e) && !holds_out(&old(self).bp, 1),
            },
    {
        let ghost a = self.bp.pages();
        let ghost n = self.bp.count();
        let ghost was = self.indexes@;
        proof {
            reveal(Database::stored);
        }
        if self.indexes[i].root == root {
            proof {
                let m = was[i as int];
                assert(IndexMeta { root, ..m } == m);
                assert(was.update(i as int, m) =~= was);
                assert(records(a) =~= records(a).insert(m.catalog_rid, index_record(m)));
            }
            return Ok(());
        }
        self.indexes[i].root = root;
        let m: &IndexMeta = &self.indexes[i];
        let def: Vec<u8> = serialize_index(
            m.name.as_str(),
            m.table_id,
            m.col_index,
            m.col_type,
            m.root,
        );
        let rec: Vec<u8> = row_record(INDEX_TID, def.as_slice());
        let at: Rid = m.catalog_rid;
        proof {
            lemma_definition_len(was[i as int], self.indexes@[i as int]);
            assert(rec@ == index_record(self.indexes@[i as int]));
            lemma_same_length(a, n, at, rec@);
        }
        match heap.update(&mut self.bp, at, rec.as_slice()) {
            Ok(_) => {
                proof {
                    lemma_updated_frame(a, self.bp.pages(), at, rec@);
                    lemma_heap_steps(a, self.bp.pages(), self.trees@);
                }
                Ok(())
            },
            Err(e) => Err(DbError::Heap(e)),
        }
    }

    /// Set `key` to `rid` in the tree of index `i`; the page where the tree begins now.
    #[verifier::rlimit(40)]
    #[verifier::spinoff_prover]
    fn grow_index(&mut self, heap: &HeapFile, i: usize, key: &[u8], rid: Rid) -> (r: Result<
        PageId,
        DbError,
    >)
        requires
            old(self).ok(),
            heap.ready(&old(self).bp),
            i < old(self).indexes@.len(),
            old(self).bp.count() + height(old(self).trees@[i as int]) + 2 <= u32::MAX,
            key@.len() <= MAX_KEY ==> insertable(
                old(self).trees@[i as int],
                key@,
                rid,
                old(self).bp.count() as int,
            ),
        ensures
            final(self).counts == old(self).counts,
            final(self).bp.pager_ok(),
            final(self).bp.reach() == old(self).bp.reach(),
            final(self).tables == old(self).tables,
            final(self).next_tid == old(self).next_tid,
            final(self).indexes == old(self).indexes,
            match r {
                Ok(root) => {
                    let u = grown_tree(
                        old(self).trees@[i as int],
                        key@,
                        rid,
                        old(self).bp.count() as int,
                    );
                    &&& key@.len() <= MAX_KEY
                    &&& heap.ready(&final(self).bp)
                    &&& sound(final(self).bp.pages())
                    &&& final(self).trees@ == old(self).trees@.update(i as int, u)
                    &&& planted(final(self).bp.pages(), final(self).trees@)
                    &&& root == u.pid()
                    &&& final(self).entries(i as int) == old(self).entries(i as int).insert(
                        key@,
                        rid,
                    )
                    &&& final(self).stored() == old(self).stored()
                    &&& old(self).bp.count() <= final(self).bp.count()
                    &&& final(self).bp.count() <= old(self).bp.count() + height(
                        old(self).trees@[i as int],
                    ) + 2
                },
                Err(DbError::Exec(t)) => {
                    &&& key@.len() > MAX_KEY
                    &&& t@ == "entry too large for a node"@
                    &&& final(self).unmoved(old(self))
                },
                Err(e) => device(e) && !holds_out(&old(self).bp, height(old(self).trees@[i as int]) + 2),
            },
    {
        let ghost a = self.bp.pages();
        let ghost na = self.bp.count();
        let ghost ts = self.trees@;
        let ghost t = ts[i as int];
        proof {
            lemma_index(a, self.indexes@, ts, i as int);
        }
        let mut bt: BTree = BTree::open_rooted(&self.bp, self.indexes[i].root);
        assert(bt.tree@ == t && bt.ok(&self.bp));
        match bt.insert(&mut self.bp, key, rid) {
            Ok(()) => {},
            Err(BtreeError::Buffer(e)) => {
                return Err(DbError::Buffer(e));
            },
            Err(_) => {
                proof {
                    self.bp.lemma_pages();
                    lemma_all_kept(a, self.bp.pages(), na);
                }
                return exec_err("entry too large for a node");
            },
        }
        proof {
            let b = self.bp.pages();
            let nb = self.bp.count();
            let u = bt.tree@;
            self.bp.lemma_pages();
            assert(regrown(a, na as int, b, nb as int, t, u));
            lemma_tree_step(a, na, b, nb, t, u);
            lemma_tree_steps(a, na, b, nb, ts, i as int, u);
            self.trees@ = ts.update(i as int, u);
            lemma_fits(heap, a, b);
            reveal(Database::entries);
            reveal(Database::stored);
        }
        Ok(bt.root())
    }

    /// Set `key` to `rid` in index `i`.
    #[verifier::spinoff_prover]
    fn put_entry(&mut self, heap: &mut HeapFile, i: usize, key: &[u8], rid: Rid) -> (r: Result<
        (),
        DbError,
    >)
        requires
            old(self).ok(),
            old(heap).ready(&old(self).bp),
            i < old(self).indexes@.len(),
            old(self).bp.count() + height(old(self).trees@[i as int]) + 3 <= u32::MAX,
            key@.len() <= MAX_KEY ==> insertable(
                old(self).trees@[i as int],
                key@,
                rid,
                old(self).bp.count() as int,
            ),
        ensures
            final(self).counts == old(self).counts,
            final(self).bp.pager_ok(),
            final(self).bp.reach() == old(self).bp.reach(),
            match r {
                Ok(()) => {
                    &&& key@.len() <= MAX_KEY
                    &&& final(self).ok()
                    &&& final(heap).ready(&final(self).bp)
                    &&& final(self).moved_on(old(self), i as int)
                    &&& final(self).trees@[i as int] == grown_tree(
                        old(self).trees@[i as int],
                        key@,
                        rid,
                        old(self).bp.count() as int,
                    )
                    &&& final(self).entries(i as int) == old(self).entries(i as int).insert(
                        key@,
                        rid,
                    )
                    &&& final(self).bp.count() <= old(self).bp.count() + height(
                        old(self).trees@[i as int],
                    ) + 3
                },
                Err(DbError::Exec(t)) => {
                    &&& key@.len() > MAX_KEY
                    &&& t@ == "entry too large for a node"@
                    &&& final(self).ok()
                    &&& final(heap).ready(&final(self).bp)
                    &&& final(self).unmoved(old(self))
                },
                Err(e) => device(e) && !holds_out(&old(self).bp, height(old(self).trees@[i as int]) + 3),
            },
    {
        let ghost was = *self;
        let root: PageId = match self.grow_index(heap, i, key, rid) {
            Ok(root) => root,
            Err(e) => {
                return Err(e);
            },
        };
        assert(defined(was.stored(), was.indexes@[i as int])) by {
            reveal(Database::stored);
            lemma_index(was.bp.pages(), was.indexes@, was.trees@, i as int);
        }
        let ghost mid = *self;
        match self.name_root(heap, i, root) {
            Ok(()) => {},
            Err(e) => {
                return Err(e);
            },
        }
        proof {
            assert(self.trees@[i as int].pid() == root);
            self.lemma_rewired(&was, i as int);
            assert(self.entries(i as int) == mid.entries(i as int)) by {
                reveal(Database::entries);
            }
        }
        Ok(())
    }

    /// The definitions are in order after that of index `i` was rewritten.
    pub proof fn lemma_rewired(&self, was: &Self, i: int)
        requires
            was.ok(),
            0 <= i < was.indexes@.len(),
            planted(self.bp.pages(), self.trees@),
            self.trees@ == was.trees@.update(i, self.trees@[i]),
            self.indexes@ == was.indexes@.update(
                i,
                IndexMeta { root: self.trees@[i].pid(), ..was.indexes@[i] },
            ),
            self.stored() == was.stored().insert(
                was.indexes@[i].catalog_rid,
                index_record(self.indexes@[i]),
            ),
        ensures
            wired(self.bp.pages(), self.indexes@, self.trees@),
    {
        reveal(planted);
        reveal(wired);
        reveal(Database::stored);
        let idxs = was.indexes@;
        let recs = was.stored();
        let now = self.indexes@;
        assert forall|j: int| 0 <= j < now.len() implies defined(
            self.stored(),
            #[trigger] now[j],
        ) && now[j].root == self.trees@[j].pid() by {
            assert(defined(recs, idxs[j]));
            if j != i {
                assert(now[j] == idxs[j]);
                if j < i {
                    assert(idxs[j].catalog_rid != idxs[i].catalog_rid);
                } else {
                    assert(idxs[i].catalog_rid != idxs[j].catalog_rid);
                }
            }
        }
        assert forall|j: int, k: int| 0 <= j < k < now.len() implies (
        #[trigger] now[j]).catalog_rid != (#[trigger] now[k]).catalog_rid by {
            assert(now[j].catalog_rid == idxs[j].catalog_rid);
            assert(now[k].catalog_rid == idxs[k].catalog_rid);
        }
    }

    /// Remove `key` from index `i`.
    #[verifier::spinoff_prover]
    fn cut_entry(&mut self, heap: &mut HeapFile, i: usize, key: &[u8]) -> (r: Result<(), DbError>)
        requires
            old(self).ok(),
            old(heap).ready(&old(self).bp),
            i < old(self).indexes@.len(),
        ensures
            final(self).counts == old(self).counts,
            final(self).bp.pager_ok(),
            final(self).bp.reach() == old(self).bp.reach(),
            final(self).bp.count() == old(self).bp.count(),
            match r {
                Ok(()) => {
                    &&& final(self).ok()
                    &&& final(heap).ready(&final(self).bp)
                    &&& final(self).moved_on(old(self), i as int)
                    &&& final(self).trees@[i as int] == shrink(old(self).trees@[i as int], key@)
                    &&& final(self).entries(i as int) == old(self).entries(i as int).remove(key@)
                },
                Err(e) => device(e) && !holds_out(&old(self).bp, 0),
            },
    {
        let ghost was = *self;
        let ghost a = self.bp.pages();
        let ghost na = self.bp.count();
        let ghost ts = self.trees@;
        let ghost t = ts[i as int];
        let ghost idxs = self.indexes@;
        proof {
            lemma_index(a, idxs, ts, i as int);
        }
        let mut bt: BTree = BTree::open_rooted(&self.bp, self.indexes[i].root);
        assert(bt.tree@ == t && bt.ok(&self.bp));
        match bt.delete(&mut self.bp, key) {
            Ok(_) => {},
            Err(BtreeError::Buffer(e)) => {
                return Err(DbError::Buffer(e));
            },
            Err(_) => {
                return exec_err("entry too large for a node");
            },
        }
        let ghost b = self.bp.pages();
        let ghost u = bt.tree@;
        proof {
            self.bp.lemma_pages();
            lemma_shrink_apart(t, key@);
            assert(regrown(a, na as int, b, na as int, t, u));
            lemma_tree_step(a, na, b, na, t, u);
            lemma_tree_steps(a, na, b, na, ts, i as int, u);
            self.trees@ = ts.update(i as int, u);
            lemma_fits(heap, a, b);
            reveal(Database::entries);
            reveal(Database::stored);
            let m = idxs[i as int];
            assert(IndexMeta { root: u.pid(), ..m } == m);
            assert(idxs.update(i as int, m) =~= idxs);
            assert(records(b) =~= records(b).insert(m.catalog_rid, index_record(m)));
            self.lemma_rewired(&was, i as int);
        }
        Ok(())
    }
}

// ---- rows ----

/// The key of a row in an index.
pub open spec fn key_in(m: IndexMeta, row: Seq<ValueView>, rid: Rid) -> Seq<u8> {
    entry_key(row[m.col_index as int], rid)
}

/// The same indexes, whatever pages their trees begin at.
pub open spec fn same_indexes(a: Seq<IndexMeta>, b: Seq<IndexMeta>) -> bool {
    &&& a.len() == b.len()
    &&& forall|i: int|
        0 <= i < a.len() ==> #[trigger] b[i] == (IndexMeta { root: b[i].root, ..a[i] })
}

/// An index is defined at `r`.
pub open spec fn defines(idxs: Seq<IndexMeta>, r: Rid) -> bool {
    exists|i: int| 0 <= i < idxs.len() && (#[trigger] idxs[i]).catalog_rid == r
}

/// The same records but for the definitions of indexes.
pub open spec fn same_data(
    a: Map<Rid, Seq<u8>>,
    b: Map<Rid, Seq<u8>>,
    idxs: Seq<IndexMeta>,
) -> bool {
    &&& forall|r: Rid| #[trigger] a.dom().contains(r) <==> b.dom().contains(r)
    &&& forall|r: Rid| #[trigger]
        a.dom().contains(r) && !defines(idxs, r) ==> b[r] == a[r]
}

/// How many pages one insertion into each of the first `n` indexes can take.
pub open spec fn growth(ts: Seq<Tree>, n: int) -> int
    decreases n,
{
    if n <= 0 {
        0
    } else {
        growth(ts, n - 1) + height(ts[n - 1]) + 3
    }
}

/// Every index on table `tid` has room for the row, or finds its key too long.
pub open spec fn takes(
    ts: Seq<Tree>,
    idxs: Seq<IndexMeta>,
    tid: u16,
    row: Seq<ValueView>,
) -> bool {
    forall|i: int, rid: Rid, fresh: int|
        0 <= i < idxs.len() && idxs[i].table_id == tid && key_in(idxs[i], row, rid).len()
            <= MAX_KEY && 0 <= fresh ==> #[trigger] insertable(
            ts[i],
            key_in(idxs[i], row, rid),
            rid,
            fresh,
        )
}

/// The trees after the row was entered, new pages being numbered from `fresh`.
pub open spec fn grown_trees(
    ts: Seq<Tree>,
    idxs: Seq<IndexMeta>,
    tid: u16,
    row: Seq<ValueView>,
    rid: Rid,
    fresh: Seq<int>,
) -> Seq<Tree> {
    Seq::new(
        ts.len(),
        |i: int|
            if idxs[i].table_id == tid {
                grown_tree(ts[i], key_in(idxs[i], row, rid), rid, fresh[i])
            } else {
                ts[i]
            },
    )
}

/// The trees after the row's old values gave way to the new ones.
pub open spec fn regrown_trees(
    ts: Seq<Tree>,
    idxs: Seq<IndexMeta>,
    tid: u16,
    old_row: Seq<ValueView>,
    new_row: Seq<ValueView>,
    rid: Rid,
    fresh: Seq<int>,
) -> Seq<Tree> {
    Seq::new(
        ts.len(),
        |i: int|
            if touched(idxs[i], tid, old_row, new_row) {
                grown_tree(
                    shrink(ts[i], key_in(idxs[i], old_row, rid)),
                    key_in(idxs[i], new_row, rid),
                    rid,
                    fresh[i],
                )
            } else {
                ts[i]
            },
    )
}

/// Page numbers, one for each index.
pub open spec fn numbers(fresh: Seq<int>, n: int) -> bool {
    fresh.len() == n && forall|i: int| 0 <= i < n ==> 0 <= #[trigger] fresh[i]
}

/// Every index on table `tid` that has forgotten the row's old value has room for the
/// new one, or finds its key too long.
pub open spec fn retakes(
    ts: Seq<Tree>,
    idxs: Seq<IndexMeta>,
    tid: u16,
    old_row: Seq<ValueView>,
    new_row: Seq<ValueView>,
    rid: Rid,
) -> bool {
    forall|i: int, fresh: int|
        0 <= i < idxs.len() && touched(idxs[i], tid, old_row, new_row) && key_in(
            idxs[i],
            new_row,
            rid,
        ).len() <= MAX_KEY && 0 <= fresh ==> #[trigger] insertable(
            shrink(ts[i], key_in(idxs[i], old_row, rid)),
            key_in(idxs[i], new_row, rid),
            rid,
            fresh,
        )
}

/// A deletion keeps the height.
pub proof fn lemma_shrink_height(t: Tree, key: Seq<u8>)
    ensures
        height(shrink(t, key)) == height(t),
    decreases t,
{
    match t {
        Tree::Leaf { .. } => {},
        Tree::Node { pid, ks, kids } => {
            let i = child_of(ks, key);
            if 0 <= i < kids.len() {
                let now = kids.update(i, shrink(kids[i], key));
                if i == 0 {
                    lemma_shrink_height(kids[0], key);
                }
                assert(height(now[0]) == height(kids[0]));
            }
        },
    }
}

pub proof fn lemma_growth(ts: Seq<Tree>, i: int, n: int)
    requires
        0 <= i <= n,
        forall|j: int| 0 <= j < n ==> height(#[trigger] ts[j]) >= 0,
    ensures
        0 <= growth(ts, i) <= growth(ts, n),
    decreases n,
{
    if n > 0 {
        assert(height(ts[n - 1]) >= 0);
    }
    if i < n {
        lemma_growth(ts, i, n - 1);
    } else if n > 0 {
        lemma_growth(ts, n - 1, n - 1);
    }
}

pub proof fn lemma_height(t: Tree)
    ensures
        height(t) >= 0,
    decreases t,
{
    match t {
        Tree::Leaf { .. } => {},
        Tree::Node { pid, ks, kids } => {
            if kids.len() > 0 {
                lemma_height(kids[0]);
            }
        },
    }
}

/// What the indexes hold.
pub type Entries = Seq<Map<Seq<u8>, Rid>>;

/// The first `n` indexes know the row at `rid`.
pub open spec fn entered(
    es: Entries,
    idxs: Seq<IndexMeta>,
    tid: u16,
    row: Seq<ValueView>,
    rid: Rid,
    n: int,
) -> Entries {
    Seq::new(
        es.len(),
        |i: int|
            if i < n && idxs[i].table_id == tid {
                es[i].insert(key_in(idxs[i], row, rid), rid)
            } else {
                es[i]
            },
    )
}

/// The first `n` indexes have forgotten the row at `rid`.
pub open spec fn forgotten(
    es: Entries,
    idxs: Seq<IndexMeta>,
    tid: u16,
    row: Seq<ValueView>,
    rid: Rid,
    n: int,
) -> Entries {
    Seq::new(
        es.len(),
        |i: int|
            if i < n && idxs[i].table_id == tid {
                es[i].remove(key_in(idxs[i], row, rid))
            } else {
                es[i]
            },
    )
}

/// The first `n` indexes know the row at `rid` by its new values.
pub open spec fn exchanged(
    es: Entries,
    idxs: Seq<IndexMeta>,
    tid: u16,
    old_row: Seq<ValueView>,
    new_row: Seq<ValueView>,
    rid: Rid,
    n: int,
) -> Entries {
    Seq::new(
        es.len(),
        |i: int|
            if i < n && touched(idxs[i], tid, old_row, new_row) {
                es[i].remove(key_in(idxs[i], old_row, rid)).insert(
                    key_in(idxs[i], new_row, rid),
                    rid,
                )
            } else {
                es[i]
            },
    )
}

impl<P: Pager> Database<P> {
    /// What the indexes hold.
    pub open spec fn all_entries(&self) -> Entries {
        Seq::new(self.trees@.len(), |i: int| self.entries(i))
    }

    /// The heap came to hold `recs` and the indexes `es`; the definitions of the indexes
    /// follow their trees.
    pub open spec fn became(&self, old: &Self, recs: Map<Rid, Seq<u8>>, es: Entries) -> bool {
        &&& self.bp.reach() == old.bp.reach()
        &&& self.tables == old.tables
        &&& self.next_tid == old.next_tid
        &&& same_indexes(old.indexes@, self.indexes@)
        &&& same_data(recs, self.stored(), old.indexes@)
        &&& es.len() == self.trees@.len()
        &&& forall|i: int| 0 <= i < es.len() ==> #[trigger] self.entries(i) == es[i]
    }

    /// One more index came to hold `m`.
    pub proof fn lemma_became_next(
        &self,
        here: &Self,
        was: &Self,
        recs: Map<Rid, Seq<u8>>,
        es: Entries,
        i: int,
        m: Map<Seq<u8>, Rid>,
    )
        requires
            here.ok(),
            0 <= i < was.indexes@.len(),
            here.became(was, recs, es),
            self.moved_on(here, i),
            self.entries(i) == m,
        ensures
            self.became(was, recs, es.update(i, m)),
    {
        let idxs = was.indexes@;
        assert(here.indexes@[i] == (IndexMeta { root: here.indexes@[i].root, ..idxs[i] }));
        let at = idxs[i].catalog_rid;
        assert(here.indexes@[i].catalog_rid == at);
        assert(here.stored().dom().contains(at)) by {
            reveal(Database::stored);
            lemma_index(here.bp.pages(), here.indexes@, here.trees@, i);
        }
        assert(defines(idxs, at));
        assert forall|j: int| 0 <= j < idxs.len() implies #[trigger] self.indexes@[j] == (IndexMeta {
            root: self.indexes@[j].root,
            ..idxs[j]
        }) by {
            assert(here.indexes@[j] == (IndexMeta { root: here.indexes@[j].root, ..idxs[j] }));
        }
        assert forall|j: int| 0 <= j < self.trees@.len() && j != i implies #[trigger] self.entries(
            j,
        ) == here.entries(j) by {
            reveal(Database::entries);
        }
        let us = es.update(i, m);
        assert forall|j: int| 0 <= j < us.len() implies #[trigger] self.entries(j) == us[j] by {
            if j != i {
                assert(here.entries(j) == es[j]);
            }
        }
    }

    /// Nothing more happened.
    pub proof fn lemma_became_still(
        &self,
        here: &Self,
        was: &Self,
        recs: Map<Rid, Seq<u8>>,
        es: Entries,
    )
        requires
            here.became(was, recs, es),
            self.unmoved(here),
        ensures
            self.became(was, recs, es),
    {
        reveal(Database::entries);
        reveal(Database::stored);
        assert forall|j: int| 0 <= j < es.len() implies #[trigger] self.entries(j)
            == here.entries(j) by {}
    }

    /// The heap came to hold other records than the definitions; no tree was touched.
    pub proof fn lemma_became_first(&self, was: &Self, recs: Map<Rid, Seq<u8>>)
        requires
            was.ok(),
            self.bp.reach() == was.bp.reach(),
            self.tables == was.tables,
            self.next_tid == was.next_tid,
            self.indexes == was.indexes,
            self.trees == was.trees,
            frame(was.bp.pages(), self.bp.pages()),
            records(self.bp.pages()) == recs,
            forall|i: int|
                0 <= i < was.indexes@.len() ==> recs.dom().contains(
                    (#[trigger] was.indexes@[i]).catalog_rid,
                ) && recs[was.indexes@[i].catalog_rid]
                    == was.stored()[was.indexes@[i].catalog_rid],
        ensures
            wired(self.bp.pages(), self.indexes@, self.trees@),
            self.became(was, recs, was.all_entries()),
    {
        reveal(Database::entries);
        reveal(Database::stored);
        lemma_still_wired(was.bp.pages(), self.bp.pages(), was.indexes@, was.trees@);
        assert(same_indexes(was.indexes@, self.indexes@));
        assert forall|j: int| 0 <= j < self.trees@.len() implies #[trigger] self.entries(j)
            == was.all_entries()[j] by {}
    }

    /// Where an index is defined.
    pub proof fn lemma_defined(&self, i: int)
        requires
            self.ok(),
            0 <= i < self.indexes@.len(),
        ensures
            defined(self.stored(), self.indexes@[i]),
    {
        reveal(Database::stored);
        lemma_index(self.bp.pages(), self.indexes@, self.trees@, i);
    }

    /// The row was stored at `rid`, and the first `n` indexes know it.
    pub open spec fn gained(
        &self,
        old: &Self,
        tid: u16,
        row: Seq<ValueView>,
        payload: Seq<u8>,
        rid: Rid,
        n: int,
    ) -> bool {
        &&& !old.stored().dom().contains(rid)
        &&& self.became(
            old,
            old.stored().insert(rid, table_record(tid, payload)),
            entered(old.all_entries(), old.indexes@, tid, row, rid, n),
        )
    }

    /// Store a row and enter it into the indexes of its table.
    #[verifier::rlimit(100)]
    #[verifier::spinoff_prover]
    pub fn insert_row(
        &mut self,
        heap: &mut HeapFile,
        tid: u16,
        row: &Vec<Value>,
        payload: &[u8],
    ) -> (r: Result<Rid, DbError>)
        requires
            old(self).ok(),
            old(heap).ready(&old(self).bp),
            row_fits(old(self).indexes@, tid, views(row@)),
            takes(old(self).trees@, old(self).indexes@, tid, views(row@)),
            old(self).bp.count() + growth(old(self).trees@, old(self).trees@.len() as int) + 1
                <= u32::MAX,
        ensures
            final(self).counts == old(self).counts,
            final(self).bp.pager_ok(),
            final(self).bp.reach() == old(self).bp.reach(),
            match r {
                Ok(rid) => {
                    &&& final(self).ok()
                    &&& final(heap).ready(&final(self).bp)
                    &&& payload@.len() + 2 <= MAX_RECORD
                    &&& final(self).gained(
                        old(self),
                        tid,
                        views(row@),
                        payload@,
                        rid,
                        old(self).indexes@.len() as int,
                    )
                    &&& exists|fresh: Seq<int>|
                        numbers(fresh, old(self).trees@.len() as int) && final(self).trees@
                            == #[trigger] grown_trees(
                            old(self).trees@,
                            old(self).indexes@,
                            tid,
                            views(row@),
                            rid,
                            fresh,
                        )
                    &&& final(self).bp.count() <= old(self).bp.count() + growth(
                        old(self).trees@,
                        old(self).trees@.len() as int,
                    ) + 1
                },
                Err(DbError::Heap(HeapError::RecordTooLarge)) => {
                    &&& payload@.len() + 2 > MAX_RECORD
                    &&& final(self).ok()
                    &&& final(self).unmoved(old(self))
                },
                Err(DbError::Exec(t)) => {
                    &&& t@ == "entry too large for a node"@
                    &&& final(self).ok()
                    &&& exists|rid: Rid, n: int|
                        #![trigger final(self).gained(old(self), tid, views(row@), payload@, rid, n)]
                        {
                            &&& 0 <= n < old(self).indexes@.len()
                            &&& old(self).indexes@[n].table_id == tid
                            &&& key_in(old(self).indexes@[n], views(row@), rid).len() > MAX_KEY
                            &&& final(self).gained(old(self), tid, views(row@), payload@, rid, n)
                        }
                },
                Err(e) => device(e) && !holds_out(&old(self).bp, growth(old(self).trees@, old(self).trees@.len() as int) + 1),
            },
    {
        let ghost rv = views(row@);
        let ghost was = *self;
        let ghost a = self.bp.pages();
        let ghost ts = self.trees@;
        let ghost idxs = self.indexes@;
        let ghost es = self.all_entries();
        let ghost len = ts.len() as int;
        proof {
            assert forall|j: int| 0 <= j < len implies height(#[trigger] ts[j]) >= 0 by {
                lemma_height(ts[j]);
            }
            lemma_growth(ts, 0, len);
        }
        let rec: Vec<u8> = row_record(tid, payload);
        let rid: Rid = match heap.insert(&mut self.bp, rec.as_slice()) {
            Ok(rid) => rid,
            Err(e) => {
                return Err(DbError::Heap(e));
            },
        };
        let ghost recs = was.stored().insert(rid, table_record(tid, payload@));
        proof {
            assert(!was.stored().dom().contains(rid) && records(self.bp.pages()) == recs) by {
                reveal(Database::stored);
                assert(record(a, rid) is None);
            }
            assert forall|j: int| 0 <= j < idxs.len() implies recs.dom().contains(
                (#[trigger] idxs[j]).catalog_rid,
            ) && recs[idxs[j].catalog_rid] == was.stored()[idxs[j].catalog_rid] by {
                was.lemma_defined(j);
            }
            self.lemma_became_first(&was, recs);
            assert(entered(es, idxs, tid, rv, rid, 0) =~= es);
        }
        let count: usize = self.indexes.len();
        let mut i: usize = 0;
        let ghost mut fresh: Seq<int> = Seq::new(len as nat, |j: int| 0);
        while i < count
            invariant
                self.counts == old(self).counts,
                i <= count == idxs.len() == len,
                was == *old(self),
                was.ok(),
                idxs == was.indexes@,
                ts == was.trees@,
                es == was.all_entries(),
                len == ts.len(),
                rv == views(row@),
                recs == was.stored().insert(rid, table_record(tid, payload@)),
                !was.stored().dom().contains(rid),
                self.ok(),
                heap.ready(&self.bp),
                self.bp.reach() == was.bp.reach(),
                self.indexes@.len() == count,
                row_fits(idxs, tid, rv),
                takes(ts, idxs, tid, rv),
                self.became(&was, recs, entered(es, idxs, tid, rv, rid, i as int)),
                was.bp.count() + growth(ts, len) + 1 <= u32::MAX,
                self.bp.count() <= was.bp.count() + growth(ts, i as int) + 1,
                forall|j: int| i <= j < len ==> #[trigger] self.trees@[j] == ts[j],
                numbers(fresh, len),
                forall|j: int|
                    0 <= j < i ==> #[trigger] self.trees@[j] == grown_trees(
                        ts,
                        idxs,
                        tid,
                        rv,
                        rid,
                        fresh,
                    )[j],
                forall|j: int| 0 <= j < len ==> height(#[trigger] ts[j]) >= 0,
                payload@.len() + 2 <= MAX_RECORD,
            decreases count - i,
        {
            let ghost here = *self;
            let ghost so_far = entered(es, idxs, tid, rv, rid, i as int);
            let ghost next = entered(es, idxs, tid, rv, rid, i + 1);
            proof {
                assert(self.indexes@[i as int] == (IndexMeta {
                    root: self.indexes@[i as int].root,
                    ..idxs[i as int]
                }));
                lemma_growth(ts, i + 1, len);
                assert(self.trees@[i as int] == ts[i as int]);
                assert(self.entries(i as int) == so_far[i as int]);
            }
            if self.indexes[i].table_id == tid {
                let c: usize = self.indexes[i].col_index;
                assert(idxs[i as int].table_id == tid);
                assert(rv[c as int] == row@[c as int]@);
                let key: Vec<u8> = index_key(self.indexes[i].col_type, &row[c], rid);
                assert(key@ == key_in(idxs[i as int], rv, rid));
                match self.put_entry(heap, i, key.as_slice(), rid) {
                    Ok(()) => {},
                    Err(e) => {
                        proof {
                            if e is Exec {
                                self.lemma_became_still(&here, &was, recs, so_far);
                                assert(key_in(idxs[i as int], rv, rid).len() > MAX_KEY);
                                assert(self.gained(
                                    old(self),
                                    tid,
                                    views(row@),
                                    payload@,
                                    rid,
                                    i as int,
                                ));
                            }
                        }
                        return Err(e);
                    },
                }
                proof {
                    let m = es[i as int].insert(key@, rid);
                    self.lemma_became_next(&here, &was, recs, so_far, i as int, m);
                    assert(so_far.update(i as int, m) =~= next);
                    let was_fresh = fresh;
                    fresh = fresh.update(i as int, here.bp.count() as int);
                    assert forall|j: int| 0 <= j < i + 1 implies #[trigger] self.trees@[j]
                        == grown_trees(ts, idxs, tid, rv, rid, fresh)[j] by {
                        if j < i {
                            assert(here.trees@[j] == grown_trees(
                                ts,
                                idxs,
                                tid,
                                rv,
                                rid,
                                was_fresh,
                            )[j]);
                        }
                    }
                }
            } else {
                assert(so_far =~= next);
            }
            i = i + 1;
        }
        proof {
            assert(self.trees@ =~= grown_trees(ts, idxs, tid, rv, rid, fresh));
            assert(self.gained(old(self), tid, views(row@), payload@, rid, len));
            assert(payload@.len() + 2 <= MAX_RECORD);
            assert(self.bp.count() <= was.bp.count() + growth(ts, len) + 1);
            assert(numbers(fresh, old(self).trees@.len() as int) && self.trees@ == grown_trees(
                old(self).trees@,
                old(self).indexes@,
                tid,
                views(row@),
                rid,
                fresh,
            ));
            assert(self.ok());
            assert(heap.ready(&self.bp));
            assert(self.bp.count() <= old(self).bp.count() + growth(
                old(self).trees@,
                old(self).trees@.len() as int,
            ) + 1);
            assert(self.gained(
                old(self),
                tid,
                views(row@),
                payload@,
                rid,
                old(self).indexes@.len() as int,
            ));
        }
        Ok(rid)
    }

    /// The row at `rid` is gone, and the first `n` indexes have forgotten it.
    pub open spec fn lost(
        &self,
        old: &Self,
        tid: u16,
        row: Seq<ValueView>,
        rid: Rid,
        n: int,
    ) -> bool {
        self.became(
            old,
            old.stored().remove(rid),
            forgotten(old.all_entries(), old.indexes@, tid, row, rid, n),
        )
    }

    /// Delete a row and its entries in the indexes of its table.
    #[verifier::rlimit(60)]
    #[verifier::spinoff_prover]
    pub fn delete_row(&mut self, heap: &mut HeapFile, tid: u16, rid: Rid, row: &Vec<Value>) -> (r: Result<
        (),
        DbError,
    >)
        requires
            old(self).ok(),
            old(heap).ready(&old(self).bp),
            old(self).stored().dom().contains(rid),
            !defines(old(self).indexes@, rid),
            row_fits(old(self).indexes@, tid, views(row@)),
        ensures
            final(self).counts == old(self).counts,
            final(self).bp.pager_ok(),
            final(self).bp.reach() == old(self).bp.reach(),
            final(self).bp.count() == old(self).bp.count(),
            match r {
                Ok(()) => {
                    &&& final(self).ok()
                    &&& final(heap).ready(&final(self).bp)
                    &&& final(self).lost(
                        old(self),
                        tid,
                        views(row@),
                        rid,
                        old(self).indexes@.len() as int,
                    )
                },
                Err(e) => device(e) && !holds_out(&old(self).bp, 0),
            },
    {
        let ghost rv = views(row@);
        let ghost was = *self;
        let ghost a = self.bp.pages();
        let ghost idxs = self.indexes@;
        let ghost es = self.all_entries();
        proof {
            reveal(Database::stored);
            lemma_reachable(a, rid);
        }
        match heap.delete(&mut self.bp, rid) {
            Ok(_) => {},
            Err(e) => {
                return Err(DbError::Heap(e));
            },
        }
        let ghost recs = was.stored().remove(rid);
        proof {
            assert forall|j: int| 0 <= j < idxs.len() implies recs.dom().contains(
                (#[trigger] idxs[j]).catalog_rid,
            ) && recs[idxs[j].catalog_rid] == was.stored()[idxs[j].catalog_rid] by {
                was.lemma_defined(j);
                assert(defines(idxs, idxs[j].catalog_rid));
            }
            self.lemma_became_first(&was, recs);
            assert(forgotten(es, idxs, tid, rv, rid, 0) =~= es);
        }
        let count: usize = self.indexes.len();
        let mut i: usize = 0;
        while i < count
            invariant
                self.counts == old(self).counts,
                i <= count == idxs.len(),
                was == *old(self),
                was.ok(),
                idxs == was.indexes@,
                es == was.all_entries(),
                es.len() == idxs.len(),
                rv == views(row@),
                recs == was.stored().remove(rid),
                self.ok(),
                heap.ready(&self.bp),
                self.bp.count() == was.bp.count(),
                self.indexes@.len() == count,
                row_fits(idxs, tid, rv),
                self.became(&was, recs, forgotten(es, idxs, tid, rv, rid, i as int)),
            decreases count - i,
        {
            let ghost here = *self;
            let ghost so_far = forgotten(es, idxs, tid, rv, rid, i as int);
            let ghost next = forgotten(es, idxs, tid, rv, rid, i + 1);
            proof {
                assert(self.indexes@[i as int] == (IndexMeta {
                    root: self.indexes@[i as int].root,
                    ..idxs[i as int]
                }));
                assert(self.entries(i as int) == so_far[i as int]);
            }
            if self.indexes[i].table_id == tid {
                let c: usize = self.indexes[i].col_index;
                assert(idxs[i as int].table_id == tid);
                assert(rv[c as int] == row@[c as int]@);
                let key: Vec<u8> = index_key(self.indexes[i].col_type, &row[c], rid);
                assert(key@ == key_in(idxs[i as int], rv, rid));
                match self.cut_entry(heap, i, key.as_slice()) {
                    Ok(()) => {},
                    Err(e) => {
                        return Err(e);
                    },
                }
                proof {
                    let m = es[i as int].remove(key@);
                    self.lemma_became_next(&here, &was, recs, so_far, i as int, m);
                    assert(so_far.update(i as int, m) =~= next);
                }
            } else {
                assert(so_far =~= next);
            }
            i = i + 1;
        }
        Ok(())
    }

    /// The row at `rid` was replaced, and the first `n` indexes know its new values.
    pub open spec fn changed(
        &self,
        old: &Self,
        tid: u16,
        old_row: Seq<ValueView>,
        new_row: Seq<ValueView>,
        payload: Seq<u8>,
        rid: Rid,
        n: int,
    ) -> bool {
        self.became(
            old,
            old.stored().insert(rid, table_record(tid, payload)),
            exchanged(old.all_entries(), old.indexes@, tid, old_row, new_row, rid, n),
        )
    }

    /// The row at `rid` was replaced, the first `n` indexes know its new values, and
    /// index `n` knows neither these nor the old ones.
    pub open spec fn half_changed(
        &self,
        old: &Self,
        tid: u16,
        old_row: Seq<ValueView>,
        new_row: Seq<ValueView>,
        payload: Seq<u8>,
        rid: Rid,
        n: int,
    ) -> bool {
        self.became(
            old,
            old.stored().insert(rid, table_record(tid, payload)),
            exchanged(old.all_entries(), old.indexes@, tid, old_row, new_row, rid, n).update(
                n,
                old.entries(n).remove(key_in(old.indexes@[n], old_row, rid)),
            ),
        )
    }

    /// Replace a row and its entries in those indexes of its table whose column changed.
    #[verifier::rlimit(80)]
    #[verifier::spinoff_prover]
    pub fn update_row(
        &mut self,
        heap: &mut HeapFile,
        tid: u16,
        rid: Rid,
        old_row: &Vec<Value>,
        new_row: &Vec<Value>,
        payload: &[u8],
    ) -> (r: Result<(), DbError>)
        requires
            old(self).ok(),
            old(heap).ready(&old(self).bp),
            old(self).stored().dom().contains(rid),
            !defines(old(self).indexes@, rid),
            row_fits(old(self).indexes@, tid, views(old_row@)),
            row_fits(old(self).indexes@, tid, views(new_row@)),
            retakes(
                old(self).trees@,
                old(self).indexes@,
                tid,
                views(old_row@),
                views(new_row@),
                rid,
            ),
            old(self).bp.count() + growth(old(self).trees@, old(self).trees@.len() as int) + 1
                <= u32::MAX,
        ensures
            final(self).counts == old(self).counts,
            final(self).bp.pager_ok(),
            final(self).bp.reach() == old(self).bp.reach(),
            match r {
                Ok(()) => {
                    &&& final(self).ok()
                    &&& final(heap).ready(&final(self).bp)
                    &&& update_result(old(self).bp.pages(), rid, payload@.len() + 2int) == Ok::<
                        bool,
                        HeapError,
                    >(true)
                    &&& final(self).changed(
                        old(self),
                        tid,
                        views(old_row@),
                        views(new_row@),
                        payload@,
                        rid,
                        old(self).indexes@.len() as int,
                    )
                    &&& exists|fresh: Seq<int>|
                        numbers(fresh, old(self).trees@.len() as int) && final(self).trees@
                            == #[trigger] regrown_trees(
                            old(self).trees@,
                            old(self).indexes@,
                            tid,
                            views(old_row@),
                            views(new_row@),
                            rid,
                            fresh,
                        )
                    &&& final(self).bp.count() <= old(self).bp.count() + growth(
                        old(self).trees@,
                        old(self).trees@.len() as int,
                    ) + 1
                },
                Err(DbError::Exec(t)) => {
                    &&& t@ == "entry too large for a node"@
                    &&& final(self).ok()
                    &&& exists|n: int|
                        0 <= n < old(self).indexes@.len() && touched(
                            old(self).indexes@[n],
                            tid,
                            views(old_row@),
                            views(new_row@),
                        ) && key_in(old(self).indexes@[n], views(new_row@), rid).len() > MAX_KEY
                            && #[trigger] final(self).half_changed(
                            old(self),
                            tid,
                            views(old_row@),
                            views(new_row@),
                            payload@,
                            rid,
                            n,
                        )
                },
                Err(e) => {
                    ||| device(e) && !holds_out(&old(self).bp, growth(old(self).trees@, old(self).trees@.len() as int) + 1)
                    ||| {
                        &&& e matches DbError::Heap(h) && update_result(
                            old(self).bp.pages(),
                            rid,
                            payload@.len() + 2int,
                        ) == Err::<bool, HeapError>(h)
                        &&& final(self).ok()
                        &&& final(self).became(
                            old(self),
                            old(self).stored(),
                            old(self).all_entries(),
                        )
                    }
                },
            },
    {
        let ghost ov = views(old_row@);
        let ghost nv = views(new_row@);
        let ghost was = *self;
        let ghost a = self.bp.pages();
        let ghost ts = self.trees@;
        let ghost idxs = self.indexes@;
        let ghost es = self.all_entries();
        let ghost len = ts.len() as int;
        proof {
            assert forall|j: int| 0 <= j < len implies height(#[trigger] ts[j]) >= 0 by {
                lemma_height(ts[j]);
            }
            lemma_growth(ts, 0, len);
            reveal(Database::stored);
            lemma_reachable(a, rid);
        }
        let rec: Vec<u8> = row_record(tid, payload);
        match heap.update(&mut self.bp, rid, rec.as_slice()) {
            Ok(_) => {},
            Err(e) => {
                proof {
                    if !(e is Buffer) {
                        let b = self.bp.pages();
                        lemma_cells_same(a, b);
                        assert forall|j: int| 0 <= j < idxs.len() implies records(b).dom().contains(
                            (#[trigger] idxs[j]).catalog_rid,
                        ) && records(b)[idxs[j].catalog_rid]
                            == was.stored()[idxs[j].catalog_rid] by {
                            was.lemma_defined(j);
                        }
                        self.lemma_became_first(&was, records(b));
                    }
                }
                return Err(DbError::Heap(e));
            },
        }
        let ghost recs = was.stored().insert(rid, table_record(tid, payload@));
        proof {
            lemma_updated_frame(a, self.bp.pages(), rid, rec@);
            assert forall|j: int| 0 <= j < idxs.len() implies recs.dom().contains(
                (#[trigger] idxs[j]).catalog_rid,
            ) && recs[idxs[j].catalog_rid] == was.stored()[idxs[j].catalog_rid] by {
                was.lemma_defined(j);
                assert(defines(idxs, idxs[j].catalog_rid));
            }
            self.lemma_became_first(&was, recs);
            assert(exchanged(es, idxs, tid, ov, nv, rid, 0) =~= es);
        }
        let count: usize = self.indexes.len();
        let mut i: usize = 0;
        let ghost mut fresh: Seq<int> = Seq::new(len as nat, |j: int| 0);
        while i < count
            invariant
                self.counts == old(self).counts,
                i <= count == idxs.len() == len,
                was == *old(self),
                was.ok(),
                idxs == was.indexes@,
                ts == was.trees@,
                es == was.all_entries(),
                len == ts.len(),
                ov == views(old_row@),
                nv == views(new_row@),
                recs == was.stored().insert(rid, table_record(tid, payload@)),
                self.ok(),
                heap.ready(&self.bp),
                self.bp.reach() == was.bp.reach(),
                self.indexes@.len() == count,
                row_fits(idxs, tid, ov),
                row_fits(idxs, tid, nv),
                retakes(ts, idxs, tid, ov, nv, rid),
                self.became(&was, recs, exchanged(es, idxs, tid, ov, nv, rid, i as int)),
                was.bp.count() + growth(ts, len) + 1 <= u32::MAX,
                self.bp.count() <= was.bp.count() + growth(ts, i as int) + 1,
                forall|j: int| i <= j < len ==> #[trigger] self.trees@[j] == ts[j],
                numbers(fresh, len),
                forall|j: int|
                    0 <= j < i ==> #[trigger] self.trees@[j] == regrown_trees(
                        ts,
                        idxs,
                        tid,
                        ov,
                        nv,
                        rid,
                        fresh,
                    )[j],
                forall|j: int| 0 <= j < len ==> height(#[trigger] ts[j]) >= 0,
                update_result(was.bp.pages(), rid, payload@.len() + 2int) == Ok::<bool, HeapError>(
                    true,
                ),
            decreases count - i,
        {
            let ghost here = *self;
            let ghost so_far = exchanged(es, idxs, tid, ov, nv, rid, i as int);
            let ghost next = exchanged(es, idxs, tid, ov, nv, rid, i + 1);
            let mut differs: bool = false;
            proof {
                assert(self.indexes@[i as int] == (IndexMeta {
                    root: self.indexes@[i as int].root,
                    ..idxs[i as int]
                }));
                lemma_growth(ts, i + 1, len);
                assert(self.trees@[i as int] == ts[i as int]);
                assert(self.entries(i as int) == so_far[i as int]);
            }
            let c: usize = self.indexes[i].col_index;
            if self.indexes[i].table_id == tid {
                assert(idxs[i as int].table_id == tid);
                assert(ov[c as int] == old_row@[c as int]@);
                assert(nv[c as int] == new_row@[c as int]@);
                differs = !old_row[c].same(&new_row[c]);
            }
            assert(differs == touched(idxs[i as int], tid, ov, nv));
            if differs {
                let gone: Vec<u8> = index_key(self.indexes[i].col_type, &old_row[c], rid);
                let key: Vec<u8> = index_key(self.indexes[i].col_type, &new_row[c], rid);
                assert(gone@ == key_in(idxs[i as int], ov, rid));
                assert(key@ == key_in(idxs[i as int], nv, rid));
                match self.cut_entry(heap, i, gone.as_slice()) {
                    Ok(()) => {},
                    Err(e) => {
                        return Err(e);
                    },
                }
                let ghost half = *self;
                let ghost m0 = es[i as int].remove(gone@);
                let ghost between = so_far.update(i as int, m0);
                proof {
                    self.lemma_became_next(&here, &was, recs, so_far, i as int, m0);
                    lemma_shrink_height(ts[i as int], gone@);
                    assert(self.trees@[i as int] == shrink(ts[i as int], gone@));
                }
                match self.put_entry(heap, i, key.as_slice(), rid) {
                    Ok(()) => {},
                    Err(e) => {
                        proof {
                            if e is Exec {
                                self.lemma_became_still(&half, &was, recs, between);
                                assert(key_in(idxs[i as int], nv, rid).len() > MAX_KEY);
                                assert(es[i as int] == was.entries(i as int));
                                assert(self.half_changed(
                                    old(self),
                                    tid,
                                    views(old_row@),
                                    views(new_row@),
                                    payload@,
                                    rid,
                                    i as int,
                                ));
                            }
                        }
                        return Err(e);
                    },
                }
                proof {
                    let m = m0.insert(key@, rid);
                    self.lemma_became_next(&half, &was, recs, between, i as int, m);
                    assert(between.update(i as int, m) =~= next);
                    let was_fresh = fresh;
                    fresh = fresh.update(i as int, half.bp.count() as int);
                    assert forall|j: int| 0 <= j < i + 1 implies #[trigger] self.trees@[j]
                        == regrown_trees(ts, idxs, tid, ov, nv, rid, fresh)[j] by {
                        if j < i {
                            assert(half.trees@[j] == here.trees@[j]);
                            assert(here.trees@[j] == regrown_trees(
                                ts,
                                idxs,
                                tid,
                                ov,
                                nv,
                                rid,
                                was_fresh,
                            )[j]);
                        }
                    }
                }
            } else {
                assert(so_far =~= next);
            }
            i = i + 1;
        }
        proof {
            assert(self.trees@ =~= regrown_trees(ts, idxs, tid, ov, nv, rid, fresh));
            assert(self.changed(
                old(self),
                tid,
                views(old_row@),
                views(new_row@),
                payload@,
                rid,
                len,
            ));
            assert(numbers(fresh, old(self).trees@.len() as int) && self.trees@ == regrown_trees(
                old(self).trees@,
                old(self).indexes@,
                tid,
                views(old_row@),
                views(new_row@),
                rid,
                fresh,
            ));
        }
        Ok(())
    }
}

} // verus!
