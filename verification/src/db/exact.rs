//! What the indexes of a table know of its rows.

use vstd::prelude::*;

use crate::db::ast::BinOp;
use crate::db::catalog::{bounds_of, compares, in_range, law_index_range_is_exact, IndexMeta};
use crate::db::define::{gathered, keys_for};
use crate::db::dml::touched;
use crate::db::rows::{all_entered, all_exchanged, ChangeView};
use crate::db::statement::{all_forgotten, Placed};
use crate::db::store::{entered, exchanged, forgotten, key_in, Entries};
use crate::heap::{law_rid_roundtrip, rid_bytes, Rid};
use crate::keys::encoded;
use crate::types::{fits_type, ValueView};

verus! {

/// The rows of a table by where they are stored.
pub type Rows = Map<Rid, Seq<ValueView>>;

/// Key `k` is that of the row at `r`.
pub open spec fn is_key_of(m: IndexMeta, rows: Rows, k: Seq<u8>, r: Rid) -> bool {
    rows.dom().contains(r) && key_in(m, rows[r], r) == k
}

/// What an index on these rows holds: the key of every row, and where the row is.
pub open spec fn entries_of(m: IndexMeta, rows: Rows) -> Map<Seq<u8>, Rid> {
    Map::new(
        |k: Seq<u8>| exists|r: Rid| is_key_of(m, rows, k, r),
        |k: Seq<u8>| choose|r: Rid| is_key_of(m, rows, k, r),
    )
}

/// Every index on table `tid` holds exactly its rows.
pub open spec fn exact(es: Entries, idxs: Seq<IndexMeta>, tid: u16, rows: Rows) -> bool {
    &&& es.len() == idxs.len()
    &&& forall|i: int|
        0 <= i < idxs.len() && (#[trigger] idxs[i]).table_id == tid ==> es[i] == entries_of(
            idxs[i],
            rows,
        )
}

/// Keys of rows at two places differ.
proof fn lemma_keys_differ(m: IndexMeta, a: Seq<ValueView>, b: Seq<ValueView>, r: Rid, s: Rid)
    requires
        key_in(m, a, r) == key_in(m, b, s),
    ensures
        r == s,
{
    let k = key_in(m, a, r);
    let n = k.len() - 6;
    assert(rid_bytes(r).len() == 6 && rid_bytes(s).len() == 6);
    assert(k.subrange(n, n + 6) =~= rid_bytes(r));
    assert(k.subrange(n, n + 6) =~= rid_bytes(s));
    law_rid_roundtrip(k, n, r);
    law_rid_roundtrip(k, n, s);
}

/// The key of a row leads to the row.
pub proof fn law_an_entry_leads_to_its_row(m: IndexMeta, rows: Rows, r: Rid)
    requires
        rows.dom().contains(r),
    ensures
        entries_of(m, rows).dom().contains(key_in(m, rows[r], r)),
        entries_of(m, rows)[key_in(m, rows[r], r)] == r,
{
    let k = key_in(m, rows[r], r);
    assert(is_key_of(m, rows, k, r));
    let s = choose|s: Rid| is_key_of(m, rows, k, s);
    lemma_keys_differ(m, rows[r], rows[s], r, s);
}

proof fn lemma_insert(m: IndexMeta, rows: Rows, rid: Rid, row: Seq<ValueView>)
    requires
        !rows.dom().contains(rid),
    ensures
        entries_of(m, rows).insert(key_in(m, row, rid), rid) == entries_of(
            m,
            rows.insert(rid, row),
        ),
{
    let now = rows.insert(rid, row);
    let k0 = key_in(m, row, rid);
    let a = entries_of(m, rows).insert(k0, rid);
    let b = entries_of(m, now);
    law_an_entry_leads_to_its_row(m, now, rid);
    assert forall|k: Seq<u8>| #[trigger] a.dom().contains(k) <==> b.dom().contains(k) by {
        if a.dom().contains(k) && k != k0 {
            let r = choose|r: Rid| is_key_of(m, rows, k, r);
            assert(is_key_of(m, now, k, r));
        }
        if b.dom().contains(k) && k != k0 {
            let r = choose|r: Rid| is_key_of(m, now, k, r);
            assert(is_key_of(m, rows, k, r));
        }
    }
    assert forall|k: Seq<u8>| #[trigger] a.dom().contains(k) implies a[k] == b[k] by {
        if k != k0 {
            let r = choose|r: Rid| is_key_of(m, rows, k, r);
            assert(is_key_of(m, now, k, r));
            law_an_entry_leads_to_its_row(m, rows, r);
            law_an_entry_leads_to_its_row(m, now, r);
        }
    }
    assert(a =~= b);
}

proof fn lemma_remove(m: IndexMeta, rows: Rows, rid: Rid)
    requires
        rows.dom().contains(rid),
    ensures
        entries_of(m, rows).remove(key_in(m, rows[rid], rid)) == entries_of(m, rows.remove(rid)),
{
    let now = rows.remove(rid);
    let k0 = key_in(m, rows[rid], rid);
    let a = entries_of(m, rows).remove(k0);
    let b = entries_of(m, now);
    assert forall|k: Seq<u8>| #[trigger] a.dom().contains(k) <==> b.dom().contains(k) by {
        if a.dom().contains(k) {
            let r = choose|r: Rid| is_key_of(m, rows, k, r);
            assert(is_key_of(m, now, k, r));
        }
        if b.dom().contains(k) {
            let r = choose|r: Rid| is_key_of(m, now, k, r);
            assert(is_key_of(m, rows, k, r));
            if k == k0 {
                lemma_keys_differ(m, rows[r], rows[rid], r, rid);
            }
        }
    }
    assert forall|k: Seq<u8>| #[trigger] a.dom().contains(k) implies a[k] == b[k] by {
        let r = choose|r: Rid| is_key_of(m, rows, k, r);
        assert(is_key_of(m, now, k, r));
        law_an_entry_leads_to_its_row(m, rows, r);
        law_an_entry_leads_to_its_row(m, now, r);
    }
    assert(a =~= b);
}

/// Storing a row keeps every index of its table exact.
pub proof fn law_insertion_keeps_indexes_exact(
    es: Entries,
    idxs: Seq<IndexMeta>,
    tid: u16,
    rows: Rows,
    rid: Rid,
    row: Seq<ValueView>,
)
    requires
        exact(es, idxs, tid, rows),
        !rows.dom().contains(rid),
    ensures
        exact(
            entered(es, idxs, tid, row, rid, idxs.len() as int),
            idxs,
            tid,
            rows.insert(rid, row),
        ),
{
    assert forall|i: int| 0 <= i < idxs.len() && (#[trigger] idxs[i]).table_id == tid implies entered(
        es,
        idxs,
        tid,
        row,
        rid,
        idxs.len() as int,
    )[i] == entries_of(idxs[i], rows.insert(rid, row)) by {
        lemma_insert(idxs[i], rows, rid, row);
    }
}

/// Deleting a row keeps every index of its table exact.
pub proof fn law_deletion_keeps_indexes_exact(
    es: Entries,
    idxs: Seq<IndexMeta>,
    tid: u16,
    rows: Rows,
    rid: Rid,
)
    requires
        exact(es, idxs, tid, rows),
        rows.dom().contains(rid),
    ensures
        exact(
            forgotten(es, idxs, tid, rows[rid], rid, idxs.len() as int),
            idxs,
            tid,
            rows.remove(rid),
        ),
{
    assert forall|i: int| 0 <= i < idxs.len() && (#[trigger] idxs[i]).table_id
        == tid implies forgotten(es, idxs, tid, rows[rid], rid, idxs.len() as int)[i] == entries_of(
        idxs[i],
        rows.remove(rid),
    ) by {
        lemma_remove(idxs[i], rows, rid);
    }
}

/// Replacing a row keeps every index of its table exact.
pub proof fn law_replacement_keeps_indexes_exact(
    es: Entries,
    idxs: Seq<IndexMeta>,
    tid: u16,
    rows: Rows,
    rid: Rid,
    row: Seq<ValueView>,
)
    requires
        exact(es, idxs, tid, rows),
        rows.dom().contains(rid),
    ensures
        exact(
            exchanged(es, idxs, tid, rows[rid], row, rid, idxs.len() as int),
            idxs,
            tid,
            rows.insert(rid, row),
        ),
{
    let was = rows[rid];
    let less = rows.remove(rid);
    let now = rows.insert(rid, row);
    assert forall|i: int| 0 <= i < idxs.len() && (#[trigger] idxs[i]).table_id
        == tid implies exchanged(es, idxs, tid, was, row, rid, idxs.len() as int)[i] == entries_of(
        idxs[i],
        now,
    ) by {
        let m = idxs[i];
        lemma_remove(m, rows, rid);
        lemma_insert(m, less, rid, row);
        assert(less.insert(rid, row) =~= now);
        if !touched(m, tid, was, row) {
            law_an_entry_leads_to_its_row(m, rows, rid);
            let k = key_in(m, was, rid);
            let e = entries_of(m, rows);
            assert(e.remove(k).insert(k, rid) =~= e);
        }
    }
}

/// An exact index leaves the rows of other tables out: it changes with none of them.
pub proof fn law_other_tables_are_left_alone(
    es: Entries,
    idxs: Seq<IndexMeta>,
    tid: u16,
    rows: Rows,
    other: u16,
    rid: Rid,
    old_row: Seq<ValueView>,
    new_row: Seq<ValueView>,
)
    requires
        exact(es, idxs, tid, rows),
        other != tid,
    ensures
        exact(entered(es, idxs, other, new_row, rid, idxs.len() as int), idxs, tid, rows),
        exact(forgotten(es, idxs, other, old_row, rid, idxs.len() as int), idxs, tid, rows),
        exact(exchanged(es, idxs, other, old_row, new_row, rid, idxs.len() as int), idxs, tid, rows),
{
}

/// A lookup in an exact index finds exactly the rows whose column compares to the
/// value looked for.
pub proof fn law_index_lookups_are_exact(m: IndexMeta, rows: Rows, op: BinOp, w: ValueView, r: Rid)
    requires
        rows.dom().contains(r),
        m.col_index < rows[r].len(),
        fits_type(m.col_type, rows[r][m.col_index as int]),
        fits_type(m.col_type, w),
        r != (Rid { page: 0xFFFF_FFFF, slot: 0xFFFF }),
    ensures
        compares(op, rows[r][m.col_index as int], w) <==> exists|k: Seq<u8>|
            entries_of(m, rows).dom().contains(k) && #[trigger] entries_of(m, rows)[k] == r
                && in_range(k, bounds_of(op, encoded(w)).0, bounds_of(op, encoded(w)).1),
{
    let k0 = key_in(m, rows[r], r);
    let e = entries_of(m, rows);
    law_an_entry_leads_to_its_row(m, rows, r);
    law_index_range_is_exact(m.col_type, op, rows[r][m.col_index as int], w, r);
    assert(e[k0] == r);
    assert forall|k: Seq<u8>| e.dom().contains(k) && #[trigger] e[k] == r implies k == k0 by {
        assert(exists|s: Rid| is_key_of(m, rows, k, s));
        let s = choose|s: Rid| is_key_of(m, rows, k, s);
        assert(e[k] == s);
    }
}

// ---- many rows ----

/// The rows with `n` more of them at new places.
pub open spec fn rows_with(rows: Rows, vs: Seq<Seq<ValueView>>, rids: Seq<Rid>, n: int) -> Rows
    decreases n,
{
    if n <= 0 {
        rows
    } else {
        rows_with(rows, vs, rids, n - 1).insert(rids[n - 1], vs[n - 1])
    }
}

proof fn lemma_rows_with(rows: Rows, vs: Seq<Seq<ValueView>>, rids: Seq<Rid>, n: int, r: Rid)
    requires
        0 <= n <= rids.len(),
        !rows.dom().contains(r),
        forall|i: int| 0 <= i < n ==> #[trigger] rids[i] != r,
    ensures
        !rows_with(rows, vs, rids, n).dom().contains(r),
    decreases n,
{
    if n > 0 {
        lemma_rows_with(rows, vs, rids, n - 1, r);
        assert(rids[n - 1] != r);
    }
}

/// Storing rows one after the other keeps every index of their table exact.
pub proof fn law_insertions_keep_indexes_exact(
    es: Entries,
    idxs: Seq<IndexMeta>,
    tid: u16,
    rows: Rows,
    vs: Seq<Seq<ValueView>>,
    rids: Seq<Rid>,
    n: int,
)
    requires
        exact(es, idxs, tid, rows),
        0 <= n <= rids.len(),
        rids.no_duplicates(),
        forall|i: int| 0 <= i < rids.len() ==> !rows.dom().contains(#[trigger] rids[i]),
    ensures
        exact(all_entered(es, idxs, tid, vs, rids, n), idxs, tid, rows_with(rows, vs, rids, n)),
    decreases n,
{
    if n > 0 {
        law_insertions_keep_indexes_exact(es, idxs, tid, rows, vs, rids, n - 1);
        assert forall|i: int| 0 <= i < n - 1 implies #[trigger] rids[i] != rids[n - 1] by {}
        lemma_rows_with(rows, vs, rids, n - 1, rids[n - 1]);
        law_insertion_keeps_indexes_exact(
            all_entered(es, idxs, tid, vs, rids, n - 1),
            idxs,
            tid,
            rows_with(rows, vs, rids, n - 1),
            rids[n - 1],
            vs[n - 1],
        );
    }
}

/// The rows without the first `n` of some.
pub open spec fn rows_without(rows: Rows, vs: Seq<Placed>, n: int) -> Rows
    decreases n,
{
    if n <= 0 {
        rows
    } else {
        rows_without(rows, vs, n - 1).remove(vs[n - 1].0)
    }
}

proof fn lemma_rows_without(rows: Rows, vs: Seq<Placed>, n: int, r: Rid)
    requires
        0 <= n <= vs.len(),
        rows.dom().contains(r),
        forall|i: int| 0 <= i < n ==> (#[trigger] vs[i]).0 != r,
    ensures
        rows_without(rows, vs, n).dom().contains(r),
        rows_without(rows, vs, n)[r] == rows[r],
    decreases n,
{
    if n > 0 {
        lemma_rows_without(rows, vs, n - 1, r);
        assert(vs[n - 1].0 != r);
    }
}

/// Deleting rows one after the other keeps every index of their table exact.
pub proof fn law_deletions_keep_indexes_exact(
    es: Entries,
    idxs: Seq<IndexMeta>,
    tid: u16,
    rows: Rows,
    vs: Seq<Placed>,
    n: int,
)
    requires
        exact(es, idxs, tid, rows),
        0 <= n <= vs.len(),
        forall|i: int|
            0 <= i < vs.len() ==> rows.dom().contains((#[trigger] vs[i]).0) && rows[vs[i].0]
                == vs[i].1,
        forall|i: int, j: int|
            0 <= i < j < vs.len() ==> (#[trigger] vs[i]).0 != (#[trigger] vs[j]).0,
    ensures
        exact(all_forgotten(es, idxs, tid, vs, n), idxs, tid, rows_without(rows, vs, n)),
    decreases n,
{
    if n > 0 {
        law_deletions_keep_indexes_exact(es, idxs, tid, rows, vs, n - 1);
        let w = vs[n - 1];
        assert forall|i: int| 0 <= i < n - 1 implies (#[trigger] vs[i]).0 != w.0 by {}
        lemma_rows_without(rows, vs, n - 1, w.0);
        law_deletion_keeps_indexes_exact(
            all_forgotten(es, idxs, tid, vs, n - 1),
            idxs,
            tid,
            rows_without(rows, vs, n - 1),
            w.0,
        );
    }
}

/// The rows after the first `n` changes.
pub open spec fn rows_changed(rows: Rows, ws: Seq<ChangeView>, n: int) -> Rows
    decreases n,
{
    if n <= 0 {
        rows
    } else {
        rows_changed(rows, ws, n - 1).insert(ws[n - 1].rid, ws[n - 1].new_row)
    }
}

proof fn lemma_rows_changed(rows: Rows, ws: Seq<ChangeView>, n: int, r: Rid)
    requires
        0 <= n <= ws.len(),
        rows.dom().contains(r),
        forall|i: int| 0 <= i < n ==> (#[trigger] ws[i]).rid != r,
    ensures
        rows_changed(rows, ws, n).dom().contains(r),
        rows_changed(rows, ws, n)[r] == rows[r],
    decreases n,
{
    if n > 0 {
        lemma_rows_changed(rows, ws, n - 1, r);
        assert(ws[n - 1].rid != r);
    }
}

/// Replacing rows one after the other keeps every index of their table exact.
pub proof fn law_replacements_keep_indexes_exact(
    es: Entries,
    idxs: Seq<IndexMeta>,
    tid: u16,
    rows: Rows,
    ws: Seq<ChangeView>,
    n: int,
)
    requires
        exact(es, idxs, tid, rows),
        0 <= n <= ws.len(),
        forall|i: int|
            0 <= i < ws.len() ==> rows.dom().contains((#[trigger] ws[i]).rid) && rows[ws[i].rid]
                == ws[i].old_row,
        forall|i: int, j: int|
            0 <= i < j < ws.len() ==> (#[trigger] ws[i]).rid != (#[trigger] ws[j]).rid,
    ensures
        exact(all_exchanged(es, idxs, tid, ws, n), idxs, tid, rows_changed(rows, ws, n)),
    decreases n,
{
    if n > 0 {
        law_replacements_keep_indexes_exact(es, idxs, tid, rows, ws, n - 1);
        let w = ws[n - 1];
        assert forall|i: int| 0 <= i < n - 1 implies (#[trigger] ws[i]).rid != w.rid by {}
        lemma_rows_changed(rows, ws, n - 1, w.rid);
        law_replacement_keeps_indexes_exact(
            all_exchanged(es, idxs, tid, ws, n - 1),
            idxs,
            tid,
            rows_changed(rows, ws, n - 1),
            w.rid,
            w.new_row,
        );
    }
}

/// The column of the first `n` of the listed rows is that of the rows of the table.
pub open spec fn lists_column(
    listed: Seq<(Rid, ValueView)>,
    m: IndexMeta,
    rows: Rows,
) -> bool {
    &&& forall|i: int|
        0 <= i < listed.len() ==> rows.dom().contains((#[trigger] listed[i]).0)
            && rows[listed[i].0][m.col_index as int] == listed[i].1
    &&& forall|r: Rid| #[trigger]
        rows.dom().contains(r) ==> exists|i: int|
            0 <= i < listed.len() && (#[trigger] listed[i]).0 == r
}

proof fn lemma_gathered(listed: Seq<(Rid, ValueView)>, m: IndexMeta, rows: Rows, n: int)
    requires
        lists_column(listed, m, rows),
        0 <= n <= listed.len(),
    ensures
        ({
            let g = gathered(keys_for(listed), n);
            &&& forall|k: Seq<u8>| #[trigger]
                g.dom().contains(k) ==> is_key_of(m, rows, k, g[k])
            &&& forall|i: int|
                0 <= i < n ==> g.dom().contains(
                    key_in(m, rows[(#[trigger] listed[i]).0], listed[i].0),
                )
        }),
    decreases n,
{
    if n > 0 {
        lemma_gathered(listed, m, rows, n - 1);
        let r = listed[n - 1].0;
        let was = gathered(keys_for(listed), n - 1);
        let g = gathered(keys_for(listed), n);
        let k0 = key_in(m, rows[r], r);
        assert(rows.dom().contains(r));
        assert(keys_for(listed)[n - 1] == (k0, r));
        assert(g == was.insert(k0, r));
        assert forall|k: Seq<u8>| #[trigger] g.dom().contains(k) implies is_key_of(
            m,
            rows,
            k,
            g[k],
        ) by {
            if k != k0 {
                assert(was.dom().contains(k));
            }
        }
        assert forall|i: int| 0 <= i < n implies g.dom().contains(
            key_in(m, rows[(#[trigger] listed[i]).0], listed[i].0),
        ) by {
            if i < n - 1 {
                assert(was.dom().contains(key_in(m, rows[listed[i].0], listed[i].0)));
            }
        }
    }
}

/// A new index on all rows of a table is exact.
pub proof fn law_new_indexes_are_exact(listed: Seq<(Rid, ValueView)>, m: IndexMeta, rows: Rows)
    requires
        lists_column(listed, m, rows),
    ensures
        gathered(keys_for(listed), listed.len() as int) == entries_of(m, rows),
{
    let n = listed.len() as int;
    let a = gathered(keys_for(listed), n);
    let b = entries_of(m, rows);
    lemma_gathered(listed, m, rows, n);
    assert forall|k: Seq<u8>| #[trigger] a.dom().contains(k) <==> b.dom().contains(k) by {
        if b.dom().contains(k) {
            let r = choose|r: Rid| is_key_of(m, rows, k, r);
            assert(rows.dom().contains(r));
            let i = choose|i: int| 0 <= i < listed.len() && (#[trigger] listed[i]).0 == r;
            assert(a.dom().contains(key_in(m, rows[listed[i].0], listed[i].0)));
        }
    }
    assert forall|k: Seq<u8>| #[trigger] a.dom().contains(k) implies a[k] == b[k] by {
        law_an_entry_leads_to_its_row(m, rows, a[k]);
    }
    assert(a =~= b);
}

} // verus!
