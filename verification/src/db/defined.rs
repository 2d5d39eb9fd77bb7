//! What CREATE and DROP leave, and what a database is read back from: the laws of definitions
//! and of the records that belong to a table.

use vstd::prelude::*;
use vstd::utf8::{encode_utf8, valid_utf8};

use crate::btree::tree::Tree;
use crate::bytes::{
    law_byte_strings_are_ordered_where_they_part, lemma_lex_irreflexive, parts_below,
};
use crate::db::catalog::{
    columns, law_index_roundtrip, law_table_roundtrip, storable, stored_index, stored_table,
    table_at, ColumnView, IndexMeta, Schema, CATALOG_TID, INDEX_TID,
};
use crate::db::define::{by_name, name_before, named, table_data};
use crate::db::dml::{
    definitions, goes_with_table, greatest_tid, law_definitions_have_own_names,
    law_record_roundtrip, payloads, place_of,
    table_of, table_record, TableDef,
};
use crate::db::removal::{kept_at, staying, staying_trees, without_table_data, Keep};
use crate::db::store::Database;
use crate::heap::Rid;
use crate::pager::{lemma_distinct_below, Pager};
use crate::types::ColumnType;

verus! {

// ---- records ----

/// `at` numbers, upwards, exactly the records of the table.
pub open spec fn belong_at(rs: Seq<(Rid, Seq<u8>)>, tid: u16, at: Seq<int>) -> bool {
    &&& forall|i: int, j: int| 0 <= i < j < at.len() ==> #[trigger] at[i] < #[trigger] at[j]
    &&& forall|i: int| 0 <= i < at.len() ==> 0 <= #[trigger] at[i] < rs.len()
    &&& forall|k: int|
        0 <= k < rs.len() ==> (#[trigger] at.contains(k) <==> table_of(rs[k].1) == Some(tid))
}

/// `x` is what was put into the record.
pub open spec fn holds_payload(rec: Seq<u8>, tid: u16, x: Seq<u8>) -> bool {
    forall|p: Seq<u8>| rec == #[trigger] table_record(tid, p) ==> p == x
}

/// The rows of a table are those of all records that were made for it, in their order, each
/// with what was put into it.
pub proof fn law_rows_are_the_records_of_their_table(rs: Seq<(Rid, Seq<u8>)>, tid: u16) -> (at: Seq<
    int,
>)
    ensures
        belong_at(rs, tid, at),
        payloads(rs, tid).len() == at.len(),
        forall|i: int|
            0 <= i < at.len() ==> (#[trigger] payloads(rs, tid)[i]).0 == rs[at[i]].0 && holds_payload(
                rs[at[i]].1,
                tid,
                payloads(rs, tid)[i].1,
            ),
    decreases rs.len(),
{
    if rs.len() == 0 {
        Seq::empty()
    } else {
        let init = rs.drop_last();
        let n = rs.len() - 1;
        let was = law_rows_are_the_records_of_their_table(init, tid);
        let keep = table_of(rs[n].1) == Some(tid);
        let at = if keep {
            was.push(n)
        } else {
            was
        };
        let out = payloads(rs, tid);
        assert forall|p: Seq<u8>| rs[n].1 == #[trigger] table_record(tid, p) implies rs[n].1.skip(2)
            == p by {
            law_record_roundtrip(tid, p);
        }
        assert forall|i: int| 0 <= i < was.len() implies at[i] == #[trigger] was[i] && rs[at[i]]
            == init[was[i]] by {}
        assert forall|i: int| 0 <= i < at.len() implies (#[trigger] out[i]).0 == rs[at[i]].0
            && holds_payload(rs[at[i]].1, tid, out[i].1) by {
            if i < was.len() {
                assert(out[i] == payloads(init, tid)[i]);
                assert(was[i] == at[i]);
            }
        }
        assert forall|i: int, j: int| 0 <= i < j < at.len() implies #[trigger] at[i]
            < #[trigger] at[j] by {
            assert(was[i] == at[i]);
            if j < was.len() {
                assert(was[j] == at[j]);
            }
        }
        assert forall|i: int| 0 <= i < at.len() implies 0 <= #[trigger] at[i] < rs.len() by {
            if i < was.len() {
                assert(was[i] == at[i]);
            }
        }
        assert forall|k: int| 0 <= k < rs.len() implies (#[trigger] at.contains(k) <==> table_of(
            rs[k].1,
        ) == Some(tid)) by {
            if k < n {
                assert(was.contains(k) <==> table_of(init[k].1) == Some(tid));
                if was.contains(k) {
                    let i = was.index_of(k);
                    assert(at[i] == k);
                }
                if at.contains(k) {
                    let i = at.index_of(k);
                    assert(was[i] == k);
                }
            } else {
                if keep {
                    assert(at[was.len() as int] == k);
                } else if at.contains(k) {
                    let i = was.index_of(k);
                    assert(was[i] < init.len());
                }
            }
        }
        at
    }
}

/// A record goes with a table exactly where it is one of its rows, its definition, or the
/// definition of one of its indexes.
pub proof fn law_what_goes_with_a_table(tid: u16, t: u16)
    requires
        tid != CATALOG_TID,
        tid != INDEX_TID,
    ensures
        t != CATALOG_TID && t != INDEX_TID ==> forall|p: Seq<u8>| #[trigger]
            goes_with_table(table_record(t, p), tid) <==> t == tid,
        forall|name: Seq<u8>, cs: Seq<ColumnView>|
            name.len() <= 0xFFFF && valid_utf8(name) && cs.len() <= 0xFFFF && (forall|i: int|
                0 <= i < cs.len() ==> storable(#[trigger] cs[i])) ==> (#[trigger] goes_with_table(
                table_record(CATALOG_TID, stored_table(t, name, cs)),
                tid,
            ) <==> t == tid),
        forall|name: Seq<u8>, c: u32, ty: ColumnType, root: u32|
            name.len() <= 0xFFFF && valid_utf8(name) ==> (#[trigger] goes_with_table(
                table_record(INDEX_TID, stored_index(name, t, c, ty, root)),
                tid,
            ) <==> t == tid),
{
    if t != CATALOG_TID && t != INDEX_TID {
        assert forall|p: Seq<u8>| #[trigger] goes_with_table(table_record(t, p), tid) <==> t
            == tid by {
            law_record_roundtrip(t, p);
        }
    }
    assert forall|name: Seq<u8>, cs: Seq<ColumnView>|
        name.len() <= 0xFFFF && valid_utf8(name) && cs.len() <= 0xFFFF && (forall|i: int|
            0 <= i < cs.len() ==> storable(#[trigger] cs[i])) implies (#[trigger] goes_with_table(
        table_record(CATALOG_TID, stored_table(t, name, cs)),
        tid,
    ) <==> t == tid) by {
        law_record_roundtrip(CATALOG_TID, stored_table(t, name, cs));
        law_table_roundtrip(t, name, cs);
    }
    assert forall|name: Seq<u8>, c: u32, ty: ColumnType, root: u32|
        name.len() <= 0xFFFF && valid_utf8(name) implies (#[trigger] goes_with_table(
        table_record(INDEX_TID, stored_index(name, t, c, ty, root)),
        tid,
    ) <==> t == tid) by {
        law_record_roundtrip(INDEX_TID, stored_index(name, t, c, ty, root));
        law_index_roundtrip(name, t, c, ty, root);
    }
}

// ---- definitions ----

/// Record `i` is the last that defines a table of its name.
pub open spec fn defines_last(ts: Seq<(Rid, Seq<u8>)>, i: int) -> bool {
    &&& 0 <= i < ts.len()
    &&& forall|j: int|
        i < j < ts.len() ==> (table_at((#[trigger] ts[j]).1)->Ok_0).1 != (table_at(
            ts[i].1,
        )->Ok_0).1
}

proof fn lemma_place(ds: Seq<(u16, Seq<u8>, Seq<ColumnView>)>, name: Seq<u8>)
    ensures
        0 <= place_of(ds, name) <= ds.len(),
        place_of(ds, name) < ds.len() ==> ds[place_of(ds, name)].1 == name,
        forall|j: int| 0 <= j < place_of(ds, name) ==> (#[trigger] ds[j]).1 != name,
    decreases ds.len(),
{
    if ds.len() > 0 {
        let init = ds.drop_last();
        lemma_place(init, name);
        assert forall|j: int| 0 <= j < init.len() implies init[j] == #[trigger] ds[j] by {}
    }
}

/// The tables that records define are exactly those of the last record for each name, each
/// once.
pub proof fn law_the_last_definition_counts(ts: Seq<(Rid, Seq<u8>)>)
    ensures
        forall|i: int| #[trigger]
            defines_last(ts, i) ==> definitions(ts).contains(table_at(ts[i].1)->Ok_0),
        forall|k: int|
            0 <= k < definitions(ts).len() ==> exists|i: int| #[trigger]
                defines_last(ts, i) && #[trigger] definitions(ts)[k] == table_at(ts[i].1)->Ok_0,
    decreases ts.len(),
{
    if ts.len() > 0 {
        let init = ts.drop_last();
        let n = ts.len() - 1;
        let ds = definitions(init);
        let d = table_at(ts[n].1)->Ok_0;
        let now = definitions(ts);
        let p = place_of(ds, d.1);
        law_the_last_definition_counts(init);
        lemma_place(ds, d.1);
        law_definitions_have_own_names(init);
        assert(defines_last(ts, n));
        assert(now[p] == d);
        assert forall|i: int| #[trigger] defines_last(ts, i) implies now.contains(
            table_at(ts[i].1)->Ok_0,
        ) by {
            let x = table_at(ts[i].1)->Ok_0;
            if i < n {
                assert(ts[n].1 == ts[n].1);
                assert(d.1 != x.1) by {
                    assert(ts[n] == ts.last());
                }
                assert forall|j: int| i < j < init.len() implies (table_at(
                    (#[trigger] init[j]).1,
                )->Ok_0).1 != (table_at(init[i].1)->Ok_0).1 by {
                    assert(init[j] == ts[j]);
                }
                assert(defines_last(init, i));
                assert(ds.contains(x));
                let k = ds.index_of(x);
                assert(k != p);
                assert(now[k] == x);
            }
        }
        assert forall|k: int| 0 <= k < now.len() implies exists|i: int| #[trigger]
            defines_last(ts, i) && #[trigger] now[k] == table_at(ts[i].1)->Ok_0 by {
            if k == p {
                assert(defines_last(ts, n) && now[k] == table_at(ts[n].1)->Ok_0);
            } else {
                assert(now[k] == ds[k]);
                let i = choose|i: int| #[trigger]
                    defines_last(init, i) && ds[k] == table_at(init[i].1)->Ok_0;
                assert(ds[k].1 != d.1) by {
                    if p < ds.len() {
                        if k < p {
                            assert(ds[k].1 != d.1);
                        } else {
                            assert(ds[p].1 != ds[k].1);
                        }
                    }
                }
                assert forall|j: int| i < j < ts.len() implies (table_at(
                    (#[trigger] ts[j]).1,
                )->Ok_0).1 != (table_at(ts[i].1)->Ok_0).1 by {
                    if j < n {
                        assert(init[j] == ts[j]);
                    }
                }
                assert(defines_last(ts, i) && now[k] == table_at(ts[i].1)->Ok_0);
            }
        }
    }
}

/// The greatest table number is that of a definition, and no definition has a greater one.
pub proof fn law_the_greatest_number_is_the_greatest(rs: Seq<(Rid, Seq<u8>)>)
    ensures
        greatest_tid(rs) >= 0,
        forall|i: int|
            0 <= i < rs.len() && table_at((#[trigger] rs[i]).1) is Ok ==> (table_at(rs[i].1)->Ok_0).0
                <= greatest_tid(rs),
        greatest_tid(rs) > 0 ==> exists|i: int|
            0 <= i < rs.len() && table_at((#[trigger] rs[i]).1) is Ok && (table_at(
                rs[i].1,
            )->Ok_0).0 == greatest_tid(rs),
    decreases rs.len(),
{
    if rs.len() > 0 {
        let init = rs.drop_last();
        let n = rs.len() - 1;
        law_the_greatest_number_is_the_greatest(init);
        assert forall|i: int| 0 <= i < init.len() implies init[i] == #[trigger] rs[i] by {}
        let g = greatest_tid(rs);
        if g > 0 {
            if g == greatest_tid(init) {
                let i = choose|i: int|
                    0 <= i < init.len() && table_at((#[trigger] init[i]).1) is Ok && (table_at(
                        init[i].1,
                    )->Ok_0).0 == greatest_tid(init);
                assert(rs[i] == init[i]);
            } else {
                assert(table_at(rs[n].1) is Ok);
            }
        }
        assert forall|i: int|
            0 <= i < rs.len() && table_at((#[trigger] rs[i]).1) is Ok implies (table_at(
            rs[i].1,
        )->Ok_0).0 <= g by {
            if i < n {
                assert(init[i] == rs[i]);
            }
        }
    }
}

// ---- CREATE and DROP ----

/// CREATE TABLE adds one record, which reads back as the definition of the new table under a
/// number of its own, and leaves the rows of every table as they are.
pub proof fn law_created_tables_are_recorded<P: Pager>(
    after: &Database<P>,
    before: &Database<P>,
    name: Seq<char>,
    schema: Schema,
    tid: u16,
) -> (rid: Rid)
    requires
        after.created(before, name, schema, Ok(tid)),
        encode_utf8(name).len() <= 0xFFFF,
        schema.columns@.len() <= 0xFFFF,
        forall|i: int| 0 <= i < schema.columns@.len() ==> storable((#[trigger] schema.columns@[i])@),
    ensures
        forall|i: int| !named(before.tables@, name, i),
        named(after.tables@, name, before.tables@.len() as int),
        !before.stored().dom().contains(rid),
        after.stored().dom() == before.stored().dom().insert(rid),
        forall|x: Rid| #[trigger]
            before.stored().dom().contains(x) ==> after.stored()[x] == before.stored()[x],
        table_of(after.stored()[rid]) == Some(CATALOG_TID),
        table_at(after.stored()[rid].skip(2)) == Ok::<_, Seq<char>>(
            (tid, encode_utf8(name), columns(schema.columns@)),
        ),
        forall|t: u16|
            t != CATALOG_TID ==> #[trigger] table_data(after.stored(), t) == table_data(
                before.stored(),
                t,
            ),
        after.all_entries() == before.all_entries(),
{
    let rec = table_record(
        CATALOG_TID,
        stored_table(before.next_tid, encode_utf8(name), columns(schema.columns@)),
    );
    let rid = choose|rid: Rid|
        !before.stored().dom().contains(rid) && #[trigger] before.stored().insert(rid, rec)
            == after.stored();
    vstd::utf8::encode_utf8_valid_utf8(name);
    assert forall|i: int| 0 <= i < columns(schema.columns@).len() implies storable(
        #[trigger] columns(schema.columns@)[i],
    ) by {
        assert(columns(schema.columns@)[i] == schema.columns@[i]@);
    }
    law_table_roundtrip(tid, encode_utf8(name), columns(schema.columns@));
    law_record_roundtrip(
        CATALOG_TID,
        stored_table(tid, encode_utf8(name), columns(schema.columns@)),
    );
    assert forall|t: u16| t != CATALOG_TID implies #[trigger] table_data(after.stored(), t)
        == table_data(before.stored(), t) by {
        assert(table_data(after.stored(), t) =~= table_data(before.stored(), t));
    }
    assert(after.tables@.last() == after.tables@[before.tables@.len() as int]);
    rid
}

/// `at` numbers, upwards, exactly the indexes that are kept.
pub open spec fn keeps_at(idxs: Seq<IndexMeta>, keep: Keep, at: Seq<int>) -> bool {
    &&& forall|i: int, j: int| 0 <= i < j < at.len() ==> #[trigger] at[i] < #[trigger] at[j]
    &&& forall|i: int| 0 <= i < at.len() ==> 0 <= #[trigger] at[i] < idxs.len()
    &&& forall|k: int| 0 <= k < idxs.len() ==> (#[trigger] at.contains(k) <==> keep(idxs[k]))
}

/// The indexes that stay are exactly those that are kept, in their order, each with its tree.
pub proof fn law_kept_indexes_stay(idxs: Seq<IndexMeta>, ts: Seq<Tree>, keep: Keep) -> (at: Seq<int>)
    ensures
        keeps_at(idxs, keep, at),
        staying(idxs, keep) == at.map_values(|i: int| idxs[i]),
        staying_trees(idxs, ts, keep) == at.map_values(|i: int| ts[i]),
{
    let at = kept_at(idxs, keep);
    lemma_keeps(idxs, keep);
    assert(staying(idxs, keep) =~= at.map_values(|i: int| idxs[i]));
    assert(staying_trees(idxs, ts, keep) =~= at.map_values(|i: int| ts[i]));
    at
}

proof fn lemma_keeps(idxs: Seq<IndexMeta>, keep: Keep)
    ensures
        keeps_at(idxs, keep, kept_at(idxs, keep)),
    decreases idxs.len(),
{
    if idxs.len() > 0 {
        let init = idxs.drop_last();
        let n = idxs.len() - 1;
        lemma_keeps(init, keep);
        let was = kept_at(init, keep);
        let at = kept_at(idxs, keep);
        assert forall|i: int, j: int| 0 <= i < j < at.len() implies #[trigger] at[i]
            < #[trigger] at[j] by {
            assert(was[i] == at[i]);
            if j < was.len() {
                assert(was[j] == at[j]);
            }
        }
        assert forall|i: int| 0 <= i < at.len() implies 0 <= #[trigger] at[i] < idxs.len() by {
            if i < was.len() {
                assert(was[i] == at[i]);
            }
        }
        assert forall|k: int| 0 <= k < idxs.len() implies (#[trigger] at.contains(k) <==> keep(
            idxs[k],
        )) by {
            if k < n {
                assert(was.contains(k) <==> keep(init[k]));
                if was.contains(k) {
                    let i = was.index_of(k);
                    assert(at[i] == k);
                }
                if at.contains(k) {
                    let i = at.index_of(k);
                    assert(was[i] == k);
                }
            } else {
                if keep(idxs[n]) {
                    assert(at[was.len() as int] == k);
                } else if at.contains(k) {
                    let i = was.index_of(k);
                    assert(was[i] < init.len());
                }
            }
        }
    }
}

/// DROP TABLE takes the table of the name, its rows and its indexes, and leaves every other
/// table its rows, and every index on another table where it is.
pub proof fn law_dropped_tables_are_gone<P: Pager>(
    after: &Database<P>,
    before: &Database<P>,
    name: Seq<char>,
) -> (i: int)
    requires
        after.dropped(before, name, Ok(())),
    ensures
        named(before.tables@, name, i),
        after.tables@ == before.tables@.remove(i),
        ({
            let tid = before.tables@[i].tid;
            &&& table_data(after.stored(), tid) == Map::<Rid, Seq<u8>>::empty()
            &&& forall|t: u16|
                t != tid && t != CATALOG_TID && t != INDEX_TID ==> #[trigger] table_data(
                    after.stored(),
                    t,
                ) == table_data(before.stored(), t)
            &&& forall|m: IndexMeta| #[trigger]
                after.indexes@.contains(m) <==> before.indexes@.contains(m) && m.table_id != tid
            &&& forall|x: Rid| #[trigger]
                after.stored().dom().contains(x) ==> before.stored().dom().contains(x)
                    && after.stored()[x] == before.stored()[x]
        }),
{
    let i = choose|i: int| {
        let tid = before.tables@[i].tid;
        let keep: Keep = |m: IndexMeta| m.table_id != tid;
        &&& #[trigger] named(before.tables@, name, i)
        &&& after.tables@ == before.tables@.remove(i)
        &&& after.indexes@ == staying(before.indexes@, keep)
        &&& after.trees@ == staying_trees(before.indexes@, before.trees@, keep)
        &&& after.stored() == without_table_data(before.stored(), tid)
    };
    let tid = before.tables@[i].tid;
    let keep: Keep = |m: IndexMeta| m.table_id != tid;
    let idxs = before.indexes@;
    let at = law_kept_indexes_stay(idxs, before.trees@, keep);
    assert(table_data(after.stored(), tid) =~= Map::<Rid, Seq<u8>>::empty());
    assert forall|t: u16|
        t != tid && t != CATALOG_TID && t != INDEX_TID implies #[trigger] table_data(
        after.stored(),
        t,
    ) == table_data(before.stored(), t) by {
        assert(table_data(after.stored(), t) =~= table_data(before.stored(), t));
    }
    assert forall|m: IndexMeta| #[trigger] after.indexes@.contains(m) <==> idxs.contains(m)
        && m.table_id != tid by {
        if after.indexes@.contains(m) {
            let k = after.indexes@.index_of(m);
            assert(at.contains(at[k]));
            assert(idxs[at[k]] == m);
        }
        if idxs.contains(m) && m.table_id != tid {
            let k = idxs.index_of(m);
            assert(keep(idxs[k]));
            assert(at.contains(k));
            let j = at.index_of(k);
            assert(after.indexes@[j] == m);
        }
    }
    i
}

/// DROP INDEX takes the indexes of the name and no other, and no row of any table.
pub proof fn law_dropped_indexes_are_gone<P: Pager>(
    after: &Database<P>,
    before: &Database<P>,
    name: &String,
)
    requires
        after.unindexed(before, name@, Ok(())),
    ensures
        exists|k: int| 0 <= k < before.indexes@.len() && (#[trigger] before.indexes@[k]).name@ == name@,
        after.tables == before.tables,
        forall|m: IndexMeta| #[trigger]
            after.indexes@.contains(m) <==> before.indexes@.contains(m) && m.name@ != name@,
        exists|k: int|
            0 <= k < before.indexes@.len() && (#[trigger] before.indexes@[k]).name@ == name@
                && after.stored() == before.stored().remove(before.indexes@[k].catalog_rid),
{
    let keep: Keep = |m: IndexMeta| m.name@ != name@;
    let idxs = before.indexes@;
    let at = law_kept_indexes_stay(idxs, before.trees@, keep);
    assert(after.indexes@ == at.map_values(|i: int| idxs[i]));
    assert forall|m: IndexMeta| #[trigger] after.indexes@.contains(m) <==> idxs.contains(m)
        && m.name@ != name@ by {
        if after.indexes@.contains(m) {
            let k = after.indexes@.index_of(m);
            assert(at.contains(at[k]));
            assert(idxs[at[k]] == m);
        }
        if idxs.contains(m) && m.name@ != name@ {
            let k = idxs.index_of(m);
            assert(keep(idxs[k]));
            assert(at.contains(k));
            let j = at.index_of(k);
            assert(after.indexes@[j] == m);
        }
    }
}

// ---- lists of tables ----

/// Different numbers below `n`, as many as `n`, are all of them.
pub(crate) proof fn lemma_all_below(order: Seq<usize>, n: int, k: usize)
    requires
        order.no_duplicates(),
        order.len() == n,
        forall|i: int| 0 <= i < order.len() ==> (#[trigger] order[i]) < n,
        k < n,
    ensures
        order.contains(k),
{
    if !order.contains(k) {
        let all = Seq::new(order.len() + 1, |i: int| if i < order.len() {
            order[i] as int
        } else {
            k as int
        });
        assert forall|i: int, j: int| 0 <= i < all.len() && 0 <= j < all.len() && i != j implies all[i]
            != all[j] by {
            if i < order.len() && j < order.len() {
                assert(order[i] != order[j]);
            } else if i < order.len() {
                assert(order.contains(order[i]));
            } else {
                assert(order.contains(order[j]));
            }
        }
        assert forall|i: int| 0 <= i < all.len() implies 0 <= #[trigger] all[i] < n by {
            if i < order.len() {
                assert(order[i] < n);
            }
        }
        lemma_distinct_below(all, n);
    }
}

/// The tables are listed by the bytes of their names, each once and none left out.
pub proof fn law_tables_are_listed_by_name(ts: Seq<TableDef>, order: Seq<usize>)
    requires
        by_name(ts, order),
    ensures
        order.len() == ts.len(),
        order.no_duplicates(),
        forall|k: usize| k < ts.len() ==> #[trigger] order.contains(k),
        forall|i: int, j: int|
            0 <= i < j < order.len() ==> comes_by_name(
                ts[(#[trigger] order[i]) as int].name@,
                ts[(#[trigger] order[j]) as int].name@,
            ),
{
    assert forall|i: int, j: int| 0 <= i < j < order.len() implies comes_by_name(
        ts[(#[trigger] order[i]) as int].name@,
        ts[(#[trigger] order[j]) as int].name@,
    ) && order[i] != order[j] by {
        let x = encode_utf8(ts[order[i] as int].name@);
        let y = encode_utf8(ts[order[j] as int].name@);
        assert(name_before(ts, order[i], order[j]));
        law_byte_strings_are_ordered_where_they_part(x, y);
        if order[i] == order[j] {
            lemma_lex_irreflexive(x);
        }
    }
    assert(order.no_duplicates()) by {
        assert forall|i: int, j: int|
            0 <= i < order.len() && 0 <= j < order.len() && i != j implies order[i]
            != order[j] by {
            if i < j {
                assert(order[i] != order[j]);
            } else {
                assert(order[j] != order[i]);
            }
        }
    }
    assert forall|k: usize| k < ts.len() implies #[trigger] order.contains(k) by {
        lemma_all_below(order, ts.len() as int, k);
    }
}

/// The bytes of the one name are those of the other, or smaller where they part.
pub open spec fn comes_by_name(a: Seq<char>, b: Seq<char>) -> bool {
    encode_utf8(a) == encode_utf8(b) || exists|c: int| #[trigger]
        parts_below(encode_utf8(a), encode_utf8(b), c)
}

} // verus!
