//! A query through an index answers as a scan does: the laws of choosing an index and of
//! looking rows up in it.

use vstd::prelude::*;

use crate::btree::node::{within, Entry};
use crate::btree::tree::{contents, flat, lemma_ordered_flat, lemma_map_at, map_of};
use crate::btree::walk::{between, law_range_is_exact};
use crate::bytes::{lemma_lex_irreflexive, lemma_lex_total, lex_lt};
use crate::db::ast::{BinOp, ExprView, NodeView};
use crate::db::catalog::{bounds_of, in_range, law_index_range_is_exact, IndexMeta, Schema};
use crate::db::define::{fetched, table_data};
use crate::db::dml::rec_views;
use crate::db::exact::{entries_of, exact, is_key_of, law_an_entry_leads_to_its_row, Rows};
use crate::db::plan::{
    all_probed, best_probe, coerced, column_named, column_test, conjuncts, index_on, probe_of,
    probed, serves, unserved, Probe,
};
use crate::db::route::source;
use crate::db::store::{key_in, lemma_index, Database};
use crate::heap::Rid;
use crate::keys::{encoded, law_value_order, law_value_roundtrip};
use crate::pager::Pager;
use crate::types::{fits_type, value_lt, ColumnType, Value, ValueView};

verus! {

// ---- what a filter says ----

/// What holds of a row, expression by expression.
pub type Truth = spec_fn(ExprView) -> bool;

/// A conjunction is true only if both of its sides are.
pub open spec fn joins_truths(truth: Truth) -> bool {
    forall|e: ExprView|
        e.node == NodeView::Binary(BinOp::And) && e.kids.len() == 2 && #[trigger] truth(e)
            ==> truth(e.kids[0]) && truth(e.kids[1])
}

/// Where a filter is true, each of the predicates it is taken apart into is true, whatever
/// expressions mean: as long as a conjunction is true only if both of its sides are.
pub proof fn law_true_filters_have_true_predicates(truth: Truth, e: ExprView, i: int)
    requires
        joins_truths(truth),
        truth(e),
        0 <= i < conjuncts(e).len(),
    ensures
        truth(conjuncts(e)[i]),
    decreases e,
{
    if e.node == NodeView::Binary(BinOp::And) && e.kids.len() == 2 {
        let l = conjuncts(e.kids[0]);
        if i < l.len() {
            law_true_filters_have_true_predicates(truth, e.kids[0], i);
        } else {
            law_true_filters_have_true_predicates(truth, e.kids[1], i - l.len());
        }
    }
}

/// The predicates say no less than the filter: where all of them are true and a conjunction
/// of two truths is true, the filter is.
pub proof fn law_true_predicates_make_the_filter_true(truth: Truth, e: ExprView)
    requires
        forall|x: ExprView|
            x.node == NodeView::Binary(BinOp::And) && x.kids.len() == 2 && truth(x.kids[0])
                && truth(x.kids[1]) ==> #[trigger] truth(x),
        forall|i: int| 0 <= i < conjuncts(e).len() ==> truth(#[trigger] conjuncts(e)[i]),
    ensures
        truth(e),
    decreases e,
{
    if e.node == NodeView::Binary(BinOp::And) && e.kids.len() == 2 {
        let l = conjuncts(e.kids[0]);
        let r = conjuncts(e.kids[1]);
        assert forall|i: int| 0 <= i < l.len() implies truth(#[trigger] l[i]) by {
            assert(conjuncts(e)[i] == l[i]);
        }
        assert forall|i: int| 0 <= i < r.len() implies truth(#[trigger] r[i]) by {
            assert(conjuncts(e)[l.len() + i] == r[i]);
        }
        law_true_predicates_make_the_filter_true(truth, e.kids[0]);
        law_true_predicates_make_the_filter_true(truth, e.kids[1]);
    } else {
        assert(conjuncts(e)[0] == e);
    }
}

/// An order in which values of all types are compared.
pub type Less = spec_fn(ValueView, ValueView) -> bool;

/// `a op b` in an order.
pub open spec fn stands(less: Less, op: BinOp, a: ValueView, b: ValueView) -> bool {
    match op {
        BinOp::Eq => !less(a, b) && !less(b, a),
        BinOp::Lt => less(a, b),
        BinOp::Le => !less(b, a),
        BinOp::Gt => less(b, a),
        BinOp::Ge => !less(a, b),
        _ => false,
    }
}

pub open spec fn is_comparison(op: BinOp) -> bool {
    op is Eq || op is Lt || op is Le || op is Gt || op is Ge
}

/// `e` is `column op literal`.
pub open spec fn column_first(e: ExprView, op: BinOp, name: Seq<char>, v: ValueView) -> bool {
    &&& e.node == NodeView::Binary(op)
    &&& e.kids.len() == 2
    &&& e.kids[0].node is Column
    &&& e.kids[0].node->name == name
    &&& e.kids[1].node == NodeView::Literal(v)
}

/// `e` is `literal op column`.
pub open spec fn literal_first(e: ExprView, op: BinOp, name: Seq<char>, v: ValueView) -> bool {
    &&& e.node == NodeView::Binary(op)
    &&& e.kids.len() == 2
    &&& e.kids[0].node == NodeView::Literal(v)
    &&& e.kids[1].node is Column
    &&& e.kids[1].node->name == name
}

/// A comparison of a column with a literal, or of a literal with a column, is true of a row
/// only where it stands between what the row has in the column, which is not null, and the
/// literal.
pub open spec fn compares_columns(
    truth: Truth,
    less: Less,
    schema: &Schema,
    row: Seq<ValueView>,
) -> bool {
    &&& forall|e: ExprView, op: BinOp, name: Seq<char>, v: ValueView, c: int|
        truth(e) && #[trigger] column_first(e, op, name, v) && is_comparison(op)
            && #[trigger] column_named(schema, name, c) ==> row[c] != ValueView::Null && stands(
            less,
            op,
            row[c],
            v,
        )
    &&& forall|e: ExprView, op: BinOp, name: Seq<char>, v: ValueView, c: int|
        truth(e) && #[trigger] literal_first(e, op, name, v) && is_comparison(op)
            && #[trigger] column_named(schema, name, c) ==> row[c] != ValueView::Null && stands(
            less,
            op,
            v,
            row[c],
        )
}

/// Where `coerce` makes a value of a column's type out of a literal, that value stands to the
/// values of the type as the literal does.
pub open spec fn keeps_order<G: Fn(Value, ColumnType) -> Option<Value>>(
    coerce: G,
    less: Less,
) -> bool {
    forall|v: Value, t: ColumnType, out: Value, x: ValueView| #[trigger]
        coerced(coerce, v, t, Some(out)) && #[trigger] fits_type(t, x) && x != ValueView::Null
            ==> fits_type(t, out@) && (less(x, v@) <==> value_lt(x, out@)) && (less(v@, x)
            <==> value_lt(out@, x))
}

/// Of two different values of a type one is below the other.
pub proof fn law_values_of_a_type_are_ordered(t: ColumnType, a: ValueView, b: ValueView)
    requires
        fits_type(t, a),
        fits_type(t, b),
    ensures
        a != b ==> value_lt(a, b) != value_lt(b, a),
        !value_lt(a, a),
{
    let e = Seq::<u8>::empty();
    lemma_lex_irreflexive(e);
    law_value_order(t, a, b, e, e);
    law_value_order(t, b, a, e, e);
    law_value_order(t, a, a, e, e);
    lemma_lex_total(encoded(a) + e, encoded(b) + e);
    lemma_lex_irreflexive(encoded(a) + e);
    law_value_roundtrip(t, a, e);
    law_value_roundtrip(t, b, e);
}

/// A predicate that an index serves is true of a row only if the row's key lies in the range
/// that the index is asked for.
proof fn lemma_served_rows_are_in_range<G: Fn(Value, ColumnType) -> Option<Value>>(
    truth: Truth,
    less: Less,
    e: ExprView,
    schema: &Schema,
    idxs: Seq<IndexMeta>,
    tid: u16,
    coerce: G,
    p: Probe,
    row: Seq<ValueView>,
    rid: Rid,
)
    requires
        probed(Some(p), e, schema, idxs, tid, coerce),
        truth(e),
        compares_columns(truth, less, schema, row),
        keeps_order(coerce, less),
        schema.columns@.len() <= row.len(),
        fits_type(idxs[p.index as int].col_type, row[idxs[p.index as int].col_index as int]),
        rid != (Rid { page: 0xFFFF_FFFF, slot: 0xFFFF }),
    ensures
        p.index < idxs.len(),
        idxs[p.index as int].table_id == tid,
        idxs[p.index as int].col_index < row.len(),
        ({
            let (lo, hi) = bounds_of(p.op, encoded(p.value@));
            in_range(key_in(idxs[p.index as int], row, rid), lo, hi)
        }),
{
    let m = idxs[p.index as int];
    let v = choose|v: Value| #[trigger]
        coerced(coerce, v, m.col_type, Some(p.value)) && serves(
            Probe { value: v, ..p },
            e,
            schema,
            idxs,
            tid,
        );
    let (name, op, lit) = column_test(e)->0;
    let c = choose|i: int|
        column_named(schema, name, i) && #[trigger] index_on(idxs, tid, i, p.index as int);
    assert(m.col_index == c);
    let raw = e.node->Binary_0;
    if e.kids[0].node is Column && e.kids[1].node is Literal {
        assert(column_first(e, raw, name, lit));
        assert(stands(less, raw, row[c], lit));
    } else {
        assert(literal_first(e, raw, name, lit));
        assert(stands(less, raw, lit, row[c]));
    }
    assert(stands(less, p.op, row[c], lit));
    assert(fits_type(m.col_type, row[c]));
    assert(fits_type(m.col_type, p.value@));
    law_values_of_a_type_are_ordered(m.col_type, row[c], p.value@);
    law_index_range_is_exact(m.col_type, p.op, row[c], p.value@, rid);
}

/// The key of every row of which a filter is true lies in the range that the index chosen for
/// the filter is asked for.
pub proof fn law_a_probe_is_implied_by_its_filter<G: Fn(Value, ColumnType) -> Option<Value>>(
    truth: Truth,
    less: Less,
    filter: ExprView,
    schema: &Schema,
    idxs: Seq<IndexMeta>,
    tid: u16,
    coerce: G,
    p: Probe,
    row: Seq<ValueView>,
    rid: Rid,
)
    requires
        probe_of(filter, schema, idxs, tid, coerce, Some(p)),
        truth(filter),
        joins_truths(truth),
        compares_columns(truth, less, schema, row),
        keeps_order(coerce, less),
        schema.columns@.len() <= row.len(),
        fits_type(idxs[p.index as int].col_type, row[idxs[p.index as int].col_index as int]),
        rid != (Rid { page: 0xFFFF_FFFF, slot: 0xFFFF }),
    ensures
        p.index < idxs.len(),
        idxs[p.index as int].table_id == tid,
        ({
            let (lo, hi) = bounds_of(p.op, encoded(p.value@));
            in_range(key_in(idxs[p.index as int], row, rid), lo, hi)
        }),
{
    let es = conjuncts(filter);
    let outs = choose|outs: Seq<Option<Probe>>| #[trigger]
        best_probe(outs, es.len() as int, Some(p)) && all_probed(
            outs,
            es,
            schema,
            idxs,
            tid,
            coerce,
        );
    let i = choose|i: int| 0 <= i < outs.len() && #[trigger] outs[i] == Some(p);
    assert(exists|i: int| 0 <= i < outs.len() && #[trigger] outs[i] == Some(p)) by {
        if outs.len() > 0 && outs.last() is Some && outs.last()->0.op is Eq {
            assert(outs[outs.len() - 1] == Some(p));
        }
    }
    law_true_filters_have_true_predicates(truth, filter, i);
    lemma_served_rows_are_in_range(truth, less, es[i], schema, idxs, tid, coerce, p, row, rid);
}

// ---- what is fetched ----

proof fn lemma_fetched(recs: Map<Rid, Seq<u8>>, tid: u16, es: Seq<Entry>)
    ensures
        forall|i: int|
            0 <= i < es.len() && table_data(recs, tid).dom().contains((#[trigger] es[i]).1)
                ==> fetched(recs, tid, es).contains(
                (es[i].1, table_data(recs, tid)[es[i].1]),
            ),
        forall|j: int|
            0 <= j < fetched(recs, tid, es).len() ==> table_data(recs, tid).dom().contains(
                (#[trigger] fetched(recs, tid, es)[j]).0,
            ) && fetched(recs, tid, es)[j].1 == table_data(recs, tid)[fetched(
                recs,
                tid,
                es,
            )[j].0] && exists|i: int|
                0 <= i < es.len() && (#[trigger] es[i]).1 == fetched(recs, tid, es)[j].0,
        (forall|i: int, j: int|
            0 <= i < j < es.len() ==> (#[trigger] es[i]).1 != (#[trigger] es[j]).1)
            ==> forall|i: int, j: int|
            0 <= i < j < fetched(recs, tid, es).len() ==> (#[trigger] fetched(recs, tid, es)[i]).0
                != (#[trigger] fetched(recs, tid, es)[j]).0,
    decreases es.len(),
{
    if es.len() > 0 {
        let init = es.drop_last();
        lemma_fetched(recs, tid, init);
        let out = fetched(recs, tid, es);
        let was = fetched(recs, tid, init);
        let data = table_data(recs, tid);
        assert forall|i: int|
            0 <= i < es.len() && data.dom().contains((#[trigger] es[i]).1) implies out.contains(
            (es[i].1, data[es[i].1]),
        ) by {
            if i < init.len() {
                assert(init[i] == es[i]);
                let j = was.index_of((es[i].1, data[es[i].1]));
                assert(out[j] == was[j]);
            } else {
                assert(out[was.len() as int] == (es[i].1, data[es[i].1]));
            }
        }
        assert forall|j: int| 0 <= j < out.len() implies data.dom().contains((#[trigger] out[j]).0)
            && out[j].1 == data[out[j].0] && exists|i: int|
            0 <= i < es.len() && (#[trigger] es[i]).1 == out[j].0 by {
            if j < was.len() {
                assert(out[j] == was[j]);
                let i = choose|i: int| 0 <= i < init.len() && (#[trigger] init[i]).1 == was[j].0;
                assert(es[i] == init[i]);
            } else {
                assert(es[es.len() - 1].1 == out[j].0);
            }
        }
        if forall|i: int, j: int|
            0 <= i < j < es.len() ==> (#[trigger] es[i]).1 != (#[trigger] es[j]).1 {
            assert forall|i: int, j: int| 0 <= i < j < init.len() implies (#[trigger] init[i]).1
                != (#[trigger] init[j]).1 by {
                assert(es[i] == init[i] && es[j] == init[j]);
            }
            assert forall|i: int, j: int| 0 <= i < j < out.len() implies (#[trigger] out[i]).0 != (
            #[trigger] out[j]).0 by {
                assert(out[i] == was[i]);
                if j < was.len() {
                    assert(out[j] == was[j]);
                } else {
                    let x = choose|x: int|
                        0 <= x < init.len() && (#[trigger] init[x]).1 == was[i].0;
                    assert(es[x] == init[x]);
                    assert(es[x].1 != es[es.len() - 1].1);
                }
            }
        }
    }
}

/// A query over a table sees through the index chosen for its filter every row of which the
/// filter is true, and nothing but rows of the table, each once and as it is stored. So what
/// the filter keeps of them is what it keeps of a scan.
pub proof fn law_index_and_scan_see_the_same_true_rows<
    P: Pager,
    G: Fn(Value, ColumnType) -> Option<Value>,
>(
    db: &Database<P>,
    t: int,
    filter: ExprView,
    coerce: G,
    p: Probe,
    less: Less,
    truths: spec_fn(Rid) -> Truth,
    rows: Rows,
    found: Seq<(Rid, Vec<u8>)>,
    scanned: Seq<(Rid, Vec<u8>)>,
)
    requires
        db.ok(),
        0 <= t < db.tables@.len(),
        probe_of(
            filter,
            &db.tables@[t].schema,
            db.indexes@,
            db.tables@[t].tid,
            coerce,
            Some(p),
        ),
        p.index < db.indexes@.len(),
        db.indexes@[p.index as int].table_id == db.tables@[t].tid,
        keeps_order(coerce, less),
        exact(db.all_entries(), db.indexes@, db.tables@[t].tid, rows),
        rows.dom() == table_data(db.stored(), db.tables@[t].tid).dom(),
        forall|r: Rid| #[trigger]
            rows.dom().contains(r) ==> {
                &&& r != (Rid { page: 0xFFFF_FFFF, slot: 0xFFFF })
                &&& db.tables@[t].schema.columns@.len() <= rows[r].len()
                &&& fits_type(
                    db.indexes@[p.index as int].col_type,
                    rows[r][db.indexes@[p.index as int].col_index as int],
                )
                &&& joins_truths(truths(r))
                &&& compares_columns(truths(r), less, &db.tables@[t].schema, rows[r])
            },
        source(db, t, Some(p), found),
        source(db, t, None, scanned),
    ensures
        forall|k: int|
            0 <= k < scanned.len() && truths((#[trigger] scanned[k]).0)(filter) ==> rec_views(
                found,
            ).contains(rec_views(scanned)[k]),
        forall|i: int|
            0 <= i < found.len() ==> rec_views(scanned).contains(#[trigger] rec_views(found)[i]),
        forall|i: int, j: int|
            0 <= i < j < found.len() ==> (#[trigger] found[i]).0 != (#[trigger] found[j]).0,
{
    reveal(Database::entries);
    let d = db.tables@[t];
    let tid = d.tid;
    let recs = db.stored();
    let data = table_data(recs, tid);
    let m = db.indexes@[p.index as int];
    let tree = db.trees@[p.index as int];
    let es = flat(tree);
    let (lo, hi) = bounds_of(p.op, encoded(p.value@));
    let part = between(es, lo, hi);
    let fv = rec_views(found);
    let sv = rec_views(scanned);
    lemma_index(db.bp.pages(), db.indexes@, db.trees@, p.index as int);
    lemma_ordered_flat(tree, None, None);
    law_range_is_exact(es, lo, hi);
    lemma_fetched(recs, tid, part);
    assert(db.all_entries()[p.index as int] == contents(tree));
    let map = entries_of(m, rows);
    assert(map_of(es) == map);
    assert forall|i: int| 0 <= i < es.len() implies rows.dom().contains((#[trigger] es[i]).1)
        && es[i].0 == key_in(m, rows[es[i].1], es[i].1) by {
        lemma_map_at(es, i);
        let k = es[i].0;
        assert(exists|r: Rid| is_key_of(m, rows, k, r));
        let r = choose|r: Rid| is_key_of(m, rows, k, r);
        assert(map[k] == r);
    }
    assert forall|i: int, j: int| 0 <= i < j < part.len() implies (#[trigger] part[i]).1 != (
    #[trigger] part[j]).1 by {
        assert(es.contains(part[i]) && es.contains(part[j]));
        let x = es.index_of(part[i]);
        let y = es.index_of(part[j]);
        assert(es[x].0 == key_in(m, rows[es[x].1], es[x].1));
        assert(es[y].0 == key_in(m, rows[es[y].1], es[y].1));
        assert(lex_lt(part[i].0, part[j].0));
        lemma_lex_irreflexive(part[i].0);
    }
    assert forall|i: int, j: int| 0 <= i < j < found.len() implies (#[trigger] found[i]).0 != (
    #[trigger] found[j]).0 by {
        assert(fv[i].0 == found[i].0 && fv[j].0 == found[j].0);
    }
    assert forall|i: int| 0 <= i < found.len() implies sv.contains(#[trigger] fv[i]) by {
        assert(data.dom().contains(fv[i].0) && fv[i].1 == data[fv[i].0]);
        let k = choose|k: int| 0 <= k < sv.len() && (#[trigger] sv[k]).0 == fv[i].0;
        assert(sv[k] == fv[i]);
    }
    assert forall|k: int|
        0 <= k < scanned.len() && truths((#[trigger] scanned[k]).0)(filter) implies fv.contains(
        sv[k],
    ) by {
        let r = scanned[k].0;
        assert(sv[k].0 == r);
        assert(data.dom().contains(r) && data[r] == sv[k].1);
        assert(rows.dom().contains(r));
        law_a_probe_is_implied_by_its_filter(
            truths(r),
            less,
            filter,
            &d.schema,
            db.indexes@,
            tid,
            coerce,
            p,
            rows[r],
            r,
        );
        law_an_entry_leads_to_its_row(m, rows, r);
        let key = key_in(m, rows[r], r);
        assert(map_of(es).dom().contains(key));
        let x = choose|x: int| 0 <= x < es.len() && (#[trigger] es[x]).0 == key;
        lemma_map_at(es, x);
        assert(es[x].1 == r);
        assert(within(es[x].0, Some(lo), hi));
        assert(part.contains(es[x]));
        let y = part.index_of(es[x]);
        assert(part[y].1 == r);
        assert(fetched(recs, tid, part).contains((r, data[r])));
    }
}

/// The predicate asks for equality of an indexed column and a literal that is not null.
pub open spec fn is_indexed_equality(
    e: ExprView,
    schema: &Schema,
    idxs: Seq<IndexMeta>,
    tid: u16,
    k: int,
) -> bool {
    &&& column_test(e) matches Some((name, op, v)) && op is Eq && v != ValueView::Null && exists|
        c: int,
    |
        column_named(schema, name, c) && #[trigger] index_on(idxs, tid, c, k)
}

/// Where an index serves a filter by anything but an equality, or none does, there is no
/// equality that an index could have served: each that there is has a literal that is none of
/// the column's values.
pub proof fn law_equalities_are_preferred<G: Fn(Value, ColumnType) -> Option<Value>>(
    filter: ExprView,
    schema: &Schema,
    idxs: Seq<IndexMeta>,
    tid: u16,
    coerce: G,
    r: Option<Probe>,
    i: int,
    k: int,
)
    requires
        probe_of(filter, schema, idxs, tid, coerce, r),
        r matches Some(p) ==> !(p.op is Eq),
        0 <= i < conjuncts(filter).len(),
        is_indexed_equality(conjuncts(filter)[i], schema, idxs, tid, k),
    ensures
        exists|v: Value| #[trigger]
            coerced(coerce, v, idxs[k].col_type, None) && v@ == (column_test(
                conjuncts(filter)[i],
            )->0).2,
{
    let es = conjuncts(filter);
    let n = es.len() as int;
    let outs = choose|outs: Seq<Option<Probe>>| #[trigger]
        best_probe(outs, n, r) && all_probed(outs, es, schema, idxs, tid, coerce);
    let e = es[i];
    let (name, op, v) = column_test(e)->0;
    let c = choose|c: int| column_named(schema, name, c) && #[trigger] index_on(idxs, tid, c, k);
    assert(outs.len() == n);
    assert(probed(outs[i], e, schema, idxs, tid, coerce));
    match outs[i] {
        Some(p) => {
            let x = choose|x: Value| #[trigger]
                coerced(coerce, x, idxs[p.index as int].col_type, Some(p.value)) && serves(
                    Probe { value: x, ..p },
                    e,
                    schema,
                    idxs,
                    tid,
                );
            assert(p.op is Eq);
            if i < outs.len() - 1 {
                assert(!(outs[i] matches Some(q) && q.op is Eq));
            } else {
                assert(outs.last() == outs[i]);
            }
            assert(false);
        },
        None => {
            assert(!unserved(e, schema, idxs, tid));
            let p = choose|p: Probe| #[trigger]
                serves(p, e, schema, idxs, tid) && coerced(
                    coerce,
                    p.value,
                    idxs[p.index as int].col_type,
                    None,
                );
            let d = choose|d: int|
                column_named(schema, name, d) && #[trigger] index_on(idxs, tid, d, p.index as int);
            assert(c == d) by {
                if c < d {
                    assert(schema.columns@[c].name@ != name);
                }
                if d < c {
                    assert(schema.columns@[d].name@ != name);
                }
            }
            assert(p.index as int == k) by {
                if p.index < k {
                    assert(!(idxs[p.index as int].table_id == tid && idxs[p.index as int].col_index
                        == c));
                }
                if k < p.index {
                    assert(!(idxs[k].table_id == tid && idxs[k].col_index == c));
                }
            }
            assert(coerced(coerce, p.value, idxs[k].col_type, None) && p.value@ == v);
        },
    }
}

} // verus!
