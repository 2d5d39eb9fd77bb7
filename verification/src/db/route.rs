//! How a query is answered: over one table from an index or a scan, over joined tables from
//! scans, and where that cannot be streamed over tables in memory.

use vstd::prelude::*;

use crate::btree::tree::flat;
use crate::btree::walk::between;
use crate::db::ast::{Expr, ExprView};
use crate::db::catalog::{bounds_of, Schema};
use crate::db::define::{fetched, lists, named, table_data, tallied};
use crate::db::dml::{rec_views, TableDef};
use crate::db::exec::{row_views, steady_eval, steady_floats, Cols, ExecError, Keyed, Row};
use crate::db::joins::{expr_views, schemas, JoinKind};
use crate::db::logged::{
    all_decoded, decode_rows, lists_as, sticks, table_loaded, table_stuck,
};
use crate::db::plan::{bindings, find_indexed_pred, probe_of, sch_view, Probe, Sch};
use crate::db::query::group_views;
use crate::db::select::{
    aggregates, finished, is_aggregate, join_streamed, order_of, table_cols, try_stream,
    try_stream_join, ResultSet, Select,
};
use crate::db::store::{device, Counts, Database};
use crate::db::{says, DbError};
use crate::heap::{addressable, Rid};
use crate::keys::encoded;
use crate::pager::{holds_out, Pager};
use crate::types::{fits_type, ColumnType, Value};

verus! {

/// Where the rows of a query come from.
pub enum Route {
    /// One table, by a scan.
    Scan(usize),
    /// One table, through an index.
    Index(usize, Probe),
    /// Several tables, by scans.
    Join(Vec<usize>),
    /// All tables, in memory.
    Materialize,
}

/// The tables have these names.
pub open spec fn all_named(ts: Seq<TableDef>, from: Seq<String>, at: Seq<usize>) -> bool {
    forall|i: int| 0 <= i < at.len() ==> named(ts, from[i]@, (#[trigger] at[i]) as int)
}

/// Whether an index is preferred to a scan.
pub open spec fn preferred<R: Fn(u16, &Probe) -> bool>(
    prefer: R,
    tid: u16,
    p: Probe,
    yes: bool,
) -> bool {
    prefer.ensures((tid, &p), yes)
}

/// How a query over the tables `from` with this filter is answered. Without tables, or where
/// one is not known, it is answered in memory. One table is read through the index that
/// serves the filter, if there is one and it is preferred, else it is scanned; several tables
/// are scanned.
pub open spec fn routed<
    G: Fn(Value, ColumnType) -> Option<Value>,
    R: Fn(u16, &Probe) -> bool,
    P: Pager,
>(
    db: &Database<P>,
    from: Seq<String>,
    filter: Option<Expr>,
    coerce: G,
    prefer: R,
    r: Route,
) -> bool {
    match r {
        Route::Materialize => from.len() == 0 || exists|i: int| #[trigger]
            unknown_at(db.tables@, from, i),
        Route::Join(at) => from.len() > 1 && at@.len() == from.len() && all_named(
            db.tables@,
            from,
            at@,
        ),
        Route::Scan(t) => {
            let d = db.tables@[t as int];
            &&& from.len() == 1
            &&& named(db.tables@, from[0]@, t as int)
            &&& filter matches Some(e) ==> {
                ||| probe_of(e@, &d.schema, db.indexes@, d.tid, coerce, None)
                ||| exists|p: Probe|
                    probe_of(e@, &d.schema, db.indexes@, d.tid, coerce, Some(p))
                        && #[trigger] preferred(prefer, d.tid, p, false)
            }
        },
        Route::Index(t, p) => {
            let d = db.tables@[t as int];
            &&& from.len() == 1
            &&& named(db.tables@, from[0]@, t as int)
            &&& filter is Some
            &&& probe_of(filter->0@, &d.schema, db.indexes@, d.tid, coerce, Some(p))
            &&& preferred(prefer, d.tid, p, true)
        },
    }
}

/// No table has the name at `i`.
pub open spec fn unknown_at(ts: Seq<TableDef>, from: Seq<String>, i: int) -> bool {
    0 <= i < from.len() && forall|t: int| !named(ts, from[i]@, t)
}

/// The rows that a query over table `t` starts from: those that the index finds, or all.
pub open spec fn source<P: Pager>(
    db: &Database<P>,
    t: int,
    probe: Option<Probe>,
    rows: Seq<(Rid, Vec<u8>)>,
) -> bool {
    let tid = db.tables@[t].tid;
    match probe {
        None => lists(table_data(db.stored(), tid), rec_views(rows)),
        Some(p) => {
            let (lo, hi) = bounds_of(p.op, encoded(p.value@));
            rec_views(rows) == fetched(
                db.stored(),
                tid,
                between(flat(db.trees@[p.index as int]), lo, hi),
            )
        },
    }
}

/// The counts after the rows were read.
pub open spec fn looked_up(counts: Counts, probe: Option<Probe>) -> Counts {
    match probe {
        None => counts,
        Some(_) => Counts { index_lookups: counts.index_lookups.wrapping_add(1), ..counts },
    }
}

/// What a query over table `t` came to, from the rows it read.
pub open spec fn selected<
    P: Pager,
    D: Fn(&Schema, &Vec<u8>) -> Result<Vec<Value>, ExecError>,
    E: Fn(&Expr, &Sch, &Row) -> Result<Keyed, ExecError>,
    A: Fn(bool, &Vec<Value>) -> Value,
>(
    db: &Database<P>,
    t: int,
    probe: Option<Probe>,
    decode: D,
    f: E,
    a: A,
    q: Select,
    alias: Seq<char>,
    rows: Seq<(Rid, Vec<u8>)>,
    list: Seq<Vec<Value>>,
    after: Counts,
    r: Result<Option<ResultSet>, DbError>,
) -> bool {
    let d = db.tables@[t];
    let mid = looked_up(db.counts, probe);
    &&& source(db, t, probe, rows)
    &&& list.len() <= rows.len()
    &&& all_decoded(decode, &d.schema, rows, list)
    &&& if list.len() < rows.len() {
        &&& after == mid
        &&& exists|e: ExecError| #[trigger]
            decode.ensures((&d.schema, &rows[list.len() as int].1), Err(e)) && r is Err && says(
                r->Err_0,
                e.text@,
            )
    } else {
        exists|o: Option<Result<ResultSet, ExecError>>| #[trigger]
            finished(f, a, q, table_cols(alias, d.schema), row_views(list), o) && tallied(
                mid,
                after,
                o,
                false,
                aggregates(q),
                r,
            )
    }
}

impl<P: Pager> Database<P> {
    /// How a query over the tables `from` is answered. `coerce` makes a literal a value of a
    /// column's type, and `prefer` says by the statistics of a table whether an index is
    /// worth its reads.
    pub fn route<G: Fn(Value, ColumnType) -> Option<Value>, R: Fn(u16, &Probe) -> bool>(
        &self,
        from: &Vec<String>,
        filter: &Option<Expr>,
        coerce: G,
        prefer: R,
    ) -> (r: Route)
        requires
            forall|v: Value, t: ColumnType| #[trigger] coerce.requires((v, t)),
            forall|tid: u16, p: Probe| #[trigger] prefer.requires((tid, &p)),
        ensures
            routed(self, from@, *filter, coerce, prefer, r),
    {
        if from.len() == 0 {
            return Route::Materialize;
        }
        let mut at: Vec<usize> = Vec::new();
        let mut i: usize = 0;
        while i < from.len()
            invariant
                i <= from@.len(),
                at@.len() == i,
                all_named(self.tables@, from@, at@),
            decreases from@.len() - i,
        {
            match self.find_table(&from[i]) {
                Ok(t) => {
                    at.push(t);
                },
                Err(_) => {
                    assert(unknown_at(self.tables@, from@, i as int));
                    return Route::Materialize;
                },
            }
            i = i + 1;
        }
        if at.len() > 1 {
            return Route::Join(at);
        }
        let t: usize = at[0];
        let tid: u16 = self.tables[t].tid;
        assert(named(self.tables@, from@[0]@, t as int));
        if let Some(e) = filter {
            if let Some(p) = find_indexed_pred(
                e,
                &self.tables[t].schema,
                &self.indexes,
                tid,
                coerce,
            ) {
                let yes: bool = prefer(tid, &p);
                assert(preferred(prefer, tid, p, yes));
                if yes {
                    return Route::Index(t, p);
                }
            }
        }
        Route::Scan(t)
    }

    /// Answer a query over table `t` from the rows that the index finds, or from all. It is
    /// left open if it cannot be streamed.
    pub fn select_table<
        D: Fn(&Schema, &Vec<u8>) -> Result<Vec<Value>, ExecError>,
        E: Fn(&Expr, &Sch, &Row) -> Result<Keyed, ExecError>,
        A: Fn(bool, &Vec<Value>) -> Value,
    >(
        &mut self,
        t: usize,
        probe: &Option<Probe>,
        decode: &D,
        f: &E,
        a: &A,
        q: &Select,
        alias: &String,
    ) -> (r: Result<Option<ResultSet>, DbError>)
        requires
            old(self).ok(),
            t < old(self).tables@.len(),
            steady_eval(*f),
            steady_floats(*a),
            forall|p: Vec<u8>| #[trigger]
                decode.requires((&old(self).tables@[t as int].schema, &p)),
            *probe matches Some(p) ==> {
                &&& p.index < old(self).indexes@.len()
                &&& fits_type(old(self).indexes@[p.index as int].col_type, p.value@)
                &&& forall|k: Seq<u8>| #[trigger]
                    old(self).entries(p.index as int).dom().contains(k) ==> addressable(
                        old(self).bp.pages(),
                        old(self).entries(p.index as int)[k],
                    )
            },
        ensures
            final(self).ok(),
            final(self).unmoved(old(self)),
            ({
                ||| {
                    &&& r is Err && device(r->Err_0) && !holds_out(&old(self).bp, 0)
                    &&& final(self).counts == looked_up(old(self).counts, *probe)
                }
                ||| exists|rows: Vec<(Rid, Vec<u8>)>, list: Vec<Vec<Value>>| #[trigger]
                    selected(
                        old(self),
                        t as int,
                        *probe,
                        *decode,
                        *f,
                        *a,
                        *q,
                        alias@,
                        rows@,
                        list@,
                        final(self).counts,
                        r,
                    )
            }),
    {
        let ghost was = *self;
        let tid: u16 = self.tables[t].tid;
        let read: Result<Vec<(Rid, Vec<u8>)>, DbError> = match probe {
            Some(p) => self.index_rows(p.index, tid, p.op, &p.value),
            None => self.scan_table(tid),
        };
        let rows: Vec<(Rid, Vec<u8>)> = match read {
            Ok(v) => v,
            Err(e) => {
                return Err(e);
            },
        };
        assert(source(&was, t as int, *probe, rows@));
        let (list, flaw) = decode_rows(decode, &self.tables[t].schema, &rows);
        if let Some(e) = flaw {
            let ghost seen = e;
            let r: Result<Option<ResultSet>, DbError> = Err(DbError::Exec(e.text));
            proof {
                assert(decode.ensures(
                    (&was.tables@[t as int].schema, &rows@[list@.len() as int].1),
                    Err(seen),
                ));
                assert(selected(
                    &was,
                    t as int,
                    *probe,
                    *decode,
                    *f,
                    *a,
                    *q,
                    alias@,
                    rows@,
                    list@,
                    self.counts,
                    r,
                ));
            }
            return r;
        }
        let o: Option<Result<ResultSet, ExecError>> = try_stream(
            f,
            a,
            q,
            alias,
            &self.tables[t].schema,
            &list,
        );
        let ghost out = o;
        let aggregate: bool = is_aggregate(q);
        let r: Result<Option<ResultSet>, DbError> = self.streamed(o, false, aggregate);
        proof {
            assert(finished(
                *f,
                *a,
                *q,
                table_cols(alias@, was.tables@[t as int].schema),
                row_views(list@),
                out,
            ));
            assert(selected(
                &was,
                t as int,
                *probe,
                *decode,
                *f,
                *a,
                *q,
                alias@,
                rows@,
                list@,
                self.counts,
                r,
            ));
        }
        r
    }
}

/// The tables load one after the other, up to one with a row that does not decode.
pub open spec fn stuck_in<P: Pager, D: Fn(&Schema, &Vec<u8>) -> Result<Vec<Value>, ExecError>>(
    db: &Database<P>,
    decode: D,
    at: Seq<usize>,
    loads: Seq<Vec<Row>>,
    e: ExecError,
) -> bool {
    &&& loads.len() < at.len()
    &&& loaded_in(db, decode, at, loads)
    &&& table_stuck(db, decode, at[loads.len() as int] as int, e)
}

/// The rows of the first of the tables, as they were decoded.
pub open spec fn loaded_in<P: Pager, D: Fn(&Schema, &Vec<u8>) -> Result<Vec<Value>, ExecError>>(
    db: &Database<P>,
    decode: D,
    at: Seq<usize>,
    loads: Seq<Vec<Row>>,
) -> bool {
    forall|i: int|
        0 <= i < loads.len() ==> table_loaded(db, decode, at[i] as int, (#[trigger] loads[i])@)
}

/// The columns of the tables under their aliases.
pub open spec fn cols_of(ts: Seq<TableDef>, at: Seq<usize>, aliases: Seq<String>) -> Seq<Cols> {
    Seq::new(at.len(), |i: int| table_cols(aliases[i]@, ts[at[i] as int].schema))
}

/// What a query over joined tables came to, from the rows they hold: the order in which they
/// are joined is what `plan` chose for those rows.
pub open spec fn selected_join<
    P: Pager,
    D: Fn(&Schema, &Vec<u8>) -> Result<Vec<Value>, ExecError>,
    E: Fn(&Expr, &Sch, &Row) -> Result<Keyed, ExecError>,
    A: Fn(bool, &Vec<Value>) -> Value,
    L: Fn(&Vec<Sch>, &Vec<Vec<Row>>) -> Option<Vec<usize>>,
>(
    db: &Database<P>,
    at: Seq<usize>,
    aliases: Seq<String>,
    decode: D,
    f: E,
    a: A,
    plan: L,
    q: Select,
    kinds: Seq<JoinKind>,
    ons: Seq<ExprView>,
    schs: Vec<Sch>,
    loads: Vec<Vec<Row>>,
    order: Option<Vec<usize>>,
    o: Option<Result<ResultSet, ExecError>>,
    after: Counts,
    r: Result<Option<ResultSet>, DbError>,
) -> bool {
    &&& loads@.len() == at.len()
    &&& loaded_in(db, decode, at, loads@)
    &&& schemas(schs@) == cols_of(db.tables@, at, aliases)
    &&& plan.ensures((&schs, &loads), order)
    &&& join_streamed(
        f,
        a,
        q,
        kinds,
        ons,
        schemas(schs@),
        group_views(loads@),
        order_of(order),
        o,
    )
    &&& tallied(db.counts, after, o, true, aggregates(q), r)
}

impl<P: Pager> Database<P> {
    /// Answer a query over the tables `at`, joined under their aliases, from all of their
    /// rows. It is left open if it cannot be streamed.
    pub fn select_join<
        D: Fn(&Schema, &Vec<u8>) -> Result<Vec<Value>, ExecError>,
        E: Fn(&Expr, &Sch, &Row) -> Result<Keyed, ExecError>,
        A: Fn(bool, &Vec<Value>) -> Value,
        L: Fn(&Vec<Sch>, &Vec<Vec<Row>>) -> Option<Vec<usize>>,
    >(
        &mut self,
        at: &Vec<usize>,
        aliases: &Vec<String>,
        decode: &D,
        f: &E,
        a: &A,
        plan: &L,
        q: &Select,
        kinds: &Vec<JoinKind>,
        ons: &Vec<Expr>,
    ) -> (r: Result<Option<ResultSet>, DbError>)
        requires
            old(self).ok(),
            steady_eval(*f),
            steady_floats(*a),
            at@.len() == aliases@.len(),
            kinds@.len() == ons@.len(),
            forall|i: int| 0 <= i < at@.len() ==> (#[trigger] at@[i]) < old(self).tables@.len(),
            forall|t: int, p: Vec<u8>|
                0 <= t < old(self).tables@.len() ==> #[trigger] decode.requires(
                    (&old(self).tables@[t].schema, &p),
                ),
            forall|s: Vec<Sch>, l: Vec<Vec<Row>>| #[trigger] plan.requires((&s, &l)),
            forall|s: Vec<Sch>, l: Vec<Vec<Row>>, v: Vec<usize>| #[trigger]
                plan.ensures((&s, &l), Some(v)) ==> v@.len() > 0 && forall|i: int|
                    0 <= i < v@.len() ==> (#[trigger] v@[i]) < l@.len(),
        ensures
            final(self).ok(),
            final(self).unmoved(old(self)),
            ({
                ||| {
                    &&& r is Err && device(r->Err_0) && !holds_out(&old(self).bp, 0)
                    &&& final(self).counts == old(self).counts
                }
                ||| exists|loads: Seq<Vec<Row>>, e: ExecError| {
                    &&& #[trigger] stuck_in(old(self), *decode, at@, loads, e)
                    &&& r is Err && says(r->Err_0, e.text@)
                    &&& final(self).counts == old(self).counts
                }
                ||| exists|
                    schs: Vec<Sch>,
                    loads: Vec<Vec<Row>>,
                    order: Option<Vec<usize>>,
                    o: Option<Result<ResultSet, ExecError>>,
                | #[trigger]
                    selected_join(
                        old(self),
                        at@,
                        aliases@,
                        *decode,
                        *f,
                        *a,
                        *plan,
                        *q,
                        kinds@,
                        expr_views(ons@),
                        schs,
                        loads,
                        order,
                        o,
                        final(self).counts,
                        r,
                    )
            }),
    {
        let ghost was = *self;
        let mut schs: Vec<Sch> = Vec::new();
        let mut loads: Vec<Vec<Row>> = Vec::new();
        let mut i: usize = 0;
        while i < at.len()
            invariant
                i <= at@.len() == aliases@.len(),
                was == *old(self),
                self.ok(),
                self.unmoved(&was),
                self.counts == was.counts,
                loads@.len() == i,
                schs@.len() == i,
                loaded_in(&was, *decode, at@, loads@),
                forall|j: int|
                    0 <= j < i ==> sch_view((#[trigger] schs@[j])@) == table_cols(
                        aliases@[j]@,
                        was.tables@[at@[j] as int].schema,
                    ),
                forall|j: int| 0 <= j < at@.len() ==> (#[trigger] at@[j]) < was.tables@.len(),
                forall|t: int, p: Vec<u8>|
                    0 <= t < was.tables@.len() ==> #[trigger] decode.requires(
                        (&was.tables@[t].schema, &p),
                    ),
            decreases at@.len() - i,
        {
            let t: usize = at[i];
            let tid: u16 = self.tables[t].tid;
            proof {
                self.lemma_unmoved_same(&was);
            }
            let rows: Vec<(Rid, Vec<u8>)> = match self.scan_table(tid) {
                Ok(v) => v,
                Err(e) => {
                    return Err(e);
                },
            };
            let (list, flaw) = decode_rows(decode, &self.tables[t].schema, &rows);
            if let Some(e) = flaw {
                proof {
                    assert(sticks(&was, *decode, t as int, rows@, list@, e));
                    assert(stuck_in(&was, *decode, at@, loads@, e));
                }
                return Err(DbError::Exec(e.text));
            }
            assert(lists_as(&was, *decode, t as int, rows@, list@));
            let sch: Sch = bindings(&aliases[i], &self.tables[t].schema);
            assert(sch_view(sch@) =~= table_cols(
                aliases@[i as int]@,
                was.tables@[t as int].schema,
            ));
            loads.push(list);
            schs.push(sch);
            i = i + 1;
        }
        assert(schemas(schs@) =~= cols_of(was.tables@, at@, aliases@));
        let order: Option<Vec<usize>> = plan(&schs, &loads);
        let o: Option<Result<ResultSet, ExecError>> = try_stream_join(
            f,
            a,
            q,
            kinds,
            ons,
            &schs,
            &loads,
            &order,
        );
        let ghost out = o;
        let aggregate: bool = is_aggregate(q);
        let r: Result<Option<ResultSet>, DbError> = self.streamed(o, true, aggregate);
        proof {
            assert(selected_join(
                &was,
                at@,
                aliases@,
                *decode,
                *f,
                *a,
                *plan,
                *q,
                kinds@,
                expr_views(ons@),
                schs,
                loads,
                order,
                out,
                self.counts,
                r,
            ));
        }
        r
    }
}

/// A table has the name.
pub open spec fn is_known(ts: Seq<TableDef>, name: Seq<char>) -> bool {
    exists|t: int| named(ts, name, t)
}

/// A query without tables, or over one that is not known, is answered in memory, and no other
/// is; one over several known tables is joined, and one over a single known table is answered
/// from it.
pub proof fn law_queries_are_routed_by_their_tables<
    G: Fn(Value, ColumnType) -> Option<Value>,
    R: Fn(u16, &Probe) -> bool,
    P: Pager,
>(
    db: &Database<P>,
    from: Seq<String>,
    filter: Option<Expr>,
    coerce: G,
    prefer: R,
    r: Route,
)
    requires
        routed(db, from, filter, coerce, prefer, r),
    ensures
        r is Materialize <==> from.len() == 0 || exists|i: int|
            0 <= i < from.len() && !is_known(db.tables@, (#[trigger] from[i])@),
        r is Join ==> from.len() > 1,
        r is Scan || r is Index ==> from.len() == 1,
        r matches Route::Join(at) ==> at@.len() == from.len() && forall|i: int|
            0 <= i < from.len() ==> named(db.tables@, (#[trigger] from[i])@, at@[i] as int),
{
    match r {
        Route::Materialize => {
            if from.len() > 0 {
                let i = choose|i: int| #[trigger] unknown_at(db.tables@, from, i);
                assert(!is_known(db.tables@, from[i]@));
            }
        },
        Route::Join(at) => {
            assert forall|i: int| 0 <= i < from.len() implies named(
                db.tables@,
                (#[trigger] from[i])@,
                at@[i] as int,
            ) by {
                assert(named(db.tables@, from[i]@, at@[i] as int));
            }
            assert forall|i: int| 0 <= i < from.len() implies is_known(
                db.tables@,
                (#[trigger] from[i])@,
            ) by {
                assert(named(db.tables@, from[i]@, at@[i] as int));
            }
        },
        Route::Scan(t) => {
            assert(is_known(db.tables@, from[0]@));
        },
        Route::Index(t, p) => {
            assert(is_known(db.tables@, from[0]@));
        },
    }
}

} // verus!
