//! Statements that read the rows of their table themselves: DELETE and UPDATE.

use vstd::prelude::*;

use crate::buffer::{BufferPool, WalSync};
use crate::db::ast::{Expr, ExprView};
use crate::db::catalog::{Schema, FIRST_USER_TID, INDEX_TID};
use crate::db::change::{aimed, asks, exprs, misaimed, no_table, resolve_targets, subquery_text};
use crate::db::define::{lists, named, table_data};
use crate::db::dml::{
    known, law_record_roundtrip, own_names, rec_views, row_fits, table_record, TableDef,
};
use crate::db::exec::ExecError;
use crate::db::gather::{
    candidate_views, choice, gathered, outcome_views, victims, Candidate, CandidateView, Outcome,
    OutcomeView,
};
use crate::db::plan::column_named;
use crate::db::rows::{rehosts, with_changes, ChangeView};
use crate::db::statement::{lemma_without, require_no_subquery, stored_rows, without};
use crate::db::store::{defines, device, Database};
use crate::db::{says, DbError};
use crate::heap::{rid_lt, Rid};
use crate::pager::{holds_out, Pager};
use crate::types::{views, Value, ValueView};
use crate::vfs::BlockFile;

verus! {

/// What becomes of one stored row: it is decoded, and if that goes well the filter is asked.
pub open spec fn judged<
    D: Fn(&Schema, &Vec<u8>) -> Result<Vec<Value>, ExecError>,
    M: Fn(&Expr, &Vec<Value>) -> Result<bool, ExecError>,
>(
    schema: &Schema,
    filter: Option<Expr>,
    decode: D,
    matches: M,
    row: (Rid, Vec<u8>),
    c: Candidate,
) -> bool {
    &&& c.rid == row.0
    &&& decode.ensures((schema, &row.1), c.row)
    &&& c.row matches Ok(values) ==> match filter {
        None => c.matched == Ok::<bool, ExecError>(true),
        Some(f) => matches.ensures((&f, &values), c.matched),
    }
}

/// Every stored row was decoded, and the filter asked.
pub open spec fn all_judged<
    D: Fn(&Schema, &Vec<u8>) -> Result<Vec<Value>, ExecError>,
    M: Fn(&Expr, &Vec<Value>) -> Result<bool, ExecError>,
>(
    schema: &Schema,
    filter: Option<Expr>,
    decode: D,
    matches: M,
    rows: Seq<(Rid, Vec<u8>)>,
    cs: Seq<Candidate>,
) -> bool {
    &&& cs.len() == rows.len()
    &&& forall|i: int|
        0 <= i < cs.len() ==> judged(schema, filter, decode, matches, rows[i], #[trigger] cs[i])
}

fn judge<
    D: Fn(&Schema, &Vec<u8>) -> Result<Vec<Value>, ExecError>,
    M: Fn(&Expr, &Vec<Value>) -> Result<bool, ExecError>,
>(
    schema: &Schema,
    filter: &Option<Expr>,
    decode: &D,
    matches: &M,
    rows: &Vec<(Rid, Vec<u8>)>,
) -> (cs: Vec<Candidate>)
    requires
        forall|p: Vec<u8>| #[trigger] decode.requires((schema, &p)),
        forall|f: Expr, values: Vec<Value>| #[trigger] matches.requires((&f, &values)),
    ensures
        all_judged(schema, *filter, *decode, *matches, rows@, cs@),
{
    let mut cs: Vec<Candidate> = Vec::new();
    let mut i: usize = 0;
    while i < rows.len()
        invariant
            i <= rows@.len(),
            cs@.len() == i,
            forall|p: Vec<u8>| #[trigger] decode.requires((schema, &p)),
            forall|f: Expr, values: Vec<Value>| #[trigger] matches.requires((&f, &values)),
            forall|j: int|
                0 <= j < i ==> judged(
                    schema,
                    *filter,
                    *decode,
                    *matches,
                    rows@[j],
                    #[trigger] cs@[j],
                ),
        decreases rows@.len() - i,
    {
        let row: Result<Vec<Value>, ExecError> = decode(schema, &rows[i].1);
        let mut matched: Result<bool, ExecError> = Ok(true);
        if let Ok(values) = &row {
            if let Some(f) = filter {
                matched = matches(f, values);
            }
        }
        let c: Candidate = Candidate { rid: rows[i].0, row, matched };
        assert(judged(schema, *filter, *decode, *matches, rows@[i as int], c));
        cs.push(c);
        i = i + 1;
    }
    cs
}

/// What the rows of a table are taken for: each is one of the table's, and none comes twice.
pub open spec fn of_table(cs: Seq<CandidateView>, recs: Map<Rid, Seq<u8>>, tid: u16) -> bool {
    &&& forall|i: int|
        0 <= i < cs.len() ==> table_data(recs, tid).dom().contains((#[trigger] cs[i]).rid)
    &&& forall|i: int, j: int|
        0 <= i < j < cs.len() ==> (#[trigger] cs[i]).rid != (#[trigger] cs[j]).rid
}

proof fn lemma_of_table<
    D: Fn(&Schema, &Vec<u8>) -> Result<Vec<Value>, ExecError>,
    M: Fn(&Expr, &Vec<Value>) -> Result<bool, ExecError>,
>(
    schema: &Schema,
    filter: Option<Expr>,
    decode: D,
    matches: M,
    rows: Seq<(Rid, Vec<u8>)>,
    cs: Seq<Candidate>,
    recs: Map<Rid, Seq<u8>>,
    tid: u16,
)
    requires
        lists(table_data(recs, tid), rec_views(rows)),
        all_judged(schema, filter, decode, matches, rows, cs),
    ensures
        of_table(candidate_views(cs), recs, tid),
{
    let v = rec_views(rows);
    let cv = candidate_views(cs);
    assert forall|i: int| 0 <= i < cv.len() implies (#[trigger] cv[i]).rid == v[i].0 by {
        assert(judged(schema, filter, decode, matches, rows[i], cs[i]));
        assert(cv[i] == cs[i]@);
    }
    assert forall|i: int| 0 <= i < cv.len() implies table_data(recs, tid).dom().contains(
        (#[trigger] cv[i]).rid,
    ) by {
        assert(cv[i].rid == v[i].0);
    }
    assert forall|i: int, j: int| 0 <= i < j < cv.len() implies (#[trigger] cv[i]).rid != (
    #[trigger] cv[j]).rid by {
        assert(rid_lt(v[i].0, v[j].0));
    }
}

/// A row of a table defines no index.
proof fn lemma_defines_nothing<P: Pager>(db: &Database<P>, tid: u16, rid: Rid)
    requires
        db.ok(),
        tid >= FIRST_USER_TID,
        table_data(db.stored(), tid).dom().contains(rid),
    ensures
        db.stored().dom().contains(rid),
        !defines(db.indexes@, rid),
{
    if defines(db.indexes@, rid) {
        let i = choose|i: int|
            0 <= i < db.indexes@.len() && (#[trigger] db.indexes@[i]).catalog_rid == rid;
        let m = db.indexes@[i];
        db.lemma_defined(i);
        law_record_roundtrip(
            INDEX_TID,
            crate::db::catalog::stored_index(
                vstd::utf8::encode_utf8(m.name@),
                m.table_id,
                m.col_index as u32,
                m.col_type,
                m.root,
            ),
        );
    }
}

/// The victims of a DELETE are rows that were read, each once.
proof fn lemma_victims_read(cs: Seq<CandidateView>, n: int)
    requires
        0 <= n <= cs.len(),
        victims(cs, n) is Ok,
    ensures
        forall|i: int|
            0 <= i < victims(cs, n)->Ok_0.len() ==> read_as(cs, n, #[trigger] victims(cs, n)->Ok_0[i]),
        (forall|i: int, j: int|
            0 <= i < j < cs.len() ==> (#[trigger] cs[i]).rid != (#[trigger] cs[j]).rid)
            ==> forall|i: int, j: int|
            0 <= i < j < victims(cs, n)->Ok_0.len() ==> (#[trigger] victims(cs, n)->Ok_0[i]).0 != (
            #[trigger] victims(cs, n)->Ok_0[j]).0,
    decreases n,
{
    if n > 0 {
        lemma_victims_read(cs, n - 1);
        let before = victims(cs, n - 1)->Ok_0;
        let vs = victims(cs, n)->Ok_0;
        assert forall|i: int| 0 <= i < vs.len() implies read_as(cs, n, #[trigger] vs[i]) by {
            if i < before.len() {
                assert(vs[i] == before[i]);
                let k = choose|k: int| #[trigger] read_at(cs, n - 1, vs[i], k);
                assert(read_at(cs, n, vs[i], k));
            } else {
                assert(read_at(cs, n, vs[i], n - 1));
            }
        }
        if forall|i: int, j: int|
            0 <= i < j < cs.len() ==> (#[trigger] cs[i]).rid != (#[trigger] cs[j]).rid {
            assert forall|i: int, j: int| 0 <= i < j < vs.len() implies (#[trigger] vs[i]).0 != (
            #[trigger] vs[j]).0 by {
                if j < before.len() {
                    assert(vs[i] == before[i] && vs[j] == before[j]);
                } else {
                    assert(vs[i] == before[i]);
                    let k = choose|k: int| #[trigger] read_at(cs, n - 1, vs[i], k);
                    assert(cs[k].rid != cs[n - 1].rid);
                }
            }
        }
    }
}

spec fn read_at(cs: Seq<CandidateView>, n: int, v: (Rid, Seq<ValueView>), k: int) -> bool {
    0 <= k < n && cs[k].rid == v.0 && cs[k].row == Ok::<Seq<ValueView>, Seq<char>>(v.1)
}

spec fn read_as(cs: Seq<CandidateView>, n: int, v: (Rid, Seq<ValueView>)) -> bool {
    exists|k: int| #[trigger] read_at(cs, n, v, k)
}

/// The changes of an UPDATE are to rows that were read.
proof fn lemma_changes_read(
    schema: &Schema,
    targets: Seq<usize>,
    cs: Seq<CandidateView>,
    os: Seq<OutcomeView>,
    n: int,
)
    requires
        0 <= n <= cs.len(),
        gathered(schema, targets, cs, os, n) is Ok,
    ensures
        ({
            let ws = (gathered(schema, targets, cs, os, n)->Ok_0).0;
            forall|i: int|
                0 <= i < ws.len() ==> read_as(cs, n, ((#[trigger] ws[i]).rid, ws[i].old_row))
        }),
    decreases n,
{
    if n > 0 {
        lemma_changes_read(schema, targets, cs, os, n - 1);
        let before = (gathered(schema, targets, cs, os, n - 1)->Ok_0).0;
        let ws = (gathered(schema, targets, cs, os, n)->Ok_0).0;
        assert forall|i: int| 0 <= i < ws.len() implies read_as(
            cs,
            n,
            ((#[trigger] ws[i]).rid, ws[i].old_row),
        ) by {
            let v = (ws[i].rid, ws[i].old_row);
            if i < before.len() {
                assert(ws[i] == before[i]);
                let k = choose|k: int| #[trigger] read_at(cs, n - 1, v, k);
                assert(read_at(cs, n, v, k));
            } else {
                assert(choice(cs[n - 1]) is Ok);
                assert(read_at(cs, n, v, n - 1));
            }
        }
    }
}

/// Decoding gives rows as wide as the schema, with values of the types that the indexes of
/// the table are on.
pub open spec fn decodes<D: Fn(&Schema, &Vec<u8>) -> Result<Vec<Value>, ExecError>, P: Pager>(
    decode: D,
    db: &Database<P>,
    t: int,
) -> bool {
    let d = db.tables@[t];
    &&& d.tid >= FIRST_USER_TID
    &&& forall|p: Vec<u8>| #[trigger] decode.requires((&d.schema, &p))
    &&& forall|p: Vec<u8>, values: Vec<Value>| #[trigger]
        decode.ensures((&d.schema, &p), Ok(values)) ==> values@.len() == d.schema.columns@.len()
            && row_fits(db.indexes@, d.tid, views(values@))
}

/// What was decoded is as wide as the schema and fits the indexes.
proof fn lemma_decoded<
    D: Fn(&Schema, &Vec<u8>) -> Result<Vec<Value>, ExecError>,
    M: Fn(&Expr, &Vec<Value>) -> Result<bool, ExecError>,
    P: Pager,
>(
    db: &Database<P>,
    t: int,
    filter: Option<Expr>,
    decode: D,
    matches: M,
    rows: Seq<(Rid, Vec<u8>)>,
    cs: Seq<Candidate>,
)
    requires
        decodes(decode, db, t),
        all_judged(&db.tables@[t].schema, filter, decode, matches, rows, cs),
    ensures
        forall|i: int|
            0 <= i < cs.len() && (#[trigger] cs[i]).row is Ok ==> cs[i].row->Ok_0@.len()
                == db.tables@[t].schema.columns@.len() && row_fits(
                db.indexes@,
                db.tables@[t].tid,
                views(cs[i].row->Ok_0@),
            ),
{
    assert forall|i: int| 0 <= i < cs.len() && (#[trigger] cs[i]).row is Ok implies cs[i].row->Ok_0@.len()
        == db.tables@[t].schema.columns@.len() && row_fits(
        db.indexes@,
        db.tables@[t].tid,
        views(cs[i].row->Ok_0@),
    ) by {
        assert(judged(&db.tables@[t].schema, filter, decode, matches, rows[i], cs[i]));
        let values = cs[i].row->Ok_0;
        assert(decode.ensures((&db.tables@[t].schema, &rows[i].1), Ok(values)));
    }
}

impl<F: BlockFile, W: WalSync> Database<BufferPool<F, W>> {
    /// A DELETE read all rows of table `t` from `here`, and then went on.
    pub open spec fn deleted_where<
        D: Fn(&Schema, &Vec<u8>) -> Result<Vec<Value>, ExecError>,
        M: Fn(&Expr, &Vec<Value>) -> Result<bool, ExecError>,
    >(
        &self,
        before: &Self,
        here: Self,
        t: int,
        filter: Option<Expr>,
        decode: D,
        matches: M,
        rows: Seq<(Rid, Vec<u8>)>,
        cs: Seq<Candidate>,
        logged: bool,
        mid: Self,
        w: Result<usize, DbError>,
        r: Result<usize, DbError>,
    ) -> bool {
        &&& here.unmoved(before)
        &&& lists(table_data(before.stored(), before.tables@[t].tid), rec_views(rows))
        &&& all_judged(&before.tables@[t].schema, filter, decode, matches, rows, cs)
        &&& self.delete_ended(&here, t, candidate_views(cs), logged, mid, w, r)
    }

    /// DELETE: the rows of the table that the filter takes are deleted, and no others.
    pub fn delete_where<
        D: Fn(&Schema, &Vec<u8>) -> Result<Vec<Value>, ExecError>,
        M: Fn(&Expr, &Vec<Value>) -> Result<bool, ExecError>,
    >(
        &mut self,
        table: &String,
        filter: &Option<Expr>,
        decode: &D,
        matches: &M,
        logged: bool,
    ) -> (r: Result<usize, DbError>)
        requires
            old(self).ok(),
            forall|t: int| #[trigger]
                named(old(self).tables@, table@, t) ==> decodes(*decode, old(self), t),
            forall|f: Expr, values: Vec<Value>| #[trigger] matches.requires((&f, &values)),
        ensures
            final(self).counts == old(self).counts,
            ({
                ||| {
                    &&& forall|t: int| !named(old(self).tables@, table@, t)
                    &&& r is Err && no_table(r->Err_0, table@)
                    &&& *final(self) == *old(self)
                }
                ||| {
                    &&& exists|t: int| named(old(self).tables@, table@, t)
                    &&& asks(*filter)
                    &&& r is Err && says(r->Err_0, subquery_text())
                    &&& *final(self) == *old(self)
                }
                ||| {
                    &&& exists|t: int| named(old(self).tables@, table@, t)
                    &&& !asks(*filter)
                    &&& r is Err && device(r->Err_0) && !holds_out(&old(self).bp, 0)
                    &&& final(self).unmoved(old(self))
                }
                ||| exists|
                    t: int,
                    here: Self,
                    rows: Vec<(Rid, Vec<u8>)>,
                    cs: Vec<Candidate>,
                    mid: Self,
                    w: Result<usize, DbError>,
                | {
                    &&& named(old(self).tables@, table@, t)
                    &&& !asks(*filter)
                    &&& #[trigger] final(self).deleted_where(
                        old(self),
                        here,
                        t,
                        *filter,
                        *decode,
                        *matches,
                        rows@,
                        cs@,
                        logged,
                        mid,
                        w,
                        r,
                    )
                }
            }),
    {
        let ghost was = *self;
        let t: usize = match self.find_table(table) {
            Ok(t) => t,
            Err(e) => {
                return Err(e);
            },
        };
        if let Some(f) = filter {
            match require_no_subquery(f) {
                Ok(()) => {},
                Err(e) => {
                    return Err(e);
                },
            }
        }
        let tid: u16 = self.tables[t].tid;
        let rows: Vec<(Rid, Vec<u8>)> = match self.scan_table(tid) {
            Ok(v) => v,
            Err(e) => {
                return Err(e);
            },
        };
        let ghost here = *self;
        proof {
            assert(named(was.tables@, table@, t as int));
            here.lemma_unmoved_same(&was);
        }
        let cs: Vec<Candidate> = judge(&self.tables[t].schema, filter, decode, matches, &rows);
        proof {
            let schema = &was.tables@[t as int].schema;
            let cv = candidate_views(cs@);
            lemma_of_table(schema, *filter, *decode, *matches, rows@, cs@, was.stored(), tid);
            lemma_decoded(&was, t as int, *filter, *decode, *matches, rows@, cs@);
            if victims(cv, cv.len() as int) is Ok {
                lemma_victims_read(cv, cv.len() as int);
                let vs = victims(cv, cv.len() as int)->Ok_0;
                assert forall|i: int| 0 <= i < vs.len() implies here.stored().dom().contains(
                    (#[trigger] vs[i]).0,
                ) && !defines(here.indexes@, vs[i].0) && row_fits(here.indexes@, tid, vs[i].1) by {
                    assert(read_as(cv, cv.len() as int, vs[i]));
                    let k = choose|k: int| #[trigger] read_at(cv, cv.len() as int, vs[i], k);
                    assert(cv[k] == cs@[k]@);
                    lemma_defines_nothing(&here, tid, vs[i].0);
                }
                assert(stored_rows(here.stored(), here.indexes@, tid, vs));
            }
            assert forall|x: int|
                named(here.tables@, table@, x) implies #[trigger] here.tables@[x].tid == tid by {
                lemma_only_table(here.tables@, table@, t as int, x);
            }
        }
        let ghost seen = cs;
        let r: Result<usize, DbError> = self.delete_statement(table, filter, cs, logged);
        proof {
            let (x, mid, w) = choose|x: int, mid: Self, w: Result<usize, DbError>| {
                &&& named(here.tables@, table@, x)
                &&& !asks(*filter)
                &&& #[trigger] self.delete_ended(
                    &here,
                    x,
                    candidate_views(seen@),
                    logged,
                    mid,
                    w,
                    r,
                )
            };
            lemma_only_table(here.tables@, table@, t as int, x);
            assert(self.deleted_where(
                &was,
                here,
                t as int,
                *filter,
                *decode,
                *matches,
                rows@,
                seen@,
                logged,
                mid,
                w,
                r,
            ));
        }
        r
    }
}

/// What evaluating the assignments on the rows that the filter takes gave.
pub open spec fn all_evaluated<E: Fn(&Vec<Value>) -> Outcome>(
    eval: E,
    width: nat,
    cs: Seq<Candidate>,
    os: Seq<Outcome>,
) -> bool {
    &&& os.len() == cs.len()
    &&& forall|i: int| 0 <= i < os.len() ==> evaluated(eval, width, cs[i], #[trigger] os[i])
}

pub open spec fn evaluated<E: Fn(&Vec<Value>) -> Outcome>(
    eval: E,
    width: nat,
    c: Candidate,
    o: Outcome,
) -> bool {
    &&& o.vals@.len() == width
    &&& c.row is Ok && c.matched == Ok::<bool, ExecError>(true) ==> eval.ensures(
        (&c.row->Ok_0,),
        o,
    )
}

/// An outcome that nobody asks for.
fn idle_outcome(width: usize) -> (o: Outcome)
    ensures
        o.vals@.len() == width,
{
    let mut vals: Vec<Result<Value, ExecError>> = Vec::new();
    let mut i: usize = 0;
    while i < width
        invariant
            i <= width,
            vals@.len() == i,
        decreases width - i,
    {
        vals.push(Ok(Value::Null));
        i = i + 1;
    }
    Outcome { vals, payload: Ok(Vec::new()) }
}

fn evaluate<E: Fn(&Vec<Value>) -> Outcome>(eval: &E, width: usize, cs: &Vec<Candidate>) -> (os: Vec<
    Outcome,
>)
    requires
        forall|values: Vec<Value>| #[trigger] eval.requires((&values,)),
        forall|values: Vec<Value>, o: Outcome| #[trigger]
            eval.ensures((&values,), o) ==> o.vals@.len() == width,
    ensures
        all_evaluated(*eval, width as nat, cs@, os@),
{
    let mut os: Vec<Outcome> = Vec::new();
    let mut i: usize = 0;
    while i < cs.len()
        invariant
            i <= cs@.len(),
            os@.len() == i,
            forall|values: Vec<Value>| #[trigger] eval.requires((&values,)),
            forall|values: Vec<Value>, o: Outcome| #[trigger]
                eval.ensures((&values,), o) ==> o.vals@.len() == width,
            forall|j: int|
                0 <= j < i ==> evaluated(*eval, width as nat, cs@[j], #[trigger] os@[j]),
        decreases cs@.len() - i,
    {
        let c: &Candidate = &cs[i];
        let o: Outcome = match (&c.row, &c.matched) {
            (Ok(values), Ok(true)) => eval(values),
            _ => idle_outcome(width),
        };
        assert(evaluated(*eval, width as nat, *c, o));
        os.push(o);
        i = i + 1;
    }
    os
}

impl<P: Pager> Database<P> {
    /// What an UPDATE of table `t` may see: its rows, what the filter says of them, and what
    /// evaluating the assignments gives.
    pub open spec fn sees<
        D: Fn(&Schema, &Vec<u8>) -> Result<Vec<Value>, ExecError>,
        M: Fn(&Expr, &Vec<Value>) -> Result<bool, ExecError>,
        E: Fn(&Vec<Value>) -> Outcome,
    >(
        &self,
        t: int,
        targets: Seq<usize>,
        filter: Option<Expr>,
        asgs: Seq<(String, Expr)>,
        decode: D,
        matches: M,
        eval: E,
        rows: Seq<(Rid, Vec<u8>)>,
        cs: Seq<Candidate>,
        os: Seq<Outcome>,
    ) -> bool {
        let d = self.tables@[t];
        &&& aimed(&d.schema, exprs(asgs), targets)
        &&& lists(table_data(self.stored(), d.tid), rec_views(rows))
        &&& all_judged(&d.schema, filter, decode, matches, rows, cs)
        &&& all_evaluated(eval, asgs.len(), cs, os)
    }

    /// The new rows fit the indexes of table `t`, which find room for them.
    pub open spec fn changes_fit(
        &self,
        t: int,
        targets: Seq<usize>,
        cs: Seq<CandidateView>,
        os: Seq<OutcomeView>,
    ) -> bool {
        let tid = self.tables@[t].tid;
        self.changes(t, targets, cs, os) matches Ok((ws, _)) ==> {
            &&& forall|i: int|
                0 <= i < ws.len() ==> row_fits(self.indexes@, tid, (#[trigger] ws[i]).new_row)
            &&& rehosts(
                self.trees@,
                self.indexes@,
                tid,
                ws,
                self.bp.count() as int,
                0,
                u32::MAX as int,
            )
        }
    }
}

/// What was seen can be written.
proof fn lemma_takes_changes<
    D: Fn(&Schema, &Vec<u8>) -> Result<Vec<Value>, ExecError>,
    M: Fn(&Expr, &Vec<Value>) -> Result<bool, ExecError>,
    E: Fn(&Vec<Value>) -> Outcome,
    P: Pager,
>(
    db: &Database<P>,
    t: int,
    targets: Seq<usize>,
    filter: Option<Expr>,
    asgs: Seq<(String, Expr)>,
    decode: D,
    matches: M,
    eval: E,
    rows: Seq<(Rid, Vec<u8>)>,
    cs: Seq<Candidate>,
    os: Seq<Outcome>,
)
    requires
        db.ok(),
        decodes(decode, db, t),
        db.sees(t, targets, filter, asgs, decode, matches, eval, rows, cs, os),
        db.changes_fit(t, targets, candidate_views(cs), outcome_views(os)),
    ensures
        db.takes_changes(t, targets, candidate_views(cs), outcome_views(os)),
{
    let cv = candidate_views(cs);
    let ov = outcome_views(os);
    let tid = db.tables@[t].tid;
    let schema = &db.tables@[t].schema;
    lemma_of_table(schema, filter, decode, matches, rows, cs, db.stored(), tid);
    lemma_decoded(db, t, filter, decode, matches, rows, cs);
    assert forall|i: int| 0 <= i < cv.len() && (#[trigger] cv[i]).row is Ok implies cv[i].row->Ok_0.len()
        == schema.columns@.len() by {
        assert(cv[i] == cs[i]@);
    }
    assert forall|i: int| 0 <= i < ov.len() implies (#[trigger] ov[i]).vals.len() == targets.len() by {
        assert(ov[i] == os[i]@);
        assert(evaluated(eval, asgs.len(), cs[i], os[i]));
    }
    if db.changes(t, targets, cv, ov) is Ok {
        let ws = (db.changes(t, targets, cv, ov)->Ok_0).0;
        lemma_changes_read(schema, targets, cv, ov, cv.len() as int);
        assert forall|i: int| 0 <= i < ws.len() implies {
            let w = #[trigger] ws[i];
            &&& db.stored().dom().contains(w.rid)
            &&& !defines(db.indexes@, w.rid)
            &&& row_fits(db.indexes@, tid, w.old_row)
            &&& row_fits(db.indexes@, tid, w.new_row)
        } by {
            let v = (ws[i].rid, ws[i].old_row);
            assert(read_as(cv, cv.len() as int, v));
            let k = choose|k: int| #[trigger] read_at(cv, cv.len() as int, v, k);
            assert(cv[k] == cs[k]@);
            lemma_defines_nothing(db, tid, ws[i].rid);
        }
    }
}

impl<F: BlockFile, W: WalSync> Database<BufferPool<F, W>> {
    /// An UPDATE read all rows of table `t` from `here`, and then went on.
    pub open spec fn updated_where<
        D: Fn(&Schema, &Vec<u8>) -> Result<Vec<Value>, ExecError>,
        M: Fn(&Expr, &Vec<Value>) -> Result<bool, ExecError>,
        E: Fn(&Vec<Value>) -> Outcome,
    >(
        &self,
        before: &Self,
        here: Self,
        t: int,
        targets: Seq<usize>,
        filter: Option<Expr>,
        asgs: Seq<(String, Expr)>,
        decode: D,
        matches: M,
        eval: E,
        rows: Seq<(Rid, Vec<u8>)>,
        cs: Seq<Candidate>,
        os: Seq<Outcome>,
        logged: bool,
        mid: Self,
        w: Result<usize, DbError>,
        s: Result<usize, DbError>,
        r: Result<usize, DbError>,
    ) -> bool {
        &&& here.unmoved(before)
        &&& before.sees(t, targets, filter, asgs, decode, matches, eval, rows, cs, os)
        &&& self.update_ended(
            &here,
            t,
            targets,
            candidate_views(cs),
            outcome_views(os),
            logged,
            mid,
            w,
            s,
            r,
        )
    }

    /// UPDATE: the assignments are made in the rows of the table that the filter takes, and
    /// in no others.
    pub fn update_where<
        D: Fn(&Schema, &Vec<u8>) -> Result<Vec<Value>, ExecError>,
        M: Fn(&Expr, &Vec<Value>) -> Result<bool, ExecError>,
        E: Fn(&Vec<Value>) -> Outcome,
    >(
        &mut self,
        table: &String,
        filter: &Option<Expr>,
        asgs: &Vec<(String, Expr)>,
        decode: &D,
        matches: &M,
        eval: &E,
        logged: bool,
    ) -> (r: Result<usize, DbError>)
        requires
            old(self).ok(),
            forall|t: int| #[trigger]
                named(old(self).tables@, table@, t) ==> decodes(*decode, old(self), t),
            forall|f: Expr, values: Vec<Value>| #[trigger] matches.requires((&f, &values)),
            forall|values: Vec<Value>| #[trigger] eval.requires((&values,)),
            forall|values: Vec<Value>, o: Outcome| #[trigger]
                eval.ensures((&values,), o) ==> o.vals@.len() == asgs@.len(),
            forall|
                t: int,
                targets: Seq<usize>,
                rows: Vec<(Rid, Vec<u8>)>,
                cs: Vec<Candidate>,
                os: Vec<Outcome>,
            |
                named(old(self).tables@, table@, t) && #[trigger] old(self).sees(
                    t,
                    targets,
                    *filter,
                    asgs@,
                    *decode,
                    *matches,
                    *eval,
                    rows@,
                    cs@,
                    os@,
                ) ==> old(self).changes_fit(
                    t,
                    targets,
                    candidate_views(cs@),
                    outcome_views(os@),
                ),
        ensures
            final(self).counts == old(self).counts,
            ({
                ||| {
                    &&& forall|t: int| !named(old(self).tables@, table@, t)
                    &&& r is Err && no_table(r->Err_0, table@)
                    &&& *final(self) == *old(self)
                }
                ||| {
                    &&& exists|t: int| named(old(self).tables@, table@, t)
                    &&& asks(*filter)
                    &&& r is Err && says(r->Err_0, subquery_text())
                    &&& *final(self) == *old(self)
                }
                ||| exists|t: int, i: int| {
                    &&& named(old(self).tables@, table@, t)
                    &&& !asks(*filter)
                    &&& r is Err && #[trigger] misaimed(
                        &old(self).tables@[t].schema,
                        exprs(asgs@),
                        i,
                        r->Err_0,
                    )
                    &&& *final(self) == *old(self)
                }
                ||| {
                    &&& exists|t: int, targets: Seq<usize>|
                        named(old(self).tables@, table@, t) && #[trigger] aimed(
                            &old(self).tables@[t].schema,
                            exprs(asgs@),
                            targets,
                        )
                    &&& !asks(*filter)
                    &&& r is Err && device(r->Err_0) && !holds_out(&old(self).bp, 0)
                    &&& final(self).unmoved(old(self))
                }
                ||| exists|
                    t: int,
                    here: Self,
                    targets: Seq<usize>,
                    rows: Vec<(Rid, Vec<u8>)>,
                    cs: Vec<Candidate>,
                    os: Vec<Outcome>,
                    mid: Self,
                    w: Result<usize, DbError>,
                    s: Result<usize, DbError>,
                | {
                    &&& named(old(self).tables@, table@, t)
                    &&& !asks(*filter)
                    &&& #[trigger] final(self).updated_where(
                        old(self),
                        here,
                        t,
                        targets,
                        *filter,
                        asgs@,
                        *decode,
                        *matches,
                        *eval,
                        rows@,
                        cs@,
                        os@,
                        logged,
                        mid,
                        w,
                        s,
                        r,
                    )
                }
            }),
    {
        let ghost was = *self;
        let t: usize = match self.find_table(table) {
            Ok(t) => t,
            Err(e) => {
                return Err(e);
            },
        };
        if let Some(f) = filter {
            match require_no_subquery(f) {
                Ok(()) => {},
                Err(e) => {
                    return Err(e);
                },
            }
        }
        match resolve_targets(&self.tables[t].schema, asgs) {
            Ok(_) => {},
            Err(e) => {
                proof {
                    let i = choose|i: int| #[trigger]
                        misaimed(&was.tables@[t as int].schema, exprs(asgs@), i, e);
                    assert(misaimed(&was.tables@[t as int].schema, exprs(asgs@), i, e));
                }
                return Err(e);
            },
        }
        let tid: u16 = self.tables[t].tid;
        let rows: Vec<(Rid, Vec<u8>)> = match self.scan_table(tid) {
            Ok(v) => v,
            Err(e) => {
                return Err(e);
            },
        };
        let ghost here = *self;
        proof {
            assert(named(was.tables@, table@, t as int));
            here.lemma_unmoved_same(&was);
        }
        let cs: Vec<Candidate> = judge(&self.tables[t].schema, filter, decode, matches, &rows);
        let os: Vec<Outcome> = evaluate(eval, asgs.len(), &cs);
        let ghost seen = cs;
        let ghost given = os;
        proof {
            assert forall|x: int, targets: Seq<usize>|
                named(here.tables@, table@, x) && !asks(*filter) && aimed(
                    &here.tables@[x].schema,
                    exprs(asgs@),
                    targets,
                ) implies #[trigger] here.takes_changes(
                x,
                targets,
                candidate_views(seen@),
                outcome_views(given@),
            ) by {
                lemma_only_table(here.tables@, table@, t as int, x);
                assert(was.sees(
                    x,
                    targets,
                    *filter,
                    asgs@,
                    *decode,
                    *matches,
                    *eval,
                    rows@,
                    seen@,
                    given@,
                ));
                assert(here.sees(
                    x,
                    targets,
                    *filter,
                    asgs@,
                    *decode,
                    *matches,
                    *eval,
                    rows@,
                    seen@,
                    given@,
                ));
                assert(decodes(*decode, &was, x));
                assert(decodes(*decode, &here, x));
                assert(here.changes_fit(
                    x,
                    targets,
                    candidate_views(seen@),
                    outcome_views(given@),
                ));
                lemma_takes_changes(
                    &here,
                    x,
                    targets,
                    *filter,
                    asgs@,
                    *decode,
                    *matches,
                    *eval,
                    rows@,
                    seen@,
                    given@,
                );
            }
        }
        let r: Result<usize, DbError> = self.update_statement(table, filter, asgs, cs, os, logged);
        proof {
            if exists|y: int, i: int| {
                &&& named(here.tables@, table@, y)
                &&& r is Err && #[trigger] misaimed(
                    &here.tables@[y].schema,
                    exprs(asgs@),
                    i,
                    r->Err_0,
                )
                &&& *self == here
            } {
                let (y, i) = choose|y: int, i: int| {
                    &&& named(here.tables@, table@, y)
                    &&& r is Err && #[trigger] misaimed(
                        &here.tables@[y].schema,
                        exprs(asgs@),
                        i,
                        r->Err_0,
                    )
                    &&& *self == here
                };
                lemma_only_table(here.tables@, table@, t as int, y);
                lemma_aimed_or_not(&here.tables@[t as int].schema, exprs(asgs@), i, r->Err_0);
            }
            let (x, targets, mid, w, s) = choose|
                x: int,
                targets: Seq<usize>,
                mid: Self,
                w: Result<usize, DbError>,
                s: Result<usize, DbError>,
            | {
                &&& named(here.tables@, table@, x)
                &&& !asks(*filter)
                &&& aimed(&here.tables@[x].schema, exprs(asgs@), targets)
                &&& #[trigger] self.update_ended(
                    &here,
                    x,
                    targets,
                    candidate_views(seen@),
                    outcome_views(given@),
                    logged,
                    mid,
                    w,
                    s,
                    r,
                )
            };
            lemma_only_table(here.tables@, table@, t as int, x);
            assert(self.updated_where(
                &was,
                here,
                t as int,
                targets,
                *filter,
                asgs@,
                *decode,
                *matches,
                *eval,
                rows@,
                seen@,
                given@,
                logged,
                mid,
                w,
                s,
                r,
            ));
        }
        r
    }
}

/// Only one table has the name.
proof fn lemma_only_table(ts: Seq<TableDef>, name: Seq<char>, a: int, b: int)
    requires
        own_names(ts),
        named(ts, name, a),
        named(ts, name, b),
    ensures
        a == b,
{
    if a < b {
        assert(ts[a].name@ != ts[b].name@);
    } else if b < a {
        assert(ts[b].name@ != ts[a].name@);
    }
}

/// Assignments that resolve have none that cannot be made.
proof fn lemma_aimed_or_not(
    schema: &Schema,
    asgs: Seq<(Seq<char>, ExprView)>,
    i: int,
    e: DbError,
)
    requires
        misaimed(schema, asgs, i, e),
    ensures
        forall|targets: Seq<usize>| !aimed(schema, asgs, targets),
{
    assert forall|targets: Seq<usize>| !aimed(schema, asgs, targets) by {
        if aimed(schema, asgs, targets) {
            assert(column_named(schema, asgs[i].0, targets[i] as int));
            assert(known(schema, asgs[i].0));
        }
    }
}

// ---- laws ----

/// The row at `x` was read as number `k` and the filter takes it.
pub open spec fn taken_at(cs: Seq<Candidate>, x: Rid, k: int) -> bool {
    &&& 0 <= k < cs.len()
    &&& cs[k].rid == x
    &&& cs[k].row is Ok
    &&& cs[k].matched == Ok::<bool, ExecError>(true)
}

/// The filter takes the row at `x`.
pub open spec fn taken(cs: Seq<Candidate>, x: Rid) -> bool {
    exists|k: int| #[trigger] taken_at(cs, x, k)
}

/// The rows that a DELETE takes are those that the filter takes.
proof fn lemma_victims_taken(cs: Seq<Candidate>, n: int, x: Rid)
    requires
        0 <= n <= cs.len(),
        victims(candidate_views(cs), n) is Ok,
    ensures
        ({
            let vs = victims(candidate_views(cs), n)->Ok_0;
            (exists|i: int| 0 <= i < vs.len() && (#[trigger] vs[i]).0 == x) <==> exists|k: int|
                k < n && #[trigger] taken_at(cs, x, k)
        }),
    decreases n,
{
    if n > 0 {
        let cv = candidate_views(cs);
        lemma_victims_taken(cs, n - 1, x);
        let before = victims(cv, n - 1)->Ok_0;
        let vs = victims(cv, n)->Ok_0;
        assert(cv[n - 1] == cs[n - 1]@);
        if exists|i: int| 0 <= i < vs.len() && (#[trigger] vs[i]).0 == x {
            let i = choose|i: int| 0 <= i < vs.len() && (#[trigger] vs[i]).0 == x;
            if i < before.len() {
                assert(vs[i] == before[i]);
            } else {
                assert(taken_at(cs, x, n - 1));
            }
        }
        if exists|k: int| k < n && #[trigger] taken_at(cs, x, k) {
            let k = choose|k: int| k < n && #[trigger] taken_at(cs, x, k);
            if k < n - 1 {
                assert(taken_at(cs, x, k));
                let i = choose|i: int| 0 <= i < before.len() && (#[trigger] before[i]).0 == x;
                assert(vs[i] == before[i]);
            } else {
                assert(vs[before.len() as int].0 == x);
            }
        }
    }
}

/// A DELETE that succeeds takes exactly the rows of its table that the filter takes: every
/// other record is as it was. (Where an index begins may have changed.)
pub proof fn law_delete_takes_exactly_the_matching_rows<
    F: BlockFile,
    W: WalSync,
    D: Fn(&Schema, &Vec<u8>) -> Result<Vec<Value>, ExecError>,
    M: Fn(&Expr, &Vec<Value>) -> Result<bool, ExecError>,
>(
    after: &Database<BufferPool<F, W>>,
    before: &Database<BufferPool<F, W>>,
    here: Database<BufferPool<F, W>>,
    t: int,
    filter: Option<Expr>,
    decode: D,
    matches: M,
    rows: Seq<(Rid, Vec<u8>)>,
    cs: Seq<Candidate>,
    logged: bool,
    mid: Database<BufferPool<F, W>>,
    w: Result<usize, DbError>,
    r: Result<usize, DbError>,
    x: Rid,
)
    requires
        after.deleted_where(
            before,
            here,
            t,
            filter,
            decode,
            matches,
            rows,
            cs,
            logged,
            mid,
            w,
            r,
        ),
        r is Ok,
        !defines(before.indexes@, x),
    ensures
        after.stored().dom().contains(x) <==> before.stored().dom().contains(x) && !taken(cs, x),
        after.stored().dom().contains(x) ==> after.stored()[x] == before.stored()[x],
{
    reveal(Database::stored);
    let cv = candidate_views(cs);
    let vs = victims(cv, cv.len() as int)->Ok_0;
    here.lemma_unmoved_same(before);
    assert(after.stored() == mid.stored());
    lemma_without(before.stored(), vs, vs.len() as int);
    lemma_victims_taken(cs, cs.len() as int, x);
    let kept = without(before.stored(), vs, vs.len() as int);
    if kept.dom().contains(x) {
        if taken(cs, x) {
            let k = choose|k: int| #[trigger] taken_at(cs, x, k);
            let i = choose|i: int| 0 <= i < vs.len() && (#[trigger] vs[i]).0 == x;
        }
    }
}

/// The changes of an UPDATE are to the rows that the filter takes, and write what was
/// evaluated for them.
proof fn lemma_changes_taken(
    schema: &Schema,
    targets: Seq<usize>,
    cs: Seq<Candidate>,
    os: Seq<Outcome>,
    n: int,
    x: Rid,
)
    requires
        0 <= n <= cs.len(),
        cs.len() == os.len(),
        gathered(schema, targets, candidate_views(cs), outcome_views(os), n) is Ok,
        (gathered(schema, targets, candidate_views(cs), outcome_views(os), n)->Ok_0).1 is None,
    ensures
        ({
            let ws = (gathered(
                schema,
                targets,
                candidate_views(cs),
                outcome_views(os),
                n,
            )->Ok_0).0;
            &&& forall|i: int|
                0 <= i < ws.len() && (#[trigger] ws[i]).rid == x ==> exists|k: int|
                    k < n && #[trigger] taken_at(cs, x, k) && outcome_views(os)[k].payload == Ok::<
                        Seq<u8>,
                        Seq<char>,
                    >(ws[i].payload)
            &&& (exists|k: int| k < n && #[trigger] taken_at(cs, x, k)) ==> exists|i: int|
                0 <= i < ws.len() && (#[trigger] ws[i]).rid == x
        }),
    decreases n,
{
    if n > 0 {
        let cv = candidate_views(cs);
        let ov = outcome_views(os);
        lemma_changes_taken(schema, targets, cs, os, n - 1, x);
        let before = (gathered(schema, targets, cv, ov, n - 1)->Ok_0).0;
        let ws = (gathered(schema, targets, cv, ov, n)->Ok_0).0;
        assert(cv[n - 1] == cs[n - 1]@);
        assert forall|i: int| 0 <= i < ws.len() && (#[trigger] ws[i]).rid == x implies exists|k: int|
            k < n && #[trigger] taken_at(cs, x, k) && ov[k].payload == Ok::<Seq<u8>, Seq<char>>(
                ws[i].payload,
            ) by {
            if i < before.len() {
                assert(ws[i] == before[i]);
                let k = choose|k: int|
                    k < n - 1 && #[trigger] taken_at(cs, x, k) && ov[k].payload == Ok::<
                        Seq<u8>,
                        Seq<char>,
                    >(ws[i].payload);
                assert(taken_at(cs, x, k));
            } else {
                assert(taken_at(cs, x, n - 1));
            }
        }
        if exists|k: int| k < n && #[trigger] taken_at(cs, x, k) {
            let k = choose|k: int| k < n && #[trigger] taken_at(cs, x, k);
            if k < n - 1 {
                assert(taken_at(cs, x, k));
                let i = choose|i: int| 0 <= i < before.len() && (#[trigger] before[i]).rid == x;
                assert(ws[i] == before[i]);
            } else {
                assert(ws[before.len() as int].rid == x);
            }
        }
    }
}

/// What the records hold with changes made: a record that none is to is as it was, any other
/// holds what one of them wrote.
proof fn lemma_changes_made(
    recs: Map<Rid, Seq<u8>>,
    tid: u16,
    ws: Seq<ChangeView>,
    n: int,
    x: Rid,
)
    requires
        0 <= n <= ws.len(),
    ensures
        ({
            let now = with_changes(recs, tid, ws, n);
            let hit = exists|i: int| 0 <= i < n && (#[trigger] ws[i]).rid == x;
            &&& !hit ==> (now.dom().contains(x) <==> recs.dom().contains(x)) && now[x] == recs[x]
            &&& hit ==> now.dom().contains(x) && exists|i: int|
                0 <= i < n && (#[trigger] ws[i]).rid == x && now[x] == table_record(
                    tid,
                    ws[i].payload,
                )
        }),
    decreases n,
{
    if n > 0 {
        lemma_changes_made(recs, tid, ws, n - 1, x);
        if ws[n - 1].rid == x {
            assert(with_changes(recs, tid, ws, n)[x] == table_record(tid, ws[n - 1].payload));
        }
    }
}

/// An UPDATE that succeeds rewrites exactly the rows of its table that the filter takes, each
/// with what was evaluated for it: every other record is as it was. (Where an index begins
/// may have changed.)
pub proof fn law_update_rewrites_exactly_the_matching_rows<
    F: BlockFile,
    W: WalSync,
    D: Fn(&Schema, &Vec<u8>) -> Result<Vec<Value>, ExecError>,
    M: Fn(&Expr, &Vec<Value>) -> Result<bool, ExecError>,
    E: Fn(&Vec<Value>) -> Outcome,
>(
    after: &Database<BufferPool<F, W>>,
    before: &Database<BufferPool<F, W>>,
    here: Database<BufferPool<F, W>>,
    t: int,
    targets: Seq<usize>,
    filter: Option<Expr>,
    asgs: Seq<(String, Expr)>,
    decode: D,
    matches: M,
    eval: E,
    rows: Seq<(Rid, Vec<u8>)>,
    cs: Seq<Candidate>,
    os: Seq<Outcome>,
    logged: bool,
    mid: Database<BufferPool<F, W>>,
    w: Result<usize, DbError>,
    s: Result<usize, DbError>,
    r: Result<usize, DbError>,
    x: Rid,
)
    requires
        after.updated_where(
            before,
            here,
            t,
            targets,
            filter,
            asgs,
            decode,
            matches,
            eval,
            rows,
            cs,
            os,
            logged,
            mid,
            w,
            s,
            r,
        ),
        r is Ok,
        !defines(before.indexes@, x),
    ensures
        after.stored().dom().contains(x) <==> before.stored().dom().contains(x),
        !taken(cs, x) && before.stored().dom().contains(x) ==> after.stored()[x]
            == before.stored()[x],
        taken(cs, x) ==> exists|k: int| #[trigger]
            taken_at(cs, x, k) && outcome_views(os)[k].payload is Ok && after.stored()[x]
                == table_record(before.tables@[t].tid, outcome_views(os)[k].payload->Ok_0),
{
    reveal(Database::stored);
    let cv = candidate_views(cs);
    let ov = outcome_views(os);
    let tid = before.tables@[t].tid;
    let schema = &before.tables@[t].schema;
    let ws = (here.changes(t, targets, cv, ov)->Ok_0).0;
    here.lemma_unmoved_same(before);
    assert(after.stored() == mid.stored());
    lemma_of_table(schema, filter, decode, matches, rows, cs, before.stored(), tid);
    lemma_changes_taken(schema, targets, cs, os, cs.len() as int, x);
    lemma_changes_made(before.stored(), tid, ws, ws.len() as int, x);
    if exists|i: int| 0 <= i < ws.len() && (#[trigger] ws[i]).rid == x {
        let i = choose|i: int|
            0 <= i < ws.len() && (#[trigger] ws[i]).rid == x && with_changes(
                before.stored(),
                tid,
                ws,
                ws.len() as int,
            )[x] == table_record(tid, ws[i].payload);
        let k = choose|k: int|
            k < cs.len() && #[trigger] taken_at(cs, x, k) && ov[k].payload == Ok::<
                Seq<u8>,
                Seq<char>,
            >(ws[i].payload);
        assert(taken_at(cs, x, k));
        assert(cv[k] == cs[k]@);
        assert(table_data(before.stored(), tid).dom().contains(cv[k].rid));
    } else if taken(cs, x) {
        let k = choose|k: int| #[trigger] taken_at(cs, x, k);
        assert(taken_at(cs, x, k));
    }
}

} // verus!
