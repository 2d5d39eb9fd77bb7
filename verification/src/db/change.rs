//! Whole statements that change rows: INSERT, UPDATE and DELETE, from what evaluating them
//! gave to what they leave behind.

use vstd::prelude::*;

use crate::buffer::{BufferPool, WalSync};
use crate::db::ast::{Expr, ExprView};
use crate::db::catalog::Schema;
use crate::db::define::named;
use crate::db::dml::{first_unknown, known, quoted, quoted_err, resolve_columns, row_fits};
use crate::db::gather::{
    assembled, candidate_views, gather_changes, gather_rows, gather_victims, gathered,
    outcome_views, row_views, victims, Candidate, CandidateView, Outcome, OutcomeView,
};
use crate::db::plan::{column_named, plain};
use crate::db::rows::{
    hosts, payloads_of, rehosts, values_of, ChangeView, RowChange,
};
use crate::db::session::words;
use crate::db::statement::{placed, require_no_subquery, stored_rows};
use crate::db::store::{defines, Database};
use crate::db::{says, DbError};
use crate::heap::Rid;
use crate::pager::Pager;
use crate::types::{Value, ValueView};
use crate::vfs::BlockFile;

verus! {

/// The error is that there is no such table.
pub open spec fn no_table(e: DbError, table: Seq<char>) -> bool {
    says(e, quoted("no such table '"@, table))
}

/// What is said of a query inside a statement that changes rows.
pub open spec fn subquery_text() -> Seq<char> {
    "subqueries are not supported in DELETE/UPDATE (yet)"@
}

/// The filter asks another query.
pub open spec fn asks(filter: Option<Expr>) -> bool {
    filter matches Some(f) && !plain(f@)
}

/// A statement that changed what it could came to `s`: what the writing came to, or what
/// kept it from going on behind that.
pub open spec fn closes<T, U>(
    w: Result<T, DbError>,
    end: Option<Seq<char>>,
    done: U,
    s: Result<U, DbError>,
) -> bool {
    match w {
        Err(e) => s == Err::<U, DbError>(e),
        Ok(_) => match end {
            Some(text) => s is Err && says(s->Err_0, text),
            None => s == Ok::<U, DbError>(done),
        },
    }
}

// ---- INSERT ----

/// The columns that an INSERT gives values for, in the order of the values.
pub open spec fn resolved(schema: &Schema, columns: Option<Vec<String>>, order: Seq<usize>) -> bool {
    match columns {
        None => order == Seq::new(schema.columns@.len(), |i: int| i as usize),
        Some(names) => order.len() == names@.len() && forall|i: int|
            0 <= i < order.len() ==> column_named(
                schema,
                words(names@)[i],
                #[trigger] order[i] as int,
            ),
    }
}

pub open spec fn firsts(rows: Seq<(Seq<ValueView>, Seq<u8>)>) -> Seq<Seq<ValueView>> {
    rows.map_values(|r: (Seq<ValueView>, Seq<u8>)| r.0)
}

pub open spec fn seconds(rows: Seq<(Seq<ValueView>, Seq<u8>)>) -> Seq<Seq<u8>> {
    rows.map_values(|r: (Seq<ValueView>, Seq<u8>)| r.1)
}

proof fn lemma_row_views(rows: Seq<(Vec<Value>, Vec<u8>)>)
    ensures
        firsts(row_views(rows)) == values_of(rows),
        seconds(row_views(rows)) == payloads_of(rows),
{
    assert(firsts(row_views(rows)) =~= values_of(rows));
    assert(seconds(row_views(rows)) =~= payloads_of(rows));
}

impl<P: Pager> Database<P> {
    /// What an INSERT into table `t` writes, and what ends it.
    pub open spec fn inserts(&self, t: int, order: Seq<usize>, os: Seq<OutcomeView>) -> (
        Seq<(Seq<ValueView>, Seq<u8>)>,
        Option<Seq<char>>,
    ) {
        assembled(self.tables@[t].schema.columns@.len(), order, os, os.len() as int)
    }

    /// What an INSERT into table `t` writes can be written.
    pub open spec fn takes_rows(&self, t: int, order: Seq<usize>, os: Seq<OutcomeView>) -> bool {
        let rows = firsts(self.inserts(t, order, os).0);
        let tid = self.tables@[t].tid;
        &&& forall|i: int| 0 <= i < rows.len() ==> row_fits(self.indexes@, tid, #[trigger] rows[i])
        &&& hosts(self.trees@, self.indexes@, tid, rows, self.bp.count() as int, 0, u32::MAX as int)
    }
}

impl<F: BlockFile, W: WalSync> Database<BufferPool<F, W>> {
    /// An INSERT into table `t` left `mid` behind, came to `s`, and then ended.
    pub open spec fn insert_ended(
        &self,
        before: &Self,
        t: int,
        order: Seq<usize>,
        os: Seq<OutcomeView>,
        logged: bool,
        mid: Self,
        w: Result<Vec<Rid>, DbError>,
        s: Result<(), DbError>,
        r: Result<(), DbError>,
    ) -> bool {
        let (rows, end) = before.inserts(t, order, os);
        &&& mid.inserted(before, before.tables@[t].tid, firsts(rows), seconds(rows), w)
        &&& closes(w, end, (), s)
        &&& self.ended(&mid, s, logged, r)
    }

    /// INSERT: the table and its columns are looked up, the rows are stored one by one up to
    /// the first that cannot be put together, encoded or stored, and where all were stored
    /// they are made durable, unless a log holds the statement.
    pub fn insert_statement(
        &mut self,
        table: &String,
        columns: &Option<Vec<String>>,
        outcomes: Vec<Outcome>,
        logged: bool,
    ) -> (r: Result<(), DbError>)
        requires
            old(self).ok(),
            forall|t: int, order: Seq<usize>|
                named(old(self).tables@, table@, t) && resolved(
                    &old(self).tables@[t].schema,
                    *columns,
                    order,
                ) ==> #[trigger] old(self).takes_rows(t, order, outcome_views(outcomes@)),
        ensures
            final(self).counts == old(self).counts,
            ({
                ||| {
                    &&& forall|t: int| !named(old(self).tables@, table@, t)
                    &&& r is Err && no_table(r->Err_0, table@)
                    &&& *final(self) == *old(self)
                }
                ||| exists|t: int, i: int| {
                    &&& named(old(self).tables@, table@, t)
                    &&& *columns is Some
                    &&& #[trigger] first_unknown(
                        &old(self).tables@[t].schema,
                        words((*columns)->0@),
                        i,
                    )
                    &&& r is Err && says(
                        r->Err_0,
                        quoted("no column '"@, words((*columns)->0@)[i]),
                    )
                    &&& *final(self) == *old(self)
                }
                ||| exists|
                    t: int,
                    order: Seq<usize>,
                    mid: Self,
                    w: Result<Vec<Rid>, DbError>,
                    s: Result<(), DbError>,
                | {
                    &&& named(old(self).tables@, table@, t)
                    &&& resolved(&old(self).tables@[t].schema, *columns, order)
                    &&& #[trigger] final(self).insert_ended(
                        old(self),
                        t,
                        order,
                        outcome_views(outcomes@),
                        logged,
                        mid,
                        w,
                        s,
                        r,
                    )
                }
            }),
    {
        let ghost was = *self;
        let ghost os = outcome_views(outcomes@);
        let t: usize = match self.find_table(table) {
            Ok(t) => t,
            Err(e) => {
                return Err(e);
            },
        };
        let tid: u16 = self.tables[t].tid;
        let order: Vec<usize> = match resolve_columns(&self.tables[t].schema, columns) {
            Ok(order) => order,
            Err(e) => {
                return Err(e);
            },
        };
        proof {
            assert(resolved(&was.tables@[t as int].schema, *columns, order@));
            assert(was.takes_rows(t as int, order@, os));
        }
        let n: usize = self.tables[t].schema.len();
        let (rows, end): (Vec<(Vec<Value>, Vec<u8>)>, Option<DbError>) = gather_rows(
            n,
            &order,
            outcomes,
        );
        proof {
            lemma_row_views(rows@);
        }
        let w: Result<Vec<Rid>, DbError> = self.insert_rows(tid, &rows);
        let ghost mid = *self;
        let ghost wrote = w;
        let s: Result<(), DbError> = match w {
            Err(e) => Err(e),
            Ok(_) => match end {
                Some(e) => Err(e),
                None => Ok(()),
            },
        };
        let ghost came = s;
        let r: Result<(), DbError> = self.end_statement(s, logged);
        proof {
            assert(self.insert_ended(&was, t as int, order@, os, logged, mid, wrote, came, r));
        }
        r
    }
}

// ---- UPDATE ----

pub open spec fn exprs(asgs: Seq<(String, Expr)>) -> Seq<(Seq<char>, ExprView)> {
    asgs.map_values(|a: (String, Expr)| (a.0@, a.1@))
}

/// An assignment can be made.
pub open spec fn assignable(schema: &Schema, a: (Seq<char>, ExprView)) -> bool {
    plain(a.1) && known(schema, a.0)
}

/// The columns that are assigned to.
pub open spec fn aimed(
    schema: &Schema,
    asgs: Seq<(Seq<char>, ExprView)>,
    targets: Seq<usize>,
) -> bool {
    &&& targets.len() == asgs.len()
    &&& forall|i: int|
        0 <= i < targets.len() ==> plain(asgs[i].1) && column_named(
            schema,
            asgs[i].0,
            #[trigger] targets[i] as int,
        )
}

/// Assignment `i` is the first that cannot be made, for the reason `e`.
pub open spec fn misaimed(
    schema: &Schema,
    asgs: Seq<(Seq<char>, ExprView)>,
    i: int,
    e: DbError,
) -> bool {
    &&& 0 <= i < asgs.len()
    &&& forall|j: int| 0 <= j < i ==> assignable(schema, #[trigger] asgs[j])
    &&& if !plain(asgs[i].1) {
        says(e, subquery_text())
    } else {
        !known(schema, asgs[i].0) && says(e, quoted("no column '"@, asgs[i].0))
    }
}

/// The columns that are assigned to, or why an assignment cannot be made.
pub fn resolve_targets(schema: &Schema, asgs: &Vec<(String, Expr)>) -> (r: Result<
    Vec<usize>,
    DbError,
>)
    ensures
        match r {
            Ok(targets) => aimed(schema, exprs(asgs@), targets@),
            Err(e) => exists|i: int| #[trigger] misaimed(schema, exprs(asgs@), i, e),
        },
{
    let ghost es = exprs(asgs@);
    let mut out: Vec<usize> = Vec::new();
    let mut i: usize = 0;
    while i < asgs.len()
        invariant
            i <= asgs@.len(),
            es == exprs(asgs@),
            out@.len() == i,
            forall|j: int| 0 <= j < i ==> assignable(schema, #[trigger] es[j]),
            forall|j: int|
                0 <= j < i ==> plain(es[j].1) && column_named(
                    schema,
                    es[j].0,
                    #[trigger] out@[j] as int,
                ),
        decreases asgs@.len() - i,
    {
        assert(es[i as int] == (asgs@[i as int].0@, asgs@[i as int].1@));
        match require_no_subquery(&asgs[i].1) {
            Ok(()) => {},
            Err(e) => {
                assert(misaimed(schema, es, i as int, e));
                return Err(e);
            },
        }
        match schema.column_index(asgs[i].0.as_str()) {
            Some(c) => {
                out.push(c);
                assert(column_named(schema, es[i as int].0, c as int));
                assert(known(schema, es[i as int].0));
            },
            None => {
                let r: Result<Vec<usize>, DbError> = quoted_err("no column '", &asgs[i].0);
                assert(!known(schema, es[i as int].0));
                assert(misaimed(schema, es, i as int, r->Err_0));
                return r;
            },
        }
        i = i + 1;
    }
    Ok(out)
}

impl<P: Pager> Database<P> {
    /// What an UPDATE of table `t` writes, and what ends it, or what keeps it from writing.
    pub open spec fn changes(
        &self,
        t: int,
        targets: Seq<usize>,
        cs: Seq<CandidateView>,
        os: Seq<OutcomeView>,
    ) -> Result<(Seq<ChangeView>, Option<Seq<char>>), Seq<char>> {
        gathered(&self.tables@[t].schema, targets, cs, os, cs.len() as int)
    }

    /// What an UPDATE of table `t` writes can be written.
    pub open spec fn takes_changes(
        &self,
        t: int,
        targets: Seq<usize>,
        cs: Seq<CandidateView>,
        os: Seq<OutcomeView>,
    ) -> bool {
        let tid = self.tables@[t].tid;
        let width = self.tables@[t].schema.columns@.len();
        &&& forall|i: int|
            0 <= i < cs.len() && (#[trigger] cs[i]).row is Ok ==> cs[i].row->Ok_0.len() == width
        &&& forall|i: int| 0 <= i < os.len() ==> (#[trigger] os[i]).vals.len() == targets.len()
        &&& self.changes(t, targets, cs, os) matches Ok((ws, _)) ==> {
            &&& forall|i: int|
                0 <= i < ws.len() ==> {
                    let w = #[trigger] ws[i];
                    &&& self.stored().dom().contains(w.rid)
                    &&& !defines(self.indexes@, w.rid)
                    &&& row_fits(self.indexes@, tid, w.old_row)
                    &&& row_fits(self.indexes@, tid, w.new_row)
                }
            &&& rehosts(self.trees@, self.indexes@, tid, ws, self.bp.count() as int, 0, u32::MAX as int)
        }
    }
}

impl<F: BlockFile, W: WalSync> Database<BufferPool<F, W>> {
    /// An UPDATE of table `t` was kept from writing, or left `mid` behind, came to `s`, and
    /// then ended.
    pub open spec fn update_ended(
        &self,
        before: &Self,
        t: int,
        targets: Seq<usize>,
        cs: Seq<CandidateView>,
        os: Seq<OutcomeView>,
        logged: bool,
        mid: Self,
        w: Result<usize, DbError>,
        s: Result<usize, DbError>,
        r: Result<usize, DbError>,
    ) -> bool {
        match before.changes(t, targets, cs, os) {
            Err(text) => r is Err && says(r->Err_0, text) && *self == *before,
            Ok((ws, end)) => {
                &&& mid.rewritten(before, before.tables@[t].tid, ws, w)
                &&& closes(w, end, ws.len() as usize, s)
                &&& self.ended(&mid, s, logged, r)
            },
        }
    }

    /// UPDATE: the table is looked up, queries in the filter are refused, the assignments are
    /// resolved, every row is read, filtered and evaluated, the changes are written one by
    /// one up to the first that cannot be encoded or stored, and where all were written they
    /// are made durable, unless a log holds the statement. The rows changed are counted.
    pub fn update_statement(
        &mut self,
        table: &String,
        filter: &Option<Expr>,
        asgs: &Vec<(String, Expr)>,
        rows: Vec<Candidate>,
        outcomes: Vec<Outcome>,
        logged: bool,
    ) -> (r: Result<usize, DbError>)
        requires
            old(self).ok(),
            rows@.len() == outcomes@.len(),
            forall|t: int, targets: Seq<usize>|
                named(old(self).tables@, table@, t) && !asks(*filter) && aimed(
                    &old(self).tables@[t].schema,
                    exprs(asgs@),
                    targets,
                ) ==> #[trigger] old(self).takes_changes(
                    t,
                    targets,
                    candidate_views(rows@),
                    outcome_views(outcomes@),
                ),
        ensures
            final(self).counts == old(self).counts,
            ({
                ||| {
                    &&& forall|t: int| !named(old(self).tables@, table@, t)
                    &&& r is Err && no_table(r->Err_0, table@)
                    &&& *final(self) == *old(self)
                }
                ||| {
                    &&& exists|t: int| named(old(self).tables@, table@, t)
                    &&& asks(*filter)
                    &&& r is Err && says(r->Err_0, subquery_text())
                    &&& *final(self) == *old(self)
                }
                ||| exists|t: int, i: int| {
                    &&& named(old(self).tables@, table@, t)
                    &&& !asks(*filter)
                    &&& r is Err && #[trigger] misaimed(
                        &old(self).tables@[t].schema,
                        exprs(asgs@),
                        i,
                        r->Err_0,
                    )
                    &&& *final(self) == *old(self)
                }
                ||| exists|
                    t: int,
                    targets: Seq<usize>,
                    mid: Self,
                    w: Result<usize, DbError>,
                    s: Result<usize, DbError>,
                | {
                    &&& named(old(self).tables@, table@, t)
                    &&& !asks(*filter)
                    &&& aimed(&old(self).tables@[t].schema, exprs(asgs@), targets)
                    &&& #[trigger] final(self).update_ended(
                        old(self),
                        t,
                        targets,
                        candidate_views(rows@),
                        outcome_views(outcomes@),
                        logged,
                        mid,
                        w,
                        s,
                        r,
                    )
                }
            }),
    {
        let ghost was = *self;
        let ghost cs = candidate_views(rows@);
        let ghost os = outcome_views(outcomes@);
        let t: usize = match self.find_table(table) {
            Ok(t) => t,
            Err(e) => {
                return Err(e);
            },
        };
        if let Some(f) = filter {
            match require_no_subquery(f) {
                Ok(()) => {},
                Err(e) => {
                    return Err(e);
                },
            }
        }
        let tid: u16 = self.tables[t].tid;
        let targets: Vec<usize> = match resolve_targets(&self.tables[t].schema, asgs) {
            Ok(targets) => targets,
            Err(e) => {
                proof {
                    let i = choose|i: int| #[trigger]
                        misaimed(&was.tables@[t as int].schema, exprs(asgs@), i, e);
                    assert(misaimed(&was.tables@[t as int].schema, exprs(asgs@), i, e));
                }
                return Err(e);
            },
        };
        proof {
            assert(was.takes_changes(t as int, targets@, cs, os));
            assert forall|i: int| 0 <= i < rows@.len() && (#[trigger] rows@[i]).row is Ok implies
                rows@[i].row->Ok_0@.len() == was.tables@[t as int].schema.columns@.len() by {
                assert(cs[i] == rows@[i]@);
            }
            assert forall|i: int| 0 <= i < outcomes@.len() implies (
            #[trigger] outcomes@[i]).vals@.len() == targets@.len() by {
                assert(os[i] == outcomes@[i]@);
            }
        }
        let (work, end): (Vec<RowChange>, Option<DbError>) = match gather_changes(
            &self.tables[t].schema,
            &targets,
            rows,
            outcomes,
        ) {
            Ok(x) => x,
            Err(e) => {
                proof {
                    let r = Err::<usize, DbError>(e);
                    assert(self.update_ended(&was, t as int, targets@, cs, os, logged, was, r, r, r));
                }
                return Err(e);
            },
        };
        let n: usize = work.len();
        let w: Result<usize, DbError> = self.update_rows(tid, &work);
        let ghost mid = *self;
        let ghost wrote = w;
        let s: Result<usize, DbError> = match w {
            Err(e) => Err(e),
            Ok(_) => match end {
                Some(e) => Err(e),
                None => Ok(n),
            },
        };
        let ghost came = s;
        let r: Result<usize, DbError> = self.end_statement(s, logged);
        proof {
            assert(self.update_ended(&was, t as int, targets@, cs, os, logged, mid, wrote, came, r));
        }
        r
    }

    // ---- DELETE ----

    /// A DELETE from table `t` was kept from writing, or left `mid` behind, came to `w`, and
    /// then ended.
    pub open spec fn delete_ended(
        &self,
        before: &Self,
        t: int,
        cs: Seq<CandidateView>,
        logged: bool,
        mid: Self,
        w: Result<usize, DbError>,
        r: Result<usize, DbError>,
    ) -> bool {
        match victims(cs, cs.len() as int) {
            Err(text) => r is Err && says(r->Err_0, text) && *self == *before,
            Ok(vs) => {
                &&& mid.emptied_of(before, before.tables@[t].tid, vs, w)
                &&& self.ended(&mid, w, logged, r)
            },
        }
    }

    /// DELETE: the table is looked up, queries in the filter are refused, every row is read
    /// and filtered, those that the filter takes are deleted, and that is made durable,
    /// unless a log holds the statement. The rows deleted are counted.
    pub fn delete_statement(
        &mut self,
        table: &String,
        filter: &Option<Expr>,
        rows: Vec<Candidate>,
        logged: bool,
    ) -> (r: Result<usize, DbError>)
        requires
            old(self).ok(),
            forall|t: int|
                #![trigger old(self).tables@[t]]
                named(old(self).tables@, table@, t) && !asks(*filter) && victims(
                    candidate_views(rows@),
                    rows@.len() as int,
                ) is Ok ==> stored_rows(
                    old(self).stored(),
                    old(self).indexes@,
                    old(self).tables@[t].tid,
                    victims(candidate_views(rows@), rows@.len() as int)->Ok_0,
                ),
        ensures
            final(self).counts == old(self).counts,
            ({
                ||| {
                    &&& forall|t: int| !named(old(self).tables@, table@, t)
                    &&& r is Err && no_table(r->Err_0, table@)
                    &&& *final(self) == *old(self)
                }
                ||| {
                    &&& exists|t: int| named(old(self).tables@, table@, t)
                    &&& asks(*filter)
                    &&& r is Err && says(r->Err_0, subquery_text())
                    &&& *final(self) == *old(self)
                }
                ||| exists|t: int, mid: Self, w: Result<usize, DbError>| {
                    &&& named(old(self).tables@, table@, t)
                    &&& !asks(*filter)
                    &&& #[trigger] final(self).delete_ended(
                        old(self),
                        t,
                        candidate_views(rows@),
                        logged,
                        mid,
                        w,
                        r,
                    )
                }
            }),
    {
        let ghost was = *self;
        let ghost cs = candidate_views(rows@);
        let t: usize = match self.find_table(table) {
            Ok(t) => t,
            Err(e) => {
                return Err(e);
            },
        };
        if let Some(f) = filter {
            match require_no_subquery(f) {
                Ok(()) => {},
                Err(e) => {
                    return Err(e);
                },
            }
        }
        let tid: u16 = self.tables[t].tid;
        let gone: Vec<(Rid, Vec<Value>)> = match gather_victims(rows) {
            Ok(v) => v,
            Err(e) => {
                proof {
                    let r = Err::<usize, DbError>(e);
                    assert(self.delete_ended(&was, t as int, cs, logged, was, r, r));
                }
                return Err(e);
            },
        };
        proof {
            assert(placed(gone@) == victims(cs, cs.len() as int)->Ok_0);
        }
        let w: Result<usize, DbError> = self.delete_rows(tid, &gone);
        let ghost mid = *self;
        let ghost wrote = w;
        let r: Result<usize, DbError> = self.end_statement(w, logged);
        proof {
            assert(self.delete_ended(&was, t as int, cs, logged, mid, wrote, r));
        }
        r
    }
}

} // verus!
