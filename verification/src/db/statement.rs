//! What statements that change rows come to.

use vstd::prelude::*;

use crate::db::ast::Expr;
use crate::db::catalog::{IndexMeta, Schema};
use crate::db::dml::{assemble_row, assign, check_count, filled, quoted, row_fits};
use crate::db::exec::ExecError;
use crate::db::plan::{is_subquery_free, plain};
use crate::db::store::{defines, device, forgotten, same_indexes, Database, Entries};
use crate::db::{exec_err, says, DbError};
use crate::heap::{HeapFile, Rid};
use crate::pager::{holds_out, Pager};
use crate::types::{copy_values, views, Value, ValueView};

verus! {

/// A statement that changes rows cannot ask another query.
pub fn require_no_subquery(e: &Expr) -> (r: Result<(), DbError>)
    ensures
        match r {
            Ok(()) => plain(e@),
            Err(x) => !plain(e@) && says(x, "subqueries are not supported in DELETE/UPDATE (yet)"@),
        },
{
    if is_subquery_free(e) {
        Ok(())
    } else {
        exec_err("subqueries are not supported in DELETE/UPDATE (yet)")
    }
}

/// What an evaluation gave.
pub open spec fn given(r: Result<Value, ExecError>) -> Result<ValueView, Seq<char>> {
    match r {
        Ok(v) => Ok(v@),
        Err(e) => Err(e.text@),
    }
}

pub open spec fn all_given(rs: Seq<Result<Value, ExecError>>) -> Seq<
    Result<ValueView, Seq<char>>,
> {
    rs.map_values(|r: Result<Value, ExecError>| given(r))
}

/// The row that an INSERT puts together from the values for some columns, or what keeps
/// it from that.
pub open spec fn inserted_row(
    n: nat,
    order: Seq<usize>,
    vals: Seq<Result<ValueView, Seq<char>>>,
) -> Result<Seq<ValueView>, Seq<char>> {
    if order.len() != vals.len() {
        Err("INSERT value count does not match column count"@)
    } else {
        match all_ok(vals) {
            Ok(vs) => Ok(filled(n, order, vs)),
            Err(e) => Err(e),
        }
    }
}

/// All values, or the first error.
pub open spec fn all_ok(rs: Seq<Result<ValueView, Seq<char>>>) -> Result<
    Seq<ValueView>,
    Seq<char>,
>
    decreases rs.len(),
{
    if rs.len() == 0 {
        Ok(Seq::empty())
    } else {
        match all_ok(rs.drop_last()) {
            Err(e) => Err(e),
            Ok(vs) => match rs.last() {
                Ok(v) => Ok(vs.push(v)),
                Err(e) => Err(e),
            },
        }
    }
}

proof fn lemma_first_error(rs: Seq<Result<ValueView, Seq<char>>>, i: int)
    requires
        0 <= i <= rs.len(),
        all_ok(rs.take(i)) is Err,
    ensures
        all_ok(rs) == all_ok(rs.take(i)),
    decreases rs.len(),
{
    if i < rs.len() {
        assert(rs.drop_last().take(i) =~= rs.take(i));
        lemma_first_error(rs.drop_last(), i);
    } else {
        assert(rs.take(i) =~= rs);
    }
}

/// Put a row together from what evaluating the values for the columns `order` gave.
pub fn insert_values(
    n: usize,
    order: &Vec<usize>,
    vals: Vec<Result<Value, ExecError>>,
) -> (r: Result<Vec<Value>, DbError>)
    requires
        forall|i: int| 0 <= i < order@.len() ==> (#[trigger] order@[i]) < n,
    ensures
        match r {
            Ok(row) => inserted_row(n as nat, order@, all_given(vals@)) == Ok::<_, Seq<char>>(
                views(row@),
            ),
            Err(e) => inserted_row(n as nat, order@, all_given(vals@)) is Err && says(
                e,
                inserted_row(n as nat, order@, all_given(vals@))->Err_0,
            ),
        },
{
    let ghost gs = all_given(vals@);
    match check_count(order.len(), vals.len()) {
        Ok(()) => {},
        Err(e) => {
            return Err(e);
        },
    }
    let count: usize = vals.len();
    let mut rest: Vec<Result<Value, ExecError>> = vals;
    let mut row: Vec<Value> = Vec::new();
    let mut i: usize = 0;
    proof {
        assert(gs.take(0) =~= Seq::empty());
        assert(views(row@) =~= Seq::empty());
        assert(all_given(rest@) =~= gs.skip(0));
    }
    while i < count
        invariant
            i <= count == gs.len(),
            gs == all_given(vals@),
            order@.len() == gs.len(),
            all_given(rest@) == gs.skip(i as int),
            all_ok(gs.take(i as int)) == Ok::<_, Seq<char>>(views(row@)),
        decreases count - i,
    {
        proof {
            assert(gs.take(i + 1).drop_last() =~= gs.take(i as int));
            assert(gs.take(i + 1).last() == gs[i as int]);
            assert(gs.skip(i as int)[0] == gs[i as int]);
            assert(all_given(rest@).len() == rest@.len());
            assert(all_given(rest@)[0] == given(rest@[0]));
        }
        let ghost was = rest@;
        match rest.remove(0) {
            Ok(v) => {
                let ghost rw = row@;
                row.push(v);
                assert(views(row@) =~= views(rw).push(v@));
            },
            Err(e) => {
                proof {
                    lemma_first_error(gs, i + 1);
                }
                return Err(DbError::Exec(e.text));
            },
        }
        proof {
            assert(all_given(rest@) =~= gs.skip(i + 1)) by {
                assert forall|k: int| 0 <= k < rest@.len() implies all_given(rest@)[k] == gs.skip(
                    i + 1,
                )[k] by {
                    assert(rest@[k] == was[k + 1]);
                    assert(all_given(was)[k + 1] == gs.skip(i as int)[k + 1]);
                }
            }
        }
        i = i + 1;
    }
    assert(gs.take(i as int) =~= gs);
    assert(row@.len() == order@.len()) by {
        lemma_all_ok_len(gs);
        assert(views(row@).len() == row@.len());
    }
    Ok(assemble_row(n, order, &row))
}

proof fn lemma_all_ok_len(rs: Seq<Result<ValueView, Seq<char>>>)
    ensures
        all_ok(rs) matches Ok(vs) ==> vs.len() == rs.len(),
    decreases rs.len(),
{
    if rs.len() > 0 {
        lemma_all_ok_len(rs.drop_last());
    }
}

/// The row after the first `n` assignments of an UPDATE, or what keeps it from that.
pub open spec fn reassigned(
    schema: &Schema,
    row: Seq<ValueView>,
    targets: Seq<usize>,
    vals: Seq<Result<ValueView, Seq<char>>>,
    n: int,
) -> Result<Seq<ValueView>, Seq<char>>
    decreases n,
{
    if n <= 0 {
        Ok(row)
    } else {
        match reassigned(schema, row, targets, vals, n - 1) {
            Err(e) => Err(e),
            Ok(before) => match vals[n - 1] {
                Err(e) => Err(e),
                Ok(v) => {
                    let c = schema.columns@[targets[n - 1] as int];
                    if c.not_null && v == ValueView::Null {
                        Err(quoted("NULL in NOT NULL column '"@, c.name@))
                    } else {
                        Ok(before.update(targets[n - 1] as int, v))
                    }
                },
            },
        }
    }
}

proof fn lemma_reassigned_err(
    schema: &Schema,
    row: Seq<ValueView>,
    targets: Seq<usize>,
    vals: Seq<Result<ValueView, Seq<char>>>,
    i: int,
    n: int,
)
    requires
        i <= n,
        reassigned(schema, row, targets, vals, i) is Err,
    ensures
        reassigned(schema, row, targets, vals, n) == reassigned(schema, row, targets, vals, i),
    decreases n - i,
{
    if i < n {
        lemma_reassigned_err(schema, row, targets, vals, i, n - 1);
    }
}

/// The row that an UPDATE makes of `row`, from what evaluating its assignments on that
/// row gave.
pub fn changed_row(
    schema: &Schema,
    row: &Vec<Value>,
    targets: &Vec<usize>,
    vals: Vec<Result<Value, ExecError>>,
) -> (r: Result<Vec<Value>, DbError>)
    requires
        row@.len() == schema.columns@.len(),
        targets@.len() == vals@.len(),
        forall|i: int|
            0 <= i < targets@.len() ==> (#[trigger] targets@[i]) < schema.columns@.len(),
    ensures
        ({
            let o = reassigned(
                schema,
                views(row@),
                targets@,
                all_given(vals@),
                targets@.len() as int,
            );
            match r {
                Ok(w) => o == Ok::<_, Seq<char>>(views(w@)),
                Err(e) => o is Err && says(e, o->Err_0),
            }
        }),
{
    let ghost gs = all_given(vals@);
    let ghost rv = views(row@);
    let count: usize = vals.len();
    let mut rest: Vec<Result<Value, ExecError>> = vals;
    let mut out: Vec<Value> = copy_values(row);
    let mut i: usize = 0;
    proof {
        assert(all_given(rest@) =~= gs.skip(0));
        assert(views(out@).len() == rv.len());
        assert(out@.len() == row@.len());
    }
    while i < count
        invariant
            i <= count == gs.len() == targets@.len(),
            gs == all_given(vals@),
            rv == views(row@),
            out@.len() == schema.columns@.len(),
            forall|k: int|
                0 <= k < targets@.len() ==> (#[trigger] targets@[k]) < schema.columns@.len(),
            all_given(rest@) == gs.skip(i as int),
            reassigned(schema, rv, targets@, gs, i as int) == Ok::<_, Seq<char>>(views(out@)),
        decreases count - i,
    {
        let ghost was = rest@;
        proof {
            assert(gs.skip(i as int)[0] == gs[i as int]);
            assert(all_given(rest@).len() == rest@.len());
            assert(all_given(rest@)[0] == given(rest@[0]));
        }
        let c: usize = targets[i];
        match rest.remove(0) {
            Ok(v) => match assign(schema, &mut out, c, v) {
                Ok(()) => {},
                Err(e) => {
                    proof {
                        lemma_reassigned_err(schema, rv, targets@, gs, i + 1, count as int);
                    }
                    return Err(e);
                },
            },
            Err(e) => {
                proof {
                    lemma_reassigned_err(schema, rv, targets@, gs, i + 1, count as int);
                }
                return Err(DbError::Exec(e.text));
            },
        }
        proof {
            assert(all_given(rest@) =~= gs.skip(i + 1)) by {
                assert forall|k: int| 0 <= k < rest@.len() implies all_given(rest@)[k] == gs.skip(
                    i + 1,
                )[k] by {
                    assert(rest@[k] == was[k + 1]);
                    assert(all_given(was)[k + 1] == gs.skip(i as int)[k + 1]);
                }
            }
        }
        i = i + 1;
    }
    Ok(out)
}

// ---- deleting rows ----

/// A row and where it is.
pub type Placed = (Rid, Seq<ValueView>);

pub open spec fn placed(vs: Seq<(Rid, Vec<Value>)>) -> Seq<Placed> {
    vs.map_values(|v: (Rid, Vec<Value>)| (v.0, views(v.1@)))
}

/// The records without those of the first `n` rows.
pub open spec fn without(recs: Map<Rid, Seq<u8>>, vs: Seq<Placed>, n: int) -> Map<Rid, Seq<u8>>
    decreases n,
{
    if n <= 0 {
        recs
    } else {
        without(recs, vs, n - 1).remove(vs[n - 1].0)
    }
}

/// What the indexes hold when they have forgotten the first `n` rows.
pub open spec fn all_forgotten(
    es: Entries,
    idxs: Seq<IndexMeta>,
    tid: u16,
    vs: Seq<Placed>,
    n: int,
) -> Entries
    decreases n,
{
    if n <= 0 {
        es
    } else {
        forgotten(
            all_forgotten(es, idxs, tid, vs, n - 1),
            idxs,
            tid,
            vs[n - 1].1,
            vs[n - 1].0,
            idxs.len() as int,
        )
    }
}

/// The rows are stored, each at a place of its own.
pub open spec fn stored_rows(
    recs: Map<Rid, Seq<u8>>,
    idxs: Seq<IndexMeta>,
    tid: u16,
    vs: Seq<Placed>,
) -> bool {
    &&& forall|i: int|
        0 <= i < vs.len() ==> recs.dom().contains((#[trigger] vs[i]).0) && !defines(idxs, vs[i].0)
            && row_fits(idxs, tid, vs[i].1)
    &&& forall|i: int, j: int| 0 <= i < j < vs.len() ==> (#[trigger] vs[i]).0 != (#[trigger] vs[j]).0
}

pub proof fn lemma_without(recs: Map<Rid, Seq<u8>>, vs: Seq<Placed>, n: int)
    requires
        0 <= n <= vs.len(),
    ensures
        forall|r: Rid| #[trigger]
            without(recs, vs, n).dom().contains(r) <==> recs.dom().contains(r) && forall|k: int|
                0 <= k < n ==> (#[trigger] vs[k]).0 != r,
        forall|r: Rid| #[trigger]
            without(recs, vs, n).dom().contains(r) ==> without(recs, vs, n)[r] == recs[r],
    decreases n,
{
    if n > 0 {
        lemma_without(recs, vs, n - 1);
        let a = without(recs, vs, n - 1);
        assert forall|r: Rid| #[trigger] a.remove(vs[n - 1].0).dom().contains(r)
            <==> recs.dom().contains(r) && forall|k: int|
            0 <= k < n ==> (#[trigger] vs[k]).0 != r by {
            if a.remove(vs[n - 1].0).dom().contains(r) {
                assert(a.dom().contains(r));
            }
            if recs.dom().contains(r) && forall|k: int| 0 <= k < n ==> (#[trigger] vs[k]).0 != r {
                assert(vs[n - 1].0 != r);
                assert(a.dom().contains(r));
            }
        }
    }
}

/// The same indexes define the same places and ask the same of a row.
pub proof fn lemma_same_indexes(a: Seq<IndexMeta>, b: Seq<IndexMeta>, tid: u16)
    requires
        same_indexes(a, b),
    ensures
        forall|r: Rid| #[trigger] defines(a, r) == defines(b, r),
        forall|row: Seq<ValueView>| #[trigger] row_fits(a, tid, row) == row_fits(b, tid, row),
        forall|es: Entries, row: Seq<ValueView>, rid: Rid, n: int|
            es.len() == a.len() ==> #[trigger] forgotten(es, a, tid, row, rid, n) == forgotten(
                es,
                b,
                tid,
                row,
                rid,
                n,
            ),
{
    assert forall|r: Rid| #[trigger] defines(a, r) == defines(b, r) by {
        if defines(a, r) {
            let i = choose|i: int| 0 <= i < a.len() && (#[trigger] a[i]).catalog_rid == r;
            assert(b[i].catalog_rid == r);
        }
        if defines(b, r) {
            let i = choose|i: int| 0 <= i < b.len() && (#[trigger] b[i]).catalog_rid == r;
            assert(b[i] == (IndexMeta { root: b[i].root, ..a[i] }));
            assert(a[i].catalog_rid == r);
        }
    }
    assert forall|row: Seq<ValueView>| #[trigger] row_fits(a, tid, row) == row_fits(b, tid, row) by {
        if row_fits(a, tid, row) {
            assert forall|i: int| 0 <= i < b.len() && (#[trigger] b[i]).table_id == tid implies b[i].col_index
                < row.len() && crate::types::fits_type(b[i].col_type, row[b[i].col_index as int]) by {
                assert(b[i] == (IndexMeta { root: b[i].root, ..a[i] }));
                assert(a[i].table_id == tid);
            }
        }
        if row_fits(b, tid, row) {
            assert forall|i: int| 0 <= i < a.len() && (#[trigger] a[i]).table_id == tid implies a[i].col_index
                < row.len() && crate::types::fits_type(a[i].col_type, row[a[i].col_index as int]) by {
                assert(b[i] == (IndexMeta { root: b[i].root, ..a[i] }));
            }
        }
    }
    assert forall|es: Entries, row: Seq<ValueView>, rid: Rid, n: int|
        es.len() == a.len() implies #[trigger] forgotten(es, a, tid, row, rid, n) == forgotten(
        es,
        b,
        tid,
        row,
        rid,
        n,
    ) by {
        let x = forgotten(es, a, tid, row, rid, n);
        let y = forgotten(es, b, tid, row, rid, n);
        assert forall|i: int| 0 <= i < x.len() implies #[trigger] x[i] == y[i] by {
            assert(b[i] == (IndexMeta { root: b[i].root, ..a[i] }));
        }
        assert(x =~= y);
    }
}

impl<P: Pager> Database<P> {
    /// What deleting rows came to.
    pub open spec fn emptied_of(
        &self,
        before: &Self,
        tid: u16,
        vs: Seq<Placed>,
        r: Result<usize, DbError>,
    ) -> bool {
        match r {
            Ok(n) => {
                &&& n == vs.len()
                &&& self.ok()
                &&& self.became(
                    before,
                    without(before.stored(), vs, vs.len() as int),
                    all_forgotten(
                        before.all_entries(),
                        before.indexes@,
                        tid,
                        vs,
                        vs.len() as int,
                    ),
                )
            },
            Err(e) => device(e) && !holds_out(&before.bp, 0),
        }
    }

    /// One more row is gone.
    proof fn lemma_lost_next(
        &self,
        here: &Self,
        was: &Self,
        tid: u16,
        vs: Seq<Placed>,
        i: int,
    )
        requires
            was.ok(),
            here.ok(),
            self.ok(),
            0 <= i < vs.len(),
            stored_rows(was.stored(), was.indexes@, tid, vs),
            here.became(
                was,
                without(was.stored(), vs, i),
                all_forgotten(was.all_entries(), was.indexes@, tid, vs, i),
            ),
            self.lost(here, tid, vs[i].1, vs[i].0, here.indexes@.len() as int),
        ensures
            self.became(
                was,
                without(was.stored(), vs, i + 1),
                all_forgotten(was.all_entries(), was.indexes@, tid, vs, i + 1),
            ),
    {
        let idxs = was.indexes@;
        let a = without(was.stored(), vs, i);
        let b = without(was.stored(), vs, i + 1);
        let es = all_forgotten(was.all_entries(), idxs, tid, vs, i);
        let rid = vs[i].0;
        lemma_same_indexes(idxs, here.indexes@, tid);
        assert forall|j: int| 0 <= j < idxs.len() implies #[trigger] self.indexes@[j] == (IndexMeta {
            root: self.indexes@[j].root,
            ..idxs[j]
        }) by {
            assert(here.indexes@[j] == (IndexMeta { root: here.indexes@[j].root, ..idxs[j] }));
            assert(self.indexes@[j] == (IndexMeta {
                root: self.indexes@[j].root,
                ..here.indexes@[j]
            }));
        }
        assert(here.all_entries() =~= es) by {
            assert forall|j: int| 0 <= j < es.len() implies here.all_entries()[j] == #[trigger] es[j] by {
                assert(here.entries(j) == es[j]);
            }
        }
        assert(b == a.remove(rid));
        assert forall|r: Rid| #[trigger] b.dom().contains(r) <==> self.stored().dom().contains(r) by {
            assert(a.dom().contains(r) <==> here.stored().dom().contains(r));
            assert(here.stored().remove(rid).dom().contains(r) <==> self.stored().dom().contains(
                r,
            ));
        }
        assert forall|r: Rid| #[trigger] b.dom().contains(r) && !defines(
            idxs,
            r,
        ) implies self.stored()[r] == b[r] by {
            assert(a.dom().contains(r));
            assert(here.stored()[r] == a[r]);
            assert(here.stored().remove(rid).dom().contains(r));
        }
        let next = all_forgotten(was.all_entries(), idxs, tid, vs, i + 1);
        assert(next == forgotten(es, here.indexes@, tid, vs[i].1, rid, idxs.len() as int));
        assert(forgotten(
            here.all_entries(),
            here.indexes@,
            tid,
            vs[i].1,
            rid,
            here.indexes@.len() as int,
        ) == next);
    }

    /// Delete rows of table `tid` and their entries in its indexes: how many.
    #[verifier::rlimit(40)]
    pub fn delete_rows(&mut self, tid: u16, victims: &Vec<(Rid, Vec<Value>)>) -> (r: Result<
        usize,
        DbError,
    >)
        requires
            old(self).ok(),
            stored_rows(old(self).stored(), old(self).indexes@, tid, placed(victims@)),
        ensures
            final(self).counts == old(self).counts,
            final(self).bp.pager_ok(),
            final(self).bp.reach() == old(self).bp.reach(),
            final(self).emptied_of(old(self), tid, placed(victims@), r),
    {
        let ghost was = *self;
        let ghost vs = placed(victims@);
        let ghost idxs = self.indexes@;
        let mut heap: HeapFile = match HeapFile::open(&mut self.bp) {
            Ok(h) => h,
            Err(e) => {
                return Err(DbError::Heap(e));
            },
        };
        proof {
            self.lemma_unmoved_became(&was);
        }
        let n: usize = victims.len();
        let mut i: usize = 0;
        while i < n
            invariant
                self.counts == old(self).counts,
                i <= n == victims@.len(),
                was == *old(self),
                was.ok(),
                idxs == was.indexes@,
                vs == placed(victims@),
                stored_rows(was.stored(), idxs, tid, vs),
                self.ok(),
                heap.ready(&self.bp),
                self.bp.count() == was.bp.count(),
                self.became(
                    &was,
                    without(was.stored(), vs, i as int),
                    all_forgotten(was.all_entries(), idxs, tid, vs, i as int),
                ),
            decreases n - i,
        {
            let ghost here = *self;
            let rid: Rid = victims[i].0;
            proof {
                assert(vs[i as int] == (rid, views(victims@[i as int].1@)));
                lemma_without(was.stored(), vs, i as int);
                lemma_same_indexes(idxs, here.indexes@, tid);
                assert(without(was.stored(), vs, i as int).dom().contains(rid));
                assert(self.stored().dom().contains(rid));
                assert(!defines(idxs, rid));
                assert(row_fits(idxs, tid, vs[i as int].1));
            }
            match self.delete_row(&mut heap, tid, rid, &victims[i].1) {
                Ok(()) => {},
                Err(e) => {
                    return Err(e);
                },
            }
            proof {
                self.lemma_lost_next(&here, &was, tid, vs, i as int);
            }
            i = i + 1;
        }
        Ok(n)
    }

    /// What has not changed is what it was.
    pub proof fn lemma_unmoved_became(&self, was: &Self)
        requires
            self.unmoved(was),
        ensures
            self.became(was, was.stored(), was.all_entries()),
            was.ok() && self.bp.pager_ok() ==> self.ok(),
    {
        reveal(Database::entries);
        reveal(Database::stored);
        assert forall|j: int| 0 <= j < was.trees@.len() implies #[trigger] self.entries(j)
            == was.all_entries()[j] by {}
    }
}

} // verus!
