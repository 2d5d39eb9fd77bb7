//! What a statement that changes rows is going to write, from what evaluating it on each
//! row gave.

use vstd::prelude::*;

use crate::db::catalog::Schema;
use crate::db::exec::ExecError;
use crate::db::rows::{change_views, ChangeView, RowChange};
use crate::db::statement::{
    all_given, changed_row, insert_values, inserted_row, placed, reassigned, Placed,
};
use crate::db::{says, DbError};
use crate::heap::Rid;
use crate::types::{views, Value, ValueView};

verus! {

/// A row of the table: where it is, what reading it gave, and whether the filter takes it.
pub struct Candidate {
    pub rid: Rid,
    pub row: Result<Vec<Value>, ExecError>,
    pub matched: Result<bool, ExecError>,
}

pub ghost struct CandidateView {
    pub rid: Rid,
    pub row: Result<Seq<ValueView>, Seq<char>>,
    pub matched: Result<bool, Seq<char>>,
}

impl View for Candidate {
    type V = CandidateView;

    open spec fn view(&self) -> CandidateView {
        CandidateView {
            rid: self.rid,
            row: match self.row {
                Ok(row) => Ok(views(row@)),
                Err(e) => Err(e.text@),
            },
            matched: match self.matched {
                Ok(b) => Ok(b),
                Err(e) => Err(e.text@),
            },
        }
    }
}

/// What evaluating the values for a row gave, and what encoding the row made of them gave.
pub struct Outcome {
    pub vals: Vec<Result<Value, ExecError>>,
    pub payload: Result<Vec<u8>, ExecError>,
}

pub ghost struct OutcomeView {
    pub vals: Seq<Result<ValueView, Seq<char>>>,
    pub payload: Result<Seq<u8>, Seq<char>>,
}

impl View for Outcome {
    type V = OutcomeView;

    open spec fn view(&self) -> OutcomeView {
        OutcomeView {
            vals: all_given(self.vals@),
            payload: match self.payload {
                Ok(p) => Ok(p@),
                Err(e) => Err(e.text@),
            },
        }
    }
}

/// The row, where the filter takes it, or what keeps the statement from asking.
pub open spec fn choice(c: CandidateView) -> Result<Option<Seq<ValueView>>, Seq<char>> {
    match c.row {
        Err(e) => Err(e),
        Ok(row) => match c.matched {
            Err(e) => Err(e),
            Ok(false) => Ok(None),
            Ok(true) => Ok(Some(row)),
        },
    }
}

fn chosen(c: Candidate) -> (r: Result<Option<Vec<Value>>, DbError>)
    ensures
        match r {
            Ok(Some(row)) => choice(c@) == Ok::<_, Seq<char>>(Some(views(row@))) && c.row == Ok::<
                _,
                ExecError,
            >(row),
            Ok(None) => choice(c@) == Ok::<Option<Seq<ValueView>>, Seq<char>>(None),
            Err(e) => choice(c@) is Err && says(e, choice(c@)->Err_0),
        },
{
    match c.row {
        Err(e) => Err(DbError::Exec(e.text)),
        Ok(row) => match c.matched {
            Err(e) => Err(DbError::Exec(e.text)),
            Ok(b) => if b {
                Ok(Some(row))
            } else {
                Ok(None)
            },
        },
    }
}

// ---- DELETE ----

/// The rows that a DELETE takes out of the first `n`, or the first error in row order.
pub open spec fn victims(cs: Seq<CandidateView>, n: int) -> Result<Seq<Placed>, Seq<char>>
    decreases n,
{
    if n <= 0 {
        Ok(Seq::empty())
    } else {
        match victims(cs, n - 1) {
            Err(e) => Err(e),
            Ok(vs) => match choice(cs[n - 1]) {
                Err(e) => Err(e),
                Ok(None) => Ok(vs),
                Ok(Some(row)) => Ok(vs.push((cs[n - 1].rid, row))),
            },
        }
    }
}

proof fn lemma_victims_err(cs: Seq<CandidateView>, i: int, n: int)
    requires
        i <= n,
        victims(cs, i) is Err,
    ensures
        victims(cs, n) == victims(cs, i),
    decreases n - i,
{
    if i < n {
        lemma_victims_err(cs, i, n - 1);
    }
}

pub open spec fn candidate_views(cs: Seq<Candidate>) -> Seq<CandidateView> {
    cs.map_values(|c: Candidate| c@)
}

/// The rows that a DELETE takes out. Every row is read and filtered before any is deleted,
/// so the first error leaves the table as it is.
pub fn gather_victims(rows: Vec<Candidate>) -> (r: Result<Vec<(Rid, Vec<Value>)>, DbError>)
    ensures
        ({
            let o = victims(candidate_views(rows@), rows@.len() as int);
            match r {
                Ok(vs) => o == Ok::<_, Seq<char>>(placed(vs@)),
                Err(e) => o is Err && says(e, o->Err_0),
            }
        }),
{
    let ghost cs = candidate_views(rows@);
    let count: usize = rows.len();
    let mut rest: Vec<Candidate> = rows;
    let mut out: Vec<(Rid, Vec<Value>)> = Vec::new();
    let mut i: usize = 0;
    assert(placed(out@) =~= Seq::empty());
    while i < count
        invariant
            i <= count == rows@.len(),
            cs == candidate_views(rows@),
            rest@ == rows@.skip(i as int),
            victims(cs, i as int) == Ok::<_, Seq<char>>(placed(out@)),
        decreases count - i,
    {
        let ghost was = rest@;
        let c: Candidate = rest.remove(0);
        let rid: Rid = c.rid;
        assert(rest@ =~= rows@.skip(i + 1));
        assert(c == rows@[i as int] && cs[i as int] == c@);
        match chosen(c) {
            Err(e) => {
                proof {
                    lemma_victims_err(cs, i + 1, count as int);
                }
                return Err(e);
            },
            Ok(None) => {},
            Ok(Some(row)) => {
                let ghost before = out@;
                out.push((rid, row));
                assert(placed(out@) =~= placed(before).push((rid, views(row@))));
            },
        }
        i = i + 1;
    }
    Ok(out)
}

// ---- UPDATE ----

/// What an UPDATE is going to write for the first `n` rows: the changes, and what ends the
/// writing after them, where a row cannot be encoded. An error in reading, filtering or
/// evaluating, the first in row order, comes before all of that.
pub open spec fn gathered(
    schema: &Schema,
    targets: Seq<usize>,
    cs: Seq<CandidateView>,
    os: Seq<OutcomeView>,
    n: int,
) -> Result<(Seq<ChangeView>, Option<Seq<char>>), Seq<char>>
    decreases n,
{
    if n <= 0 {
        Ok((Seq::empty(), None))
    } else {
        let o = os[n - 1];
        match gathered(schema, targets, cs, os, n - 1) {
            Err(e) => Err(e),
            Ok((ws, end)) => match choice(cs[n - 1]) {
                Err(e) => Err(e),
                Ok(None) => Ok((ws, end)),
                Ok(Some(row)) => match reassigned(
                    schema,
                    row,
                    targets,
                    o.vals,
                    targets.len() as int,
                ) {
                    Err(e) => Err(e),
                    Ok(new_row) => if end is Some {
                        Ok((ws, end))
                    } else {
                        match o.payload {
                            Err(e) => Ok((ws, Some(e))),
                            Ok(payload) => Ok(
                                (
                                    ws.push(
                                        ChangeView {
                                            rid: cs[n - 1].rid,
                                            old_row: row,
                                            new_row,
                                            payload,
                                        },
                                    ),
                                    None,
                                ),
                            ),
                        }
                    },
                },
            },
        }
    }
}

proof fn lemma_gathered_err(
    schema: &Schema,
    targets: Seq<usize>,
    cs: Seq<CandidateView>,
    os: Seq<OutcomeView>,
    i: int,
    n: int,
)
    requires
        i <= n,
        gathered(schema, targets, cs, os, i) is Err,
    ensures
        gathered(schema, targets, cs, os, n) == gathered(schema, targets, cs, os, i),
    decreases n - i,
{
    if i < n {
        lemma_gathered_err(schema, targets, cs, os, i, n - 1);
    }
}

pub open spec fn outcome_views(os: Seq<Outcome>) -> Seq<OutcomeView> {
    os.map_values(|o: Outcome| o@)
}

/// The error that ends the writing, where there is one.
pub open spec fn ends(end: Option<DbError>, text: Option<Seq<char>>) -> bool {
    match end {
        Some(e) => text is Some && says(e, text->0),
        None => text is None,
    }
}

/// What an UPDATE is going to write. Every row is read, filtered and evaluated before any is
/// written, so the first error there leaves the table as it is. Where a new row cannot be
/// encoded, the changes before it are written, and the error comes after them.
pub fn gather_changes(
    schema: &Schema,
    targets: &Vec<usize>,
    rows: Vec<Candidate>,
    outcomes: Vec<Outcome>,
) -> (r: Result<(Vec<RowChange>, Option<DbError>), DbError>)
    requires
        rows@.len() == outcomes@.len(),
        forall|i: int|
            0 <= i < targets@.len() ==> (#[trigger] targets@[i]) < schema.columns@.len(),
        forall|i: int|
            0 <= i < rows@.len() && (#[trigger] rows@[i]).row is Ok ==> rows@[i].row->Ok_0@.len()
                == schema.columns@.len(),
        forall|i: int|
            0 <= i < outcomes@.len() ==> (#[trigger] outcomes@[i]).vals@.len() == targets@.len(),
    ensures
        ({
            let o = gathered(
                schema,
                targets@,
                candidate_views(rows@),
                outcome_views(outcomes@),
                rows@.len() as int,
            );
            match r {
                Ok((ws, end)) => o is Ok && change_views(ws@) == (o->Ok_0).0 && ends(
                    end,
                    (o->Ok_0).1,
                ),
                Err(e) => o is Err && says(e, o->Err_0),
            }
        }),
{
    let ghost cs = candidate_views(rows@);
    let ghost os = outcome_views(outcomes@);
    let count: usize = rows.len();
    let mut rest: Vec<Candidate> = rows;
    let mut left: Vec<Outcome> = outcomes;
    let mut out: Vec<RowChange> = Vec::new();
    let mut end: Option<DbError> = None;
    let mut i: usize = 0;
    assert(change_views(out@) =~= Seq::empty());
    while i < count
        invariant
            i <= count == rows@.len() == outcomes@.len(),
            cs == candidate_views(rows@),
            os == outcome_views(outcomes@),
            rest@ == rows@.skip(i as int),
            left@ == outcomes@.skip(i as int),
            forall|k: int|
                0 <= k < targets@.len() ==> (#[trigger] targets@[k]) < schema.columns@.len(),
            forall|k: int|
                0 <= k < rows@.len() && (#[trigger] rows@[k]).row is Ok
                    ==> rows@[k].row->Ok_0@.len() == schema.columns@.len(),
            forall|k: int|
                0 <= k < outcomes@.len() ==> (#[trigger] outcomes@[k]).vals@.len()
                    == targets@.len(),
            gathered(schema, targets@, cs, os, i as int) is Ok,
            change_views(out@) == (gathered(schema, targets@, cs, os, i as int)->Ok_0).0,
            ends(end, (gathered(schema, targets@, cs, os, i as int)->Ok_0).1),
        decreases count - i,
    {
        let c: Candidate = rest.remove(0);
        let o: Outcome = left.remove(0);
        let rid: Rid = c.rid;
        assert(rest@ =~= rows@.skip(i + 1));
        assert(left@ =~= outcomes@.skip(i + 1));
        assert(c == rows@[i as int] && cs[i as int] == c@);
        assert(o == outcomes@[i as int] && os[i as int] == o@);
        match chosen(c) {
            Err(e) => {
                proof {
                    lemma_gathered_err(schema, targets@, cs, os, i + 1, count as int);
                }
                return Err(e);
            },
            Ok(None) => {},
            Ok(Some(row)) => match changed_row(schema, &row, targets, o.vals) {
                Err(e) => {
                    proof {
                        lemma_gathered_err(schema, targets@, cs, os, i + 1, count as int);
                    }
                    return Err(e);
                },
                Ok(new_row) => if end.is_none() {
                    match o.payload {
                        Err(e) => {
                            end = Some(DbError::Exec(e.text));
                        },
                        Ok(payload) => {
                            let ghost before = out@;
                            let w: RowChange = RowChange { rid, old_row: row, new_row, payload };
                            out.push(w);
                            assert(change_views(out@) =~= change_views(before).push(w@));
                        },
                    }
                },
            },
        }
        i = i + 1;
    }
    Ok((out, end))
}

// ---- INSERT ----

pub open spec fn row_views(rows: Seq<(Vec<Value>, Vec<u8>)>) -> Seq<(Seq<ValueView>, Seq<u8>)> {
    rows.map_values(|r: (Vec<Value>, Vec<u8>)| (views(r.0@), r.1@))
}

/// What an INSERT is going to write for the first `k` rows: those before the first that
/// cannot be put together or encoded, and the error that ends the statement there.
pub open spec fn assembled(n: nat, order: Seq<usize>, os: Seq<OutcomeView>, k: int) -> (
    Seq<(Seq<ValueView>, Seq<u8>)>,
    Option<Seq<char>>,
)
    decreases k,
{
    if k <= 0 {
        (Seq::empty(), None)
    } else {
        let (rows, end) = assembled(n, order, os, k - 1);
        let o = os[k - 1];
        if end is Some {
            (rows, end)
        } else {
            match inserted_row(n, order, o.vals) {
                Err(e) => (rows, Some(e)),
                Ok(row) => match o.payload {
                    Err(e) => (rows, Some(e)),
                    Ok(payload) => (rows.push((row, payload)), None),
                },
            }
        }
    }
}

proof fn lemma_assembled_end(n: nat, order: Seq<usize>, os: Seq<OutcomeView>, i: int, k: int)
    requires
        i <= k,
        assembled(n, order, os, i).1 is Some,
    ensures
        assembled(n, order, os, k) == assembled(n, order, os, i),
    decreases k - i,
{
    if i < k {
        lemma_assembled_end(n, order, os, i, k - 1);
    }
}

/// What an INSERT is going to write: a row is stored before the next is put together, so the
/// rows before the first error stay, and the error comes after them.
pub fn gather_rows(n: usize, order: &Vec<usize>, outcomes: Vec<Outcome>) -> (r: (
    Vec<(Vec<Value>, Vec<u8>)>,
    Option<DbError>,
))
    requires
        forall|i: int| 0 <= i < order@.len() ==> (#[trigger] order@[i]) < n,
    ensures
        ({
            let o = assembled(
                n as nat,
                order@,
                outcome_views(outcomes@),
                outcomes@.len() as int,
            );
            row_views(r.0@) == o.0 && ends(r.1, o.1)
        }),
{
    let ghost os = outcome_views(outcomes@);
    let count: usize = outcomes.len();
    let mut left: Vec<Outcome> = outcomes;
    let mut out: Vec<(Vec<Value>, Vec<u8>)> = Vec::new();
    let mut i: usize = 0;
    assert(row_views(out@) =~= Seq::empty());
    while i < count
        invariant
            i <= count == outcomes@.len(),
            os == outcome_views(outcomes@),
            left@ == outcomes@.skip(i as int),
            forall|k: int| 0 <= k < order@.len() ==> (#[trigger] order@[k]) < n,
            assembled(n as nat, order@, os, i as int) == (row_views(out@), None::<Seq<char>>),
        decreases count - i,
    {
        let o: Outcome = left.remove(0);
        assert(left@ =~= outcomes@.skip(i + 1));
        assert(o == outcomes@[i as int] && os[i as int] == o@);
        match insert_values(n, order, o.vals) {
            Err(e) => {
                proof {
                    lemma_assembled_end(n as nat, order@, os, i + 1, count as int);
                }
                return (out, Some(e));
            },
            Ok(row) => match o.payload {
                Err(e) => {
                    proof {
                        lemma_assembled_end(n as nat, order@, os, i + 1, count as int);
                    }
                    return (out, Some(DbError::Exec(e.text)));
                },
                Ok(payload) => {
                    let ghost before = out@;
                    out.push((row, payload));
                    assert(row_views(out@) =~= row_views(before).push((views(row@), payload@)));
                },
            },
        }
        i = i + 1;
    }
    (out, None)
}

} // verus!
