//! What INSERT, UPDATE and DELETE write: the laws of columns and values, of the rows that a
//! statement takes, and of what stops it.

use vstd::prelude::*;

use crate::buffer::{BufferPool, WalSync};
use crate::db::catalog::Schema;
use crate::db::change::{firsts, resolved, seconds};
use crate::db::dml::{filled, quoted, table_record};
use crate::db::gather::{assembled, gathered, victims, CandidateView, OutcomeView};
use crate::db::rows::{with_rows, ChangeView};
use crate::db::statement::{all_ok, inserted_row, reassigned};
use crate::db::store::{defines, same_data, Database};
use crate::db::DbError;
use crate::heap::Rid;
use crate::types::ValueView;
use crate::vfs::BlockFile;

verus! {

// ---- INSERT ----

/// Value `i` is the last that is given for its column.
pub open spec fn is_last_for(columns: Seq<usize>, i: int) -> bool {
    &&& 0 <= i < columns.len()
    &&& forall|j: int| i < j < columns.len() ==> #[trigger] columns[j] != columns[i]
}

/// The row has in every column the last value that is given for it; in the columns that no
/// value is given for it is `was`.
pub open spec fn holds_values(
    row: Seq<ValueView>,
    was: Seq<ValueView>,
    columns: Seq<usize>,
    vals: Seq<ValueView>,
) -> bool {
    &&& row.len() == was.len()
    &&& forall|i: int|
        #[trigger] is_last_for(columns, i) ==> row[columns[i] as int] == vals[i]
    &&& forall|c: int|
        0 <= c < row.len() && (forall|i: int| 0 <= i < columns.len() ==> columns[i] != c)
            ==> #[trigger] row[c] == was[c]
}

/// A row of `n` nulls.
pub open spec fn nulls(n: nat) -> Seq<ValueView> {
    Seq::new(n, |i: int| ValueView::Null)
}

/// The values of a row go to the columns that they are given for; a column that none is given
/// for is null.
pub proof fn law_values_go_to_their_columns(n: nat, order: Seq<usize>, vals: Seq<ValueView>)
    requires
        order.len() == vals.len(),
        forall|i: int| 0 <= i < order.len() ==> (#[trigger] order[i]) < n,
    ensures
        holds_values(filled(n, order, vals), nulls(n), order, vals),
    decreases order.len(),
{
    if order.len() > 0 {
        let o = order.drop_last();
        let v = vals.drop_last();
        law_values_go_to_their_columns(n, o, v);
        let before = filled(n, o, v);
        let row = filled(n, order, vals);
        let k = order.len() - 1;
        assert forall|i: int| #[trigger] is_last_for(order, i) implies row[order[i] as int]
            == vals[i] by {
            if i < k {
                assert(order[k] != order[i]);
                assert forall|j: int| i < j < o.len() implies #[trigger] o[j] != o[i] by {
                    assert(order[j] != order[i]);
                }
                assert(is_last_for(o, i));
            }
        }
        assert forall|c: int|
            0 <= c < row.len() && (forall|i: int| 0 <= i < order.len() ==> order[i] != c)
                implies #[trigger] row[c] == nulls(n)[c] by {
            assert(order[k] != c);
            assert forall|i: int| 0 <= i < o.len() implies o[i] != c by {
                assert(order[i] != c);
            }
            assert(before[c] == nulls(n)[c]);
        }
    }
}

/// Outcome `i` is the first that is an error.
pub open spec fn fails_first<T>(rs: Seq<Result<T, Seq<char>>>, i: int) -> bool {
    &&& 0 <= i < rs.len()
    &&& rs[i] is Err
    &&& forall|j: int| 0 <= j < i ==> #[trigger] rs[j] is Ok
}

proof fn lemma_all_ok(rs: Seq<Result<ValueView, Seq<char>>>)
    ensures
        match all_ok(rs) {
            Ok(vs) => vs.len() == rs.len() && forall|i: int|
                0 <= i < rs.len() ==> #[trigger] rs[i] == Ok::<_, Seq<char>>(vs[i]),
            Err(e) => exists|i: int| #[trigger] fails_first(rs, i) && rs[i]->Err_0 == e,
        },
    decreases rs.len(),
{
    if rs.len() > 0 {
        let init = rs.drop_last();
        let k = rs.len() - 1;
        lemma_all_ok(init);
        match all_ok(init) {
            Err(e) => {
                let i = choose|i: int| #[trigger] fails_first(init, i) && init[i]->Err_0 == e;
                assert forall|j: int| 0 <= j < i implies #[trigger] rs[j] is Ok by {
                    assert(init[j] is Ok);
                }
                assert(fails_first(rs, i));
            },
            Ok(vs) => {
                assert forall|j: int| 0 <= j < k implies #[trigger] rs[j] == Ok::<_, Seq<char>>(
                    vs[j],
                ) by {
                    assert(init[j] == rs[j]);
                }
                if rs[k] is Err {
                    assert(fails_first(rs, k));
                }
            },
        }
    }
}

/// An INSERT makes a row exactly where there are as many values as columns and every value
/// could be evaluated: the row that has each value in its column and null elsewhere. Otherwise
/// it says that the numbers differ, or else what the first value that could not be evaluated
/// said.
pub proof fn law_inserted_rows_hold_their_values(
    n: nat,
    order: Seq<usize>,
    vals: Seq<Result<ValueView, Seq<char>>>,
)
    requires
        forall|i: int| 0 <= i < order.len() ==> (#[trigger] order[i]) < n,
    ensures
        inserted_row(n, order, vals) is Ok <==> order.len() == vals.len() && forall|i: int|
            0 <= i < vals.len() ==> #[trigger] vals[i] is Ok,
        inserted_row(n, order, vals) matches Ok(row) ==> holds_values(
            row,
            nulls(n),
            order,
            Seq::new(vals.len(), |i: int| vals[i]->Ok_0),
        ),
        order.len() != vals.len() ==> inserted_row(n, order, vals) == Err::<
            Seq<ValueView>,
            Seq<char>,
        >("INSERT value count does not match column count"@),
        order.len() == vals.len() ==> forall|i: int| #[trigger]
            fails_first(vals, i) ==> inserted_row(n, order, vals) == Err::<
                Seq<ValueView>,
                Seq<char>,
            >(vals[i]->Err_0),
{
    lemma_all_ok(vals);
    if order.len() == vals.len() {
        match all_ok(vals) {
            Ok(vs) => {
                assert(vs =~= Seq::new(vals.len(), |i: int| vals[i]->Ok_0)) by {
                    assert forall|i: int| 0 <= i < vs.len() implies vs[i] == vals[i]->Ok_0 by {
                        assert(vals[i] is Ok);
                    }
                }
                law_values_go_to_their_columns(n, order, vs);
            },
            Err(e) => {
                let k = choose|i: int| #[trigger] fails_first(vals, i) && vals[i]->Err_0 == e;
                assert(vals[k] is Err);
                assert forall|i: int| #[trigger] fails_first(vals, i) implies i == k by {
                    if i < k {
                        assert(vals[i] is Ok);
                    }
                    if k < i {
                        assert(vals[k] is Ok);
                    }
                }
            },
        }
    }
}

/// The row of an INSERT can be put together and encoded.
pub open spec fn goes_in(n: nat, order: Seq<usize>, o: OutcomeView) -> bool {
    inserted_row(n, order, o.vals) is Ok && o.payload is Ok
}

/// What keeps the row of an INSERT out.
pub open spec fn kept_out(n: nat, order: Seq<usize>, o: OutcomeView) -> Seq<char> {
    if inserted_row(n, order, o.vals) is Err {
        inserted_row(n, order, o.vals)->Err_0
    } else {
        o.payload->Err_0
    }
}

/// An INSERT of several rows writes them in their order up to the first that cannot be put
/// together or encoded, and ends with what kept that one out; it writes all of them, and
/// ends well, exactly where there is none such.
pub proof fn law_rows_go_in_up_to_the_first_bad_one(
    n: nat,
    order: Seq<usize>,
    os: Seq<OutcomeView>,
    k: int,
)
    requires
        0 <= k <= os.len(),
    ensures
        ({
            let (rows, end) = assembled(n, order, os, k);
            &&& rows.len() <= k
            &&& end is None <==> rows.len() == k
            &&& forall|i: int|
                0 <= i < rows.len() ==> goes_in(n, order, #[trigger] os[i]) && rows[i] == (
                    inserted_row(n, order, os[i].vals)->Ok_0,
                    os[i].payload->Ok_0,
                )
            &&& rows.len() < k ==> !goes_in(n, order, os[rows.len() as int]) && end == Some(
                kept_out(n, order, os[rows.len() as int]),
            )
        }),
    decreases k,
{
    if k > 0 {
        law_rows_go_in_up_to_the_first_bad_one(n, order, os, k - 1);
    }
}

// ---- UPDATE ----

/// An assignment that cannot be made: its value could not be evaluated, or is null in a column
/// that takes none.
pub open spec fn unassignable(
    schema: &Schema,
    column: usize,
    val: Result<ValueView, Seq<char>>,
) -> bool {
    match val {
        Err(_) => true,
        Ok(v) => v == ValueView::Null && schema.columns@[column as int].not_null,
    }
}

/// Assignment `i` is the first that cannot be made.
pub open spec fn stops_at(
    schema: &Schema,
    targets: Seq<usize>,
    vals: Seq<Result<ValueView, Seq<char>>>,
    i: int,
) -> bool {
    &&& 0 <= i < targets.len()
    &&& unassignable(schema, targets[i], vals[i])
    &&& forall|j: int|
        0 <= j < i ==> !unassignable(schema, #[trigger] targets[j], vals[j])
}

/// An UPDATE changes a row exactly where all its assignments can be made: the row has the
/// assigned values in their columns and keeps every other column. Otherwise it says what is
/// wrong with the first assignment that cannot be made.
pub proof fn law_assignments_change_their_columns(
    schema: &Schema,
    row: Seq<ValueView>,
    targets: Seq<usize>,
    vals: Seq<Result<ValueView, Seq<char>>>,
)
    requires
        targets.len() == vals.len(),
        forall|i: int| 0 <= i < targets.len() ==> (#[trigger] targets[i]) < row.len(),
    ensures
        match reassigned(schema, row, targets, vals, targets.len() as int) {
            Ok(after) => {
                &&& forall|i: int|
                    0 <= i < targets.len() ==> !unassignable(
                        schema,
                        #[trigger] targets[i],
                        vals[i],
                    )
                &&& holds_values(
                    after,
                    row,
                    targets,
                    Seq::new(vals.len(), |i: int| vals[i]->Ok_0),
                )
            },
            Err(e) => exists|i: int| #[trigger]
                stops_at(schema, targets, vals, i) && e == (match vals[i] {
                    Err(x) => x,
                    Ok(_) => quoted(
                        "NULL in NOT NULL column '"@,
                        schema.columns@[targets[i] as int].name@,
                    ),
                }),
        },
    decreases targets.len(),
{
    let n = targets.len() as int;
    if n > 0 {
        let t = targets.drop_last();
        let v = vals.drop_last();
        law_assignments_change_their_columns(schema, row, t, v);
        lemma_reassigned_takes(schema, row, targets, vals, t, v, n - 1);
        match reassigned(schema, row, t, v, n - 1) {
            Err(e) => {
                let i = choose|i: int| #[trigger]
                    stops_at(schema, t, v, i) && e == (match v[i] {
                        Err(x) => x,
                        Ok(_) => quoted(
                            "NULL in NOT NULL column '"@,
                            schema.columns@[t[i] as int].name@,
                        ),
                    });
                assert forall|j: int| 0 <= j < i implies !unassignable(
                    schema,
                    #[trigger] targets[j],
                    vals[j],
                ) by {
                    assert(t[j] == targets[j]);
                }
                assert(stops_at(schema, targets, vals, i));
            },
            Ok(before) => {
                assert forall|j: int| 0 <= j < n - 1 implies !unassignable(
                    schema,
                    #[trigger] targets[j],
                    vals[j],
                ) by {
                    assert(t[j] == targets[j]);
                }
                if unassignable(schema, targets[n - 1], vals[n - 1]) {
                    assert(stops_at(schema, targets, vals, n - 1));
                } else {
                    let after = reassigned(schema, row, targets, vals, n)->Ok_0;
                    let vs = Seq::new(vals.len(), |i: int| vals[i]->Ok_0);
                    let ws = Seq::new(v.len(), |i: int| v[i]->Ok_0);
                    assert forall|i: int| #[trigger] is_last_for(targets, i) implies after[
                    targets[i] as int] == vs[i] by {
                        if i < n - 1 {
                            assert(targets[n - 1] != targets[i]);
                            assert forall|j: int| i < j < t.len() implies #[trigger] t[j]
                                != t[i] by {
                                assert(targets[j] != targets[i]);
                            }
                            assert(is_last_for(t, i));
                            assert(ws[i] == vs[i]);
                        }
                    }
                    assert forall|c: int|
                        0 <= c < after.len() && (forall|i: int|
                            0 <= i < targets.len() ==> targets[i] != c)
                            implies #[trigger] after[c] == row[c] by {
                        assert(targets[n - 1] != c);
                        assert forall|i: int| 0 <= i < t.len() implies t[i] != c by {
                            assert(targets[i] != c);
                        }
                        assert(before[c] == row[c]);
                    }
                }
            },
        }
    }
}

proof fn lemma_reassigned_takes(
    schema: &Schema,
    row: Seq<ValueView>,
    targets: Seq<usize>,
    vals: Seq<Result<ValueView, Seq<char>>>,
    t: Seq<usize>,
    v: Seq<Result<ValueView, Seq<char>>>,
    n: int,
)
    requires
        n <= t.len() <= targets.len(),
        t.len() == v.len(),
        targets.len() == vals.len(),
        t == targets.take(t.len() as int),
        v == vals.take(t.len() as int),
    ensures
        reassigned(schema, row, targets, vals, n) == reassigned(schema, row, t, v, n),
    decreases n,
{
    if n > 0 {
        lemma_reassigned_takes(schema, row, targets, vals, t, v, n - 1);
        assert(t[n - 1] == targets[n - 1]);
        assert(v[n - 1] == vals[n - 1]);
    }
}

// ---- rows that a filter takes ----

/// The row was read and the filter said whether it takes it.
pub open spec fn was_asked(c: CandidateView) -> bool {
    c.row is Ok && c.matched is Ok
}

/// The row was read and the filter takes it.
pub open spec fn is_taken(c: CandidateView) -> bool {
    c.row is Ok && c.matched == Ok::<bool, Seq<char>>(true)
}

/// What kept the statement from asking: reading the row comes first.
pub open spec fn not_asked(c: CandidateView) -> Seq<char> {
    if c.row is Err {
        c.row->Err_0
    } else {
        c.matched->Err_0
    }
}

/// `at` numbers, upwards, exactly the rows among the first `n` that the filter takes.
pub open spec fn takes_at(cs: Seq<CandidateView>, n: int, at: Seq<int>) -> bool {
    &&& forall|i: int, j: int| 0 <= i < j < at.len() ==> #[trigger] at[i] < #[trigger] at[j]
    &&& forall|i: int| 0 <= i < at.len() ==> 0 <= #[trigger] at[i] < n && is_taken(cs[at[i]])
    &&& forall|k: int| 0 <= k < n && is_taken(#[trigger] cs[k]) ==> at.contains(k)
}

/// A DELETE takes exactly the rows of which the filter is true, in their order, and goes on
/// only where every row could be read and filtered: otherwise it says what kept the first
/// row from that.
pub proof fn law_deletes_take_what_the_filter_takes(cs: Seq<CandidateView>, n: int) -> (at: Seq<int>)
    requires
        0 <= n <= cs.len(),
    ensures
        match victims(cs, n) {
            Ok(vs) => {
                &&& forall|i: int| 0 <= i < n ==> was_asked(#[trigger] cs[i])
                &&& takes_at(cs, n, at)
                &&& vs.len() == at.len()
                &&& forall|i: int|
                    0 <= i < at.len() ==> vs[i] == (cs[#[trigger] at[i]].rid, cs[at[i]].row->Ok_0)
            },
            Err(e) => exists|i: int|
                0 <= i < n && !was_asked(#[trigger] cs[i]) && e == not_asked(cs[i]) && forall|
                    j: int,
                |
                    0 <= j < i ==> was_asked(#[trigger] cs[j]),
        },
    decreases n,
{
    if n <= 0 {
        Seq::empty()
    } else {
        let was = law_deletes_take_what_the_filter_takes(cs, n - 1);
        if victims(cs, n - 1) is Err {
            let e = victims(cs, n - 1)->Err_0;
            let i = choose|i: int|
                0 <= i < n - 1 && !was_asked(#[trigger] cs[i]) && e == not_asked(cs[i]) && forall|
                    j: int,
                |
                    0 <= j < i ==> was_asked(#[trigger] cs[j]);
            assert(0 <= i < n && !was_asked(cs[i]));
            was
        } else if !was_asked(cs[n - 1]) {
            was
        } else if is_taken(cs[n - 1]) {
            let at = was.push(n - 1);
            assert forall|k: int| 0 <= k < n && is_taken(#[trigger] cs[k]) implies at.contains(
                k,
            ) by {
                if k < n - 1 {
                    assert(was.contains(k));
                    let i = was.index_of(k);
                    assert(at[i] == k);
                } else {
                    assert(at[was.len() as int] == k);
                }
            }
            assert forall|i: int| 0 <= i < at.len() implies 0 <= #[trigger] at[i] < n && is_taken(
                cs[at[i]],
            ) by {
                if i < was.len() {
                    assert(at[i] == was[i]);
                }
            }
            assert forall|i: int, j: int| 0 <= i < j < at.len() implies #[trigger] at[i]
                < #[trigger] at[j] by {
                assert(at[i] == was[i]);
                if j < was.len() {
                    assert(at[j] == was[j]);
                }
            }
            let vs = victims(cs, n)->Ok_0;
            assert forall|i: int| 0 <= i < at.len() implies vs[i] == (
                cs[#[trigger] at[i]].rid,
                cs[at[i]].row->Ok_0,
            ) by {
                if i < was.len() {
                    assert(at[i] == was[i]);
                }
            }
            at
        } else {
            was
        }
    }
}

/// An UPDATE can be made of the row: it was read and filtered, and where the filter takes it
/// every assignment can be made.
pub open spec fn can_change(
    schema: &Schema,
    targets: Seq<usize>,
    c: CandidateView,
    o: OutcomeView,
) -> bool {
    was_asked(c) && (is_taken(c) ==> reassigned(
        schema,
        c.row->Ok_0,
        targets,
        o.vals,
        targets.len() as int,
    ) is Ok)
}

/// What kept the UPDATE from being made of the row.
pub open spec fn not_changed(
    schema: &Schema,
    targets: Seq<usize>,
    c: CandidateView,
    o: OutcomeView,
) -> Seq<char> {
    if !was_asked(c) {
        not_asked(c)
    } else {
        reassigned(schema, c.row->Ok_0, targets, o.vals, targets.len() as int)->Err_0
    }
}

/// The change is the one that the UPDATE makes of the row.
pub open spec fn changes_row(
    schema: &Schema,
    targets: Seq<usize>,
    c: CandidateView,
    o: OutcomeView,
    w: ChangeView,
) -> bool {
    &&& w.rid == c.rid
    &&& w.old_row == c.row->Ok_0
    &&& reassigned(schema, c.row->Ok_0, targets, o.vals, targets.len() as int) == Ok::<
        _,
        Seq<char>,
    >(w.new_row)
    &&& o.payload == Ok::<_, Seq<char>>(w.payload)
}

/// An UPDATE goes on only where it can be made of every row; otherwise it says what kept the
/// first row from that. It then changes the rows of which the filter is true, in their order,
/// up to the first that cannot be encoded, and ends with what that one said.
pub proof fn law_updates_change_what_the_filter_takes(
    schema: &Schema,
    targets: Seq<usize>,
    cs: Seq<CandidateView>,
    os: Seq<OutcomeView>,
    n: int,
) -> (at: Seq<int>)
    requires
        0 <= n <= cs.len(),
        cs.len() == os.len(),
    ensures
        match gathered(schema, targets, cs, os, n) {
            Ok((ws, end)) => {
                &&& forall|i: int| 0 <= i < n ==> can_change(schema, targets, #[trigger] cs[i], os[i])
                &&& takes_at(cs, n, at)
                &&& ws.len() <= at.len()
                &&& forall|i: int|
                    0 <= i < ws.len() ==> changes_row(
                        schema,
                        targets,
                        cs[at[i]],
                        os[at[i]],
                        #[trigger] ws[i],
                    )
                &&& end is None <==> ws.len() == at.len()
                &&& ws.len() < at.len() ==> os[at[ws.len() as int]].payload == Err::<
                    Seq<u8>,
                    Seq<char>,
                >(end->0)
            },
            Err(e) => exists|i: int|
                0 <= i < n && !can_change(schema, targets, #[trigger] cs[i], os[i]) && e
                    == not_changed(schema, targets, cs[i], os[i]) && forall|j: int|
                    0 <= j < i ==> can_change(schema, targets, #[trigger] cs[j], os[j]),
        },
    decreases n,
{
    if n <= 0 {
        Seq::empty()
    } else {
        let was = law_updates_change_what_the_filter_takes(schema, targets, cs, os, n - 1);
        let c = cs[n - 1];
        let o = os[n - 1];
        if gathered(schema, targets, cs, os, n - 1) is Err {
            let e = gathered(schema, targets, cs, os, n - 1)->Err_0;
            let i = choose|i: int|
                0 <= i < n - 1 && !can_change(schema, targets, #[trigger] cs[i], os[i]) && e
                    == not_changed(schema, targets, cs[i], os[i]) && forall|j: int|
                    0 <= j < i ==> can_change(schema, targets, #[trigger] cs[j], os[j]);
            assert(0 <= i < n && !can_change(schema, targets, cs[i], os[i]));
            was
        } else if !can_change(schema, targets, c, o) {
            assert(!can_change(schema, targets, cs[n - 1], os[n - 1]));
            was
        } else if is_taken(c) {
            let at = was.push(n - 1);
            assert forall|k: int| 0 <= k < n && is_taken(#[trigger] cs[k]) implies at.contains(
                k,
            ) by {
                if k < n - 1 {
                    assert(was.contains(k));
                    let i = was.index_of(k);
                    assert(at[i] == k);
                } else {
                    assert(at[was.len() as int] == k);
                }
            }
            assert forall|i: int| 0 <= i < at.len() implies 0 <= #[trigger] at[i] < n && is_taken(
                cs[at[i]],
            ) by {
                if i < was.len() {
                    assert(at[i] == was[i]);
                }
            }
            assert forall|i: int, j: int| 0 <= i < j < at.len() implies #[trigger] at[i]
                < #[trigger] at[j] by {
                assert(at[i] == was[i]);
                if j < was.len() {
                    assert(at[j] == was[j]);
                }
            }
            let (vs, stop) = gathered(schema, targets, cs, os, n - 1)->Ok_0;
            let (ws, end) = gathered(schema, targets, cs, os, n)->Ok_0;
            assert forall|i: int| 0 <= i < ws.len() implies changes_row(
                schema,
                targets,
                cs[at[i]],
                os[at[i]],
                #[trigger] ws[i],
            ) by {
                if i < vs.len() {
                    assert(ws[i] == vs[i]);
                    assert(at[i] == was[i]);
                }
            }
            at
        } else {
            was
        }
    }
}

// ---- what an INSERT leaves ----

proof fn lemma_with_rows_at(
    recs: Map<Rid, Seq<u8>>,
    tid: u16,
    rids: Seq<Rid>,
    pays: Seq<Seq<u8>>,
    n: int,
)
    requires
        0 <= n <= rids.len(),
        rids.no_duplicates(),
        forall|i: int| 0 <= i < rids.len() ==> !recs.dom().contains(#[trigger] rids[i]),
    ensures
        forall|x: Rid| #[trigger]
            with_rows(recs, tid, rids, pays, n).dom().contains(x) <==> recs.dom().contains(x)
                || exists|i: int| 0 <= i < n && #[trigger] rids[i] == x,
        forall|x: Rid| #[trigger]
            recs.dom().contains(x) ==> with_rows(recs, tid, rids, pays, n)[x] == recs[x],
        forall|i: int|
            0 <= i < n ==> with_rows(recs, tid, rids, pays, n)[#[trigger] rids[i]] == table_record(
                tid,
                pays[i],
            ),
    decreases n,
{
    if n > 0 {
        lemma_with_rows_at(recs, tid, rids, pays, n - 1);
        let was = with_rows(recs, tid, rids, pays, n - 1);
        let now = with_rows(recs, tid, rids, pays, n);
        assert forall|x: Rid| #[trigger] now.dom().contains(x) <==> recs.dom().contains(x)
            || exists|i: int| 0 <= i < n && #[trigger] rids[i] == x by {
            if was.dom().contains(x) && !recs.dom().contains(x) {
                let i = choose|i: int| 0 <= i < n - 1 && #[trigger] rids[i] == x;
                assert(0 <= i < n && rids[i] == x);
            }
            if exists|i: int| 0 <= i < n && #[trigger] rids[i] == x {
                let i = choose|i: int| 0 <= i < n && #[trigger] rids[i] == x;
                if i < n - 1 {
                    assert(was.dom().contains(x));
                }
            }
        }
        assert forall|i: int| 0 <= i < n implies now[#[trigger] rids[i]] == table_record(
            tid,
            pays[i],
        ) by {
            if i < n - 1 {
                assert(rids[i] != rids[n - 1]);
            }
        }
    }
}

/// An INSERT that went well stored every row it was given: each at a place of its own that was
/// free, as a record of the table with the encoded row in it, and every other record is as it
/// was, but for the definitions of indexes.
pub proof fn law_inserts_store_every_row<F: BlockFile, W: WalSync>(
    after: &Database<BufferPool<F, W>>,
    before: &Database<BufferPool<F, W>>,
    t: int,
    order: Seq<usize>,
    os: Seq<OutcomeView>,
    logged: bool,
    mid: Database<BufferPool<F, W>>,
    w: Result<Vec<Rid>, DbError>,
    s: Result<(), DbError>,
) -> (rids: Seq<Rid>)
    requires
        after.insert_ended(before, t, order, os, logged, mid, w, s, Ok(())),
    ensures
        rids.len() == os.len(),
        rids.no_duplicates(),
        forall|i: int| 0 <= i < rids.len() ==> !before.stored().dom().contains(#[trigger] rids[i]),
        forall|i: int|
            0 <= i < os.len() ==> goes_in(
                before.tables@[t].schema.columns@.len(),
                order,
                #[trigger] os[i],
            ),
        forall|x: Rid| #[trigger]
            after.stored().dom().contains(x) <==> before.stored().dom().contains(x)
                || rids.contains(x),
        forall|i: int|
            0 <= i < rids.len() && !defines(before.indexes@, #[trigger] rids[i])
                ==> after.stored()[rids[i]] == table_record(
                before.tables@[t].tid,
                os[i].payload->Ok_0,
            ),
        forall|x: Rid| #[trigger]
            before.stored().dom().contains(x) && !defines(before.indexes@, x) ==> after.stored()[x]
                == before.stored()[x],
{
    let n = before.tables@[t].schema.columns@.len();
    let tid = before.tables@[t].tid;
    law_rows_go_in_up_to_the_first_bad_one(n, order, os, os.len() as int);
    let (rows, end) = before.inserts(t, order, os);
    assert(s is Ok);
    assert(w is Ok);
    assert(end is None);
    let rids = w->Ok_0@;
    let pays = seconds(rows);
    assert(firsts(rows).len() == rows.len());
    let recs = with_rows(before.stored(), tid, rids, pays, rids.len() as int);
    lemma_with_rows_at(before.stored(), tid, rids, pays, rids.len() as int);
    assert(after.stored() == mid.stored()) by {
        reveal(Database::stored);
    }
    assert(same_data(recs, mid.stored(), before.indexes@));
    assert forall|x: Rid| #[trigger] after.stored().dom().contains(x)
        <==> before.stored().dom().contains(x) || rids.contains(x) by {
        assert(recs.dom().contains(x) <==> mid.stored().dom().contains(x));
        if rids.contains(x) {
            let i = rids.index_of(x);
            assert(rids[i] == x);
        }
        if recs.dom().contains(x) && !before.stored().dom().contains(x) {
            let i = choose|i: int| 0 <= i < rids.len() && #[trigger] rids[i] == x;
            assert(rids.contains(x));
        }
    }
    assert forall|i: int|
        0 <= i < rids.len() && !defines(before.indexes@, #[trigger] rids[i])
            implies after.stored()[rids[i]] == table_record(tid, os[i].payload->Ok_0) by {
        assert(recs.dom().contains(rids[i]));
        assert(goes_in(n, order, os[i]));
        assert(pays[i] == rows[i].1);
    }
    assert forall|x: Rid| #[trigger]
        before.stored().dom().contains(x) && !defines(before.indexes@, x)
            implies after.stored()[x] == before.stored()[x] by {
        assert(recs.dom().contains(x));
    }
    rids
}

/// Values that are given for no columns in particular are the row as it stands.
pub proof fn law_values_without_columns_are_the_row(
    schema: &Schema,
    order: Seq<usize>,
    vals: Seq<ValueView>,
)
    requires
        resolved(schema, None, order),
        schema.columns@.len() <= usize::MAX,
        vals.len() == schema.columns@.len(),
    ensures
        order.len() == vals.len(),
        filled(schema.columns@.len(), order, vals) == vals,
{
    let n = schema.columns@.len();
    assert forall|i: int| 0 <= i < order.len() implies (#[trigger] order[i]) < n by {}
    law_values_go_to_their_columns(n, order, vals);
    let row = filled(n, order, vals);
    assert forall|i: int| 0 <= i < n implies row[i] == vals[i] by {
        assert(order[i] == i);
        assert(is_last_for(order, i));
    }
    assert(row =~= vals);
}

} // verus!
