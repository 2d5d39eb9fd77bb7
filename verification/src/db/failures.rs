//! What makes a query fail: the laws of errors in WHERE, in the SELECT list, in GROUP BY and in
//! HAVING. A row that cannot be evaluated is not passed over.

use vstd::prelude::*;

use crate::db::answers::holds_on;
use crate::db::ast::{Expr, ExprView};
use crate::db::exec::{
    all_values, group_rows_out, group_value, passes, representative, streamed, value_of, Cols,
    ExecError, Keyed, Row,
};
use crate::db::plan::Sch;
use crate::db::query::{filtered, key_rows};
use crate::types::{Value, ValueView};

verus! {

/// The condition cannot be evaluated on the row.
pub open spec fn filter_fails<E: Fn(&Expr, &Sch, &Row) -> Result<Keyed, ExecError>>(
    f: E,
    cond: Option<ExprView>,
    s: Cols,
    r: Seq<ValueView>,
    e: Seq<char>,
) -> bool {
    cond matches Some(p) && (value_of(f, p, s, r) matches Err(x) && x == e)
}

/// Expression `c` is the first that cannot be evaluated on the row.
pub open spec fn fails_at<E: Fn(&Expr, &Sch, &Row) -> Result<Keyed, ExecError>>(
    f: E,
    es: Seq<ExprView>,
    s: Cols,
    r: Seq<ValueView>,
    e: Seq<char>,
    c: int,
) -> bool {
    &&& 0 <= c < es.len()
    &&& value_of(f, es[c], s, r) matches Err(x) && x == e
    &&& forall|d: int| 0 <= d < c ==> value_of(f, #[trigger] es[d], s, r) is Ok
}

/// One of the expressions cannot be evaluated on the row.
pub open spec fn answer_fails<E: Fn(&Expr, &Sch, &Row) -> Result<Keyed, ExecError>>(
    f: E,
    es: Seq<ExprView>,
    s: Cols,
    r: Seq<ValueView>,
    e: Seq<char>,
) -> bool {
    exists|c: int| #[trigger] fails_at(f, es, s, r, e, c)
}

/// The row makes the query fail: its condition cannot be evaluated, or it is true and what is
/// asked of the row cannot be.
pub open spec fn row_fails<E: Fn(&Expr, &Sch, &Row) -> Result<Keyed, ExecError>>(
    f: E,
    cond: Option<ExprView>,
    es: Seq<ExprView>,
    s: Cols,
    r: Seq<ValueView>,
    e: Seq<char>,
) -> bool {
    filter_fails(f, cond, s, r, e) || holds_on(f, cond, s, r) && answer_fails(f, es, s, r, e)
}

/// Row `i` is the first that fails.
pub open spec fn first_to_fail<E: Fn(&Expr, &Sch, &Row) -> Result<Keyed, ExecError>>(
    f: E,
    cond: Option<ExprView>,
    es: Seq<ExprView>,
    s: Cols,
    rows: Seq<Seq<ValueView>>,
    e: Seq<char>,
    i: int,
) -> bool {
    &&& 0 <= i < rows.len()
    &&& row_fails(f, cond, es, s, rows[i], e)
    &&& forall|j: int, x: Seq<char>|
        0 <= j < i ==> !#[trigger] row_fails(f, cond, es, s, rows[j], x)
}

proof fn lemma_all_values_fail<E: Fn(&Expr, &Sch, &Row) -> Result<Keyed, ExecError>>(
    f: E,
    es: Seq<ExprView>,
    s: Cols,
    r: Seq<ValueView>,
)
    ensures
        match all_values(f, es, s, r) {
            Ok(_) => forall|x: Seq<char>| !#[trigger] answer_fails(f, es, s, r, x),
            Err(e) => answer_fails(f, es, s, r, e) && forall|x: Seq<char>| #[trigger]
                answer_fails(f, es, s, r, x) ==> x == e,
        },
    decreases es.len(),
{
    if es.len() > 0 {
        let init = es.drop_last();
        let n = es.len() - 1;
        lemma_all_values_fail(f, init, s, r);
        assert forall|d: int| 0 <= d < n implies init[d] == #[trigger] es[d] by {}
        match all_values(f, init, s, r) {
            Err(e) => {
                let c = choose|c: int| #[trigger] fails_at(f, init, s, r, e, c);
                assert forall|d: int| 0 <= d < c implies value_of(
                    f,
                    #[trigger] es[d],
                    s,
                    r,
                ) is Ok by {
                    assert(init[d] == es[d]);
                }
                assert(fails_at(f, es, s, r, e, c));
                assert forall|x: Seq<char>| #[trigger] answer_fails(f, es, s, r, x) implies x
                    == e by {
                    let d = choose|d: int| #[trigger] fails_at(f, es, s, r, x, d);
                    if c < d {
                        assert(value_of(f, es[c], s, r) is Ok);
                    }
                    if d < c {
                        assert(value_of(f, es[d], s, r) is Ok);
                    }
                }
            },
            Ok(_) => {
                assert forall|d: int| 0 <= d < n implies value_of(
                    f,
                    #[trigger] es[d],
                    s,
                    r,
                ) is Ok by {
                    lemma_init_ok(f, init, s, r, d);
                }
                if value_of(f, es[n], s, r) is Err {
                    let e = value_of(f, es[n], s, r)->Err_0;
                    assert(fails_at(f, es, s, r, e, n));
                    assert forall|x: Seq<char>| #[trigger] answer_fails(f, es, s, r, x) implies x
                        == e by {
                        let d = choose|d: int| #[trigger] fails_at(f, es, s, r, x, d);
                        if d < n {
                            assert(value_of(f, es[d], s, r) is Ok);
                        }
                    }
                } else {
                    assert forall|x: Seq<char>| !#[trigger] answer_fails(f, es, s, r, x) by {
                        if answer_fails(f, es, s, r, x) {
                            let d = choose|d: int| #[trigger] fails_at(f, es, s, r, x, d);
                            if d < n {
                                assert(value_of(f, es[d], s, r) is Ok);
                            }
                        }
                    }
                }
            },
        }
    } else {
        assert forall|x: Seq<char>| !#[trigger] answer_fails(f, es, s, r, x) by {
            if answer_fails(f, es, s, r, x) {
                let d = choose|d: int| #[trigger] fails_at(f, es, s, r, x, d);
            }
        }
    }
}

proof fn lemma_init_ok<E: Fn(&Expr, &Sch, &Row) -> Result<Keyed, ExecError>>(
    f: E,
    es: Seq<ExprView>,
    s: Cols,
    r: Seq<ValueView>,
    d: int,
)
    requires
        all_values(f, es, s, r) is Ok,
        0 <= d < es.len(),
    ensures
        value_of(f, es[d], s, r) is Ok,
    decreases es.len(),
{
    if d < es.len() - 1 {
        lemma_init_ok(f, es.drop_last(), s, r, d);
    }
}

/// A query fails with the first row that fails, with what the evaluator said of it, and a query
/// that looks at all rows fails wherever there is such a row.
pub proof fn law_queries_fail_with_the_first_failing_row<
    E: Fn(&Expr, &Sch, &Row) -> Result<Keyed, ExecError>,
>(
    f: E,
    cond: Option<ExprView>,
    es: Seq<ExprView>,
    s: Cols,
    rows: Seq<Seq<ValueView>>,
    want: int,
)
    ensures
        streamed(f, cond, es, s, rows, want) is Err ==> exists|i: int| #[trigger]
            first_to_fail(
                f,
                cond,
                es,
                s,
                rows,
                streamed(f, cond, es, s, rows, want)->Err_0,
                i,
            ),
        streamed(f, cond, es, s, rows, want) is Ok && want < 0 ==> forall|i: int, x: Seq<char>|
            0 <= i < rows.len() ==> !#[trigger] row_fails(f, cond, es, s, rows[i], x),
    decreases rows.len(),
{
    if rows.len() > 0 && want != 0 {
        let rest = rows.drop_first();
        let r = rows[0];
        lemma_all_values_fail(f, es, s, r);
        if passes(f, cond, s, r) is Err {
            let e = passes(f, cond, s, r)->Err_0;
            assert(streamed(f, cond, es, s, rows, want)->Err_0 == e);
            assert(first_to_fail(f, cond, es, s, rows, e, 0));
        } else {
            let keep = passes(f, cond, s, r)->Ok_0;
            assert(keep == holds_on(f, cond, s, r));
            if keep && all_values(f, es, s, r) is Err {
                let e = all_values(f, es, s, r)->Err_0;
                assert(streamed(f, cond, es, s, rows, want)->Err_0 == e);
            assert(first_to_fail(f, cond, es, s, rows, e, 0));
            } else {
                assert forall|x: Seq<char>| !#[trigger] row_fails(f, cond, es, s, r, x) by {}
                let left = if keep {
                    want - 1
                } else {
                    want
                };
                law_queries_fail_with_the_first_failing_row(f, cond, es, s, rest, left);
                assert forall|i: int| 0 <= i < rest.len() implies rest[i] == #[trigger] rows[i
                    + 1] by {}
                match streamed(f, cond, es, s, rest, left) {
                    Err(e) => {
                        let i = choose|i: int| #[trigger]
                            first_to_fail(f, cond, es, s, rest, e, i);
                        assert forall|j: int, x: Seq<char>|
                            0 <= j < i + 1 implies !#[trigger] row_fails(
                            f,
                            cond,
                            es,
                            s,
                            rows[j],
                            x,
                        ) by {
                            if j > 0 {
                                assert(rows[j] == rest[j - 1]);
                                assert(!row_fails(f, cond, es, s, rest[j - 1], x));
                            }
                        }
                        assert(rows[i + 1] == rest[i]);
                        assert(streamed(f, cond, es, s, rows, want)->Err_0 == e);
                        assert(first_to_fail(f, cond, es, s, rows, e, i + 1));
                    },
                    Ok(_) => {
                        if want < 0 {
                            assert forall|i: int, x: Seq<char>|
                                0 <= i < rows.len() implies !#[trigger] row_fails(
                                f,
                                cond,
                                es,
                                s,
                                rows[i],
                                x,
                            ) by {
                                if i > 0 {
                                    assert(rows[i] == rest[i - 1]);
                                    assert(!row_fails(f, cond, es, s, rest[i - 1], x));
                                }
                            }
                        }
                    },
                }
            }
        }
    }
}

/// Row `i` is the first on which the condition cannot be evaluated.
pub open spec fn first_unfiltered<E: Fn(&Expr, &Sch, &Row) -> Result<Keyed, ExecError>>(
    f: E,
    cond: Option<ExprView>,
    s: Cols,
    rows: Seq<Seq<ValueView>>,
    e: Seq<char>,
    i: int,
) -> bool {
    &&& 0 <= i < rows.len()
    &&& filter_fails(f, cond, s, rows[i], e)
    &&& forall|j: int, x: Seq<char>|
        0 <= j < i ==> !#[trigger] filter_fails(f, cond, s, rows[j], x)
}

/// Filtering fails with the first row on which the condition cannot be evaluated, and wherever
/// there is one.
pub proof fn law_filters_fail_with_the_first_failing_row<
    E: Fn(&Expr, &Sch, &Row) -> Result<Keyed, ExecError>,
>(f: E, cond: Option<ExprView>, s: Cols, rows: Seq<Seq<ValueView>>)
    ensures
        filtered(f, cond, s, rows) is Err ==> exists|i: int| #[trigger]
            first_unfiltered(f, cond, s, rows, filtered(f, cond, s, rows)->Err_0, i),
        filtered(f, cond, s, rows) is Ok ==> forall|i: int, x: Seq<char>|
            0 <= i < rows.len() ==> !#[trigger] filter_fails(f, cond, s, rows[i], x),
    decreases rows.len(),
{
    if rows.len() > 0 {
        let init = rows.drop_last();
        let n = rows.len() - 1;
        law_filters_fail_with_the_first_failing_row(f, cond, s, init);
        match filtered(f, cond, s, init) {
            Err(e) => {
                let i = choose|i: int| #[trigger] first_unfiltered(f, cond, s, init, e, i);
                assert forall|j: int, x: Seq<char>| 0 <= j < i implies !#[trigger] filter_fails(
                    f,
                    cond,
                    s,
                    rows[j],
                    x,
                ) by {
                    assert(rows[j] == init[j]);
                    assert(!filter_fails(f, cond, s, init[j], x));
                }
                assert(filtered(f, cond, s, rows)->Err_0 == e);
                assert(first_unfiltered(f, cond, s, rows, e, i));
            },
            Ok(_) => {
                assert forall|j: int, x: Seq<char>| 0 <= j < n implies !#[trigger] filter_fails(
                    f,
                    cond,
                    s,
                    rows[j],
                    x,
                ) by {
                    assert(rows[j] == init[j]);
                    assert(!filter_fails(f, cond, s, init[j], x));
                }
                if passes(f, cond, s, rows[n]) is Err {
                    let e = passes(f, cond, s, rows[n])->Err_0;
                    assert(filtered(f, cond, s, rows)->Err_0 == e);
                    assert(first_unfiltered(f, cond, s, rows, e, n));
                }
            },
        }
    }
}

/// Row `i` is the first on which one of the expressions cannot be evaluated.
pub open spec fn first_unanswered<E: Fn(&Expr, &Sch, &Row) -> Result<Keyed, ExecError>>(
    f: E,
    es: Seq<ExprView>,
    s: Cols,
    rows: Seq<Seq<ValueView>>,
    e: Seq<char>,
    i: int,
) -> bool {
    &&& 0 <= i < rows.len()
    &&& answer_fails(f, es, s, rows[i], e)
    &&& forall|j: int, x: Seq<char>|
        0 <= j < i ==> !#[trigger] answer_fails(f, es, s, rows[j], x)
}

/// Grouping fails with the first row on which a GROUP BY expression cannot be evaluated, and
/// wherever there is one.
pub proof fn law_grouping_fails_with_the_first_failing_row<
    E: Fn(&Expr, &Sch, &Row) -> Result<Keyed, ExecError>,
>(f: E, es: Seq<ExprView>, s: Cols, rows: Seq<Seq<ValueView>>)
    ensures
        key_rows(f, es, s, rows) is Err ==> exists|i: int| #[trigger]
            first_unanswered(f, es, s, rows, key_rows(f, es, s, rows)->Err_0, i),
        key_rows(f, es, s, rows) is Ok ==> forall|i: int, x: Seq<char>|
            0 <= i < rows.len() ==> !#[trigger] answer_fails(f, es, s, rows[i], x),
    decreases rows.len(),
{
    if rows.len() > 0 {
        let init = rows.drop_last();
        let n = rows.len() - 1;
        law_grouping_fails_with_the_first_failing_row(f, es, s, init);
        lemma_all_values_fail(f, es, s, rows[n]);
        match key_rows(f, es, s, init) {
            Err(e) => {
                let i = choose|i: int| #[trigger] first_unanswered(f, es, s, init, e, i);
                assert forall|j: int, x: Seq<char>| 0 <= j < i implies !#[trigger] answer_fails(
                    f,
                    es,
                    s,
                    rows[j],
                    x,
                ) by {
                    assert(rows[j] == init[j]);
                    assert(!answer_fails(f, es, s, init[j], x));
                }
                assert(key_rows(f, es, s, rows)->Err_0 == e);
                assert(first_unanswered(f, es, s, rows, e, i));
            },
            Ok(_) => {
                assert forall|j: int, x: Seq<char>| 0 <= j < n implies !#[trigger] answer_fails(
                    f,
                    es,
                    s,
                    rows[j],
                    x,
                ) by {
                    assert(rows[j] == init[j]);
                    assert(!answer_fails(f, es, s, init[j], x));
                }
                if all_values(f, es, s, rows[n]) is Err {
                    let e = all_values(f, es, s, rows[n])->Err_0;
                    assert(key_rows(f, es, s, rows)->Err_0 == e);
                    assert(first_unanswered(f, es, s, rows, e, n));
                }
            },
        }
    }
}

/// A grouped query goes well only where HAVING can be evaluated over every group: none is passed
/// over because it cannot be.
pub proof fn law_grouped_queries_pass_over_no_group<
    E: Fn(&Expr, &Sch, &Row) -> Result<Keyed, ExecError>,
    A: Fn(bool, &Vec<Value>) -> Value,
>(
    f: E,
    a: A,
    having: Option<ExprView>,
    es: Seq<ExprView>,
    s: Cols,
    groups: Seq<Seq<Seq<ValueView>>>,
    g: int,
)
    requires
        group_rows_out(f, a, having, es, s, groups) is Ok,
        0 <= g < groups.len(),
    ensures
        having matches Some(h) ==> group_value(
            f,
            a,
            h,
            s,
            groups[g],
            representative(s, groups[g]),
        ) is Ok,
    decreases groups.len(),
{
    if g < groups.len() - 1 {
        law_grouped_queries_pass_over_no_group(f, a, having, es, s, groups.drop_last(), g);
        assert(groups.drop_last()[g] == groups[g]);
    } else {
        assert(groups.last() == groups[g]);
    }
}

} // verus!
