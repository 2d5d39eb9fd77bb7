//! What a whole query answers, from its SELECT list to its LIMIT.

use vstd::prelude::*;

use crate::db::answers::{
    comes_out, holds_on, law_rows_come_out_in_order, law_where_keeps_exactly_the_true_rows, shows,
    upwards,
};
use crate::db::ast::{lemma_trees, trees, Expr, ExprView};
use crate::db::exec::{opt_tree, row_views, streamed, value_of, Cols, ExecError, Keyed, Row};
use crate::db::keyed::KeyView;
use crate::db::plan::{all_plain, plain, Sch};
use crate::db::query::aggregated;
use crate::db::resolved::{
    is_aggregate_at, is_subquery_at, law_aggregates_are_found_anywhere,
    law_order_keys_mean_a_column_each, law_subqueries_are_found_anywhere, lemma_all_plain,
};
use crate::db::select::{
    aggregates, bodies, clauses_plain, finished, item_aggregates, item_views, labels, order_views, output_columns,
    sort_columns, wanted, ItemView, ResultSet, Select, SelectItem,
};
use crate::db::session::words;
use crate::types::{Value, ValueView};

verus! {

/// An item of the SELECT list has an aggregate in it.
pub open spec fn reduces(item: ItemView) -> bool {
    item matches ItemView::Expr { expr, label } && exists|path: Seq<int>| #[trigger]
        is_aggregate_at(expr, path)
}

/// The query is answered group by group: it has GROUP BY or HAVING, or an aggregate in its
/// SELECT list.
pub open spec fn by_groups(q: Select) -> bool {
    q.group_by@.len() > 0 || q.having is Some || exists|i: int|
        0 <= i < q.items@.len() && reduces((#[trigger] q.items@[i])@)
}

proof fn lemma_by_groups(q: Select)
    ensures
        by_groups(q) == aggregates(q),
{
    assert forall|i: int| 0 <= i < q.items@.len() implies item_aggregates(#[trigger] q.items@[i])
        == reduces(q.items@[i]@) by {
        if let SelectItem::Expr { expr, label } = q.items@[i] {
            law_aggregates_are_found_anywhere(expr@);
        }
    }
    if by_groups(q) && q.group_by@.len() == 0 && q.having is None {
        let i = choose|i: int| 0 <= i < q.items@.len() && reduces((#[trigger] q.items@[i])@);
        assert(item_aggregates(q.items@[i]));
    }
    if aggregates(q) && q.group_by@.len() == 0 && q.having is None {
        let i = choose|i: int| 0 <= i < q.items@.len() && item_aggregates(#[trigger] q.items@[i]);
        assert(reduces(q.items@[i]@));
    }
}

/// The evaluator's answers to the expressions on a row.
pub open spec fn told<E: Fn(&Expr, &Sch, &Row) -> Result<Keyed, ExecError>>(
    f: E,
    es: Seq<ExprView>,
    s: Cols,
    r: Seq<ValueView>,
) -> Seq<(ValueView, KeyView)> {
    Seq::new(es.len(), |c: int| value_of(f, es[c], s, r)->Ok_0)
}

/// What the evaluator tells of the rows numbered `at`.
pub open spec fn told_of<E: Fn(&Expr, &Sch, &Row) -> Result<Keyed, ExecError>>(
    f: E,
    es: Seq<ExprView>,
    s: Cols,
    rows: Seq<Seq<ValueView>>,
    at: Seq<int>,
) -> Seq<Seq<(ValueView, KeyView)>> {
    at.map_values(|i: int| told(f, es, s, rows[i]))
}

/// `at` numbers, upwards, rows of which the condition is true: all of them, or only the first
/// `limit` where nothing is sorted or made unique, or where none are asked for.
pub open spec fn looks_at<E: Fn(&Expr, &Sch, &Row) -> Result<Keyed, ExecError>>(
    f: E,
    cond: Option<ExprView>,
    s: Cols,
    rows: Seq<Seq<ValueView>>,
    sorted: bool,
    limit: Option<i64>,
    at: Seq<int>,
) -> bool {
    &&& upwards(at)
    &&& forall|i: int|
        0 <= i < at.len() ==> 0 <= #[trigger] at[i] < rows.len() && holds_on(f, cond, s, rows[at[i]])
    &&& forall|k: int|
        0 <= k < rows.len() && holds_on(f, cond, s, #[trigger] rows[k]) && !at.contains(k) ==> {
            &&& limit is Some && limit->0 <= at.len()
            &&& limit->0 <= 0 || !sorted
            &&& forall|i: int| 0 <= i < at.len() ==> at[i] < k
        }
}

/// A query that is not answered group by group gives, under the labels of its SELECT list, the
/// evaluator's answers on the rows of which the condition is exactly true, of no others and of
/// each once, made unique, sorted and cut off as it asks.
pub proof fn law_queries_answer_from_the_true_rows<
    E: Fn(&Expr, &Sch, &Row) -> Result<Keyed, ExecError>,
    A: Fn(bool, &Vec<Value>) -> Value,
>(f: E, a: A, q: Select, s: Cols, rows: Seq<Seq<ValueView>>, set: ResultSet) -> (w: (
    Seq<int>,
    Seq<int>,
))
    requires
        finished(f, a, q, s, rows, Some(Ok(set))),
        !by_groups(q),
        rows.len() <= usize::MAX,
    ensures
        output_columns(item_views(q.items@), s) is Some,
        ({
            let cols = output_columns(item_views(q.items@), s)->0;
            let es = bodies(cols);
            &&& words(set.columns@) == labels(cols)
            &&& sort_columns(order_views(q.order_by@), labels(cols)) is Some
            &&& looks_at(
                f,
                opt_tree(q.filter),
                s,
                rows,
                q.distinct || q.order_by@.len() > 0,
                q.limit,
                w.0,
            )
            &&& comes_out(
                told_of(f, es, s, rows, w.0),
                q.distinct,
                sort_columns(order_views(q.order_by@), labels(cols))->0,
                q.limit,
                w.1,
                row_views(set.rows@),
            )
        }),
{
    lemma_by_groups(q);
    let cols = output_columns(item_views(q.items@), s)->0;
    let es = bodies(cols);
    let ks = sort_columns(order_views(q.order_by@), labels(cols))->0;
    let cond = opt_tree(q.filter);
    let want = wanted(q.distinct, ks, q.limit);
    law_order_keys_mean_a_column_each(order_views(q.order_by@), labels(cols));
    let body = streamed(f, cond, es, s, rows, want)->Ok_0;
    let at = law_where_keeps_exactly_the_true_rows(f, cond, es, s, rows, want);
    assert(told_of(f, es, s, rows, at) =~= body) by {
        assert forall|i: int| 0 <= i < at.len() implies told(f, es, s, rows[at[i]]) == body[i] by {
            assert(shows(f, es, s, rows[at[i]], body[i]));
            assert forall|c: int| 0 <= c < es.len() implies body[i][c] == value_of(
                f,
                es[c],
                s,
                rows[at[i]],
            )->Ok_0 by {
                assert(value_of(f, es[c], s, rows[at[i]]) == Ok::<_, Seq<char>>(body[i][c]));
            }
            assert(told(f, es, s, rows[at[i]]) =~= body[i]);
        }
    }
    lemma_upwards_len(at, rows.len() as int);
    let o = law_rows_come_out_in_order(body, q.distinct, ks, q.limit, row_views(set.rows@));
    (at, o)
}

proof fn lemma_upwards_len(at: Seq<int>, n: int)
    requires
        upwards(at),
        forall|i: int| 0 <= i < at.len() ==> 0 <= #[trigger] at[i] < n,
    ensures
        at.len() <= n || at.len() == 0,
    decreases at.len(),
{
    if at.len() > 0 {
        let init = at.drop_last();
        let m = at.last();
        assert forall|i: int, j: int| 0 <= i < j < init.len() implies #[trigger] init[i]
            < #[trigger] init[j] by {
            assert(at[i] < at[j]);
        }
        assert forall|i: int| 0 <= i < init.len() implies 0 <= #[trigger] init[i] < m by {
            assert(at[i] < at[at.len() - 1]);
        }
        lemma_upwards_len(init, m);
    }
}

/// A query with GROUP BY, HAVING or an aggregate gives what its groups give, made unique,
/// sorted and cut off as it asks.
pub proof fn law_grouped_queries_answer_from_their_groups<
    E: Fn(&Expr, &Sch, &Row) -> Result<Keyed, ExecError>,
    A: Fn(bool, &Vec<Value>) -> Value,
>(f: E, a: A, q: Select, s: Cols, rows: Seq<Seq<ValueView>>, set: ResultSet) -> (o: Seq<int>)
    requires
        finished(f, a, q, s, rows, Some(Ok(set))),
        by_groups(q),
        aggregated(
            f,
            a,
            opt_tree(q.filter),
            trees(q.group_by@),
            opt_tree(q.having),
            bodies(output_columns(item_views(q.items@), s)->0),
            s,
            rows,
        )->Ok_0.len() <= usize::MAX,
    ensures
        output_columns(item_views(q.items@), s) is Some,
        ({
            let cols = output_columns(item_views(q.items@), s)->0;
            let body = aggregated(
                f,
                a,
                opt_tree(q.filter),
                trees(q.group_by@),
                opt_tree(q.having),
                bodies(cols),
                s,
                rows,
            );
            &&& words(set.columns@) == labels(cols)
            &&& sort_columns(order_views(q.order_by@), labels(cols)) is Some
            &&& body is Ok
            &&& comes_out(
                body->Ok_0,
                q.distinct,
                sort_columns(order_views(q.order_by@), labels(cols))->0,
                q.limit,
                o,
                row_views(set.rows@),
            )
        }),
{
    lemma_by_groups(q);
    let cols = output_columns(item_views(q.items@), s)->0;
    let ks = sort_columns(order_views(q.order_by@), labels(cols))->0;
    let body = aggregated(
        f,
        a,
        opt_tree(q.filter),
        trees(q.group_by@),
        opt_tree(q.having),
        bodies(cols),
        s,
        rows,
    )->Ok_0;
    law_rows_come_out_in_order(body, q.distinct, ks, q.limit, row_views(set.rows@))
}

/// An expression asks another query.
pub open spec fn asks_another(e: ExprView) -> bool {
    exists|path: Seq<int>| #[trigger] is_subquery_at(e, path)
}

/// A clause of the query asks another query: WHERE, HAVING or GROUP BY.
pub open spec fn clause_asks_another(q: Select) -> bool {
    ||| q.filter matches Some(e) && asks_another(e@)
    ||| q.having matches Some(e) && asks_another(e@)
    ||| exists|i: int| 0 <= i < q.group_by@.len() && asks_another((#[trigger] q.group_by@[i])@)
}

/// A query is left to be answered otherwise exactly where one of its clauses asks another
/// query, or an item of its SELECT list or a key of its ORDER BY means nothing.
pub proof fn law_queries_that_ask_another_are_left_open<
    E: Fn(&Expr, &Sch, &Row) -> Result<Keyed, ExecError>,
    A: Fn(bool, &Vec<Value>) -> Value,
>(
    f: E,
    a: A,
    q: Select,
    s: Cols,
    rows: Seq<Seq<ValueView>>,
    o: Option<Result<ResultSet, ExecError>>,
)
    requires
        finished(f, a, q, s, rows, o),
    ensures
        o is None <==> clause_asks_another(q) || output_columns(item_views(q.items@), s) is None
            || sort_columns(
            order_views(q.order_by@),
            labels(output_columns(item_views(q.items@), s)->0),
        ) is None,
{
    if let Some(e) = q.filter {
        law_subqueries_are_found_anywhere(e@);
    }
    if let Some(e) = q.having {
        law_subqueries_are_found_anywhere(e@);
    }
    let by = trees(q.group_by@);
    lemma_trees(q.group_by@);
    lemma_all_plain(by);
    assert forall|i: int| 0 <= i < by.len() implies plain(#[trigger] by[i]) == !asks_another(
        q.group_by@[i]@,
    ) by {
        law_subqueries_are_found_anywhere(by[i]);
    }
    if exists|i: int| 0 <= i < q.group_by@.len() && asks_another((#[trigger] q.group_by@[i])@) {
        let i = choose|i: int|
            0 <= i < q.group_by@.len() && asks_another((#[trigger] q.group_by@[i])@);
        assert(!plain(by[i]));
    }
    if !all_plain(by) {
        let i = choose|i: int| 0 <= i < by.len() && !plain(#[trigger] by[i]);
        assert(asks_another(q.group_by@[i]@));
    }
    assert(clauses_plain(q) <==> !clause_asks_another(q));
}

} // verus!
