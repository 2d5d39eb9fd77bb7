//! SELECT over rows: grouping, joining, and the tail that every query shares.

use vstd::prelude::*;

use crate::db::ast::{lemma_trees, trees, Expr, ExprView};
use crate::db::exec::{
    all_values, ask, copy_keyed, eval_all, group_rows_out, keyed_rows, keyed_views,
    lemma_groups_err, make_group_row, null_row, opt_tree, passes, row_passes, row_views,
    steady_eval, steady_floats, value_of, Cols, ExecError, Keyed, Row,
};
use crate::db::joins::{
    equijoin, expr_views, extract_equijoin, schemas, JoinKind, PlanStep, StepView,
};
use crate::db::keyed::{
    distinct_rows, find_partners, firsts, group_keys, groups_of, key_views, lemma_matching,
    matching, partners, rows_of, slot_views, KeyView, OrdKey,
};
use crate::db::plan::{sch_view, Sch};
use crate::types::{copy_values, views, Value, ValueView};

verus! {

// ---- grouping ----

/// The rows that pass, or the first error.
pub open spec fn filtered<E: Fn(&Expr, &Sch, &Row) -> Result<Keyed, ExecError>>(
    f: E,
    pred: Option<ExprView>,
    s: Cols,
    rows: Seq<Seq<ValueView>>,
) -> Result<Seq<Seq<ValueView>>, Seq<char>>
    decreases rows.len(),
{
    if rows.len() == 0 {
        Ok(Seq::empty())
    } else {
        match filtered(f, pred, s, rows.drop_last()) {
            Err(x) => Err(x),
            Ok(kept) => match passes(f, pred, s, rows.last()) {
                Err(x) => Err(x),
                Ok(true) => Ok(kept.push(rows.last())),
                Ok(false) => Ok(kept),
            },
        }
    }
}

proof fn lemma_filtered_err<E: Fn(&Expr, &Sch, &Row) -> Result<Keyed, ExecError>>(
    f: E,
    pred: Option<ExprView>,
    s: Cols,
    rows: Seq<Seq<ValueView>>,
    i: int,
)
    requires
        0 <= i <= rows.len(),
        filtered(f, pred, s, rows.take(i)) is Err,
    ensures
        filtered(f, pred, s, rows) == filtered(f, pred, s, rows.take(i)),
    decreases rows.len(),
{
    if i == rows.len() {
        assert(rows.take(i) =~= rows);
    } else {
        assert(rows.drop_last().take(i) =~= rows.take(i));
        lemma_filtered_err(f, pred, s, rows.drop_last(), i);
    }
}

fn filter_rows<E: Fn(&Expr, &Sch, &Row) -> Result<Keyed, ExecError>>(
    f: &E,
    pred: &Option<Expr>,
    s: &Sch,
    rows: &Vec<Row>,
) -> (o: Result<Vec<Row>, ExecError>)
    requires
        steady_eval(*f),
    ensures
        ({
            let r = filtered(*f, opt_tree(*pred), sch_view(s@), row_views(rows@));
            match o {
                Ok(v) => r == Ok::<_, Seq<char>>(row_views(v@)),
                Err(x) => r == Err::<Seq<Seq<ValueView>>, _>(x.text@),
            }
        }),
{
    let ghost p = opt_tree(*pred);
    let ghost c = sch_view(s@);
    let ghost rv = row_views(rows@);
    let mut out: Vec<Row> = Vec::new();
    let mut i: usize = 0;
    proof {
        assert(rv.take(0) =~= Seq::empty());
        assert(row_views(out@) =~= Seq::empty());
    }
    while i < rows.len()
        invariant
            i <= rows@.len(),
            steady_eval(*f),
            p == opt_tree(*pred),
            c == sch_view(s@),
            rv == row_views(rows@),
            filtered(*f, p, c, rv.take(i as int)) == Ok::<_, Seq<char>>(row_views(out@)),
        decreases rows@.len() - i,
    {
        proof {
            assert(rv.take(i + 1).drop_last() =~= rv.take(i as int));
            assert(rv.take(i + 1).last() == views(rows@[i as int]@));
        }
        match row_passes(f, pred, s, &rows[i]) {
            Ok(keep) => {
                if keep {
                    let ghost was = out@;
                    let r: Row = copy_values(&rows[i]);
                    out.push(r);
                    assert(row_views(out@) =~= row_views(was).push(views(r@)));
                }
            },
            Err(x) => {
                proof {
                    lemma_filtered_err(*f, p, c, rv, i + 1);
                }
                return Err(x);
            },
        }
        i = i + 1;
    }
    assert(rv.take(i as int) =~= rv);
    Ok(out)
}

pub open spec fn keys_in(vs: Seq<(ValueView, KeyView)>) -> Seq<KeyView> {
    vs.map_values(|v: (ValueView, KeyView)| v.1)
}

/// The keys of several expressions on each row, or the first error.
pub open spec fn key_rows<E: Fn(&Expr, &Sch, &Row) -> Result<Keyed, ExecError>>(
    f: E,
    es: Seq<ExprView>,
    s: Cols,
    rows: Seq<Seq<ValueView>>,
) -> Result<Seq<Seq<KeyView>>, Seq<char>>
    decreases rows.len(),
{
    if rows.len() == 0 {
        Ok(Seq::empty())
    } else {
        match key_rows(f, es, s, rows.drop_last()) {
            Err(x) => Err(x),
            Ok(ks) => match all_values(f, es, s, rows.last()) {
                Err(x) => Err(x),
                Ok(vs) => Ok(ks.push(keys_in(vs))),
            },
        }
    }
}

proof fn lemma_key_rows_err<E: Fn(&Expr, &Sch, &Row) -> Result<Keyed, ExecError>>(
    f: E,
    es: Seq<ExprView>,
    s: Cols,
    rows: Seq<Seq<ValueView>>,
    i: int,
)
    requires
        0 <= i <= rows.len(),
        key_rows(f, es, s, rows.take(i)) is Err,
    ensures
        key_rows(f, es, s, rows) == key_rows(f, es, s, rows.take(i)),
    decreases rows.len(),
{
    if i == rows.len() {
        assert(rows.take(i) =~= rows);
    } else {
        assert(rows.drop_last().take(i) =~= rows.take(i));
        lemma_key_rows_err(f, es, s, rows.drop_last(), i);
    }
}

/// The keys of a row of values.
fn take_keys(vs: &Vec<Keyed>) -> (r: Vec<OrdKey>)
    ensures
        key_views(r@) == keys_in(keyed_views(vs@)),
{
    let ghost kv = keyed_views(vs@);
    let mut r: Vec<OrdKey> = Vec::new();
    let mut i: usize = 0;
    while i < vs.len()
        invariant
            i <= vs@.len(),
            kv == keyed_views(vs@),
            key_views(r@) == keys_in(kv).take(i as int),
        decreases vs@.len() - i,
    {
        let ghost was = r@;
        let k: OrdKey = copy_keyed(&vs[i]).key;
        r.push(k);
        proof {
            assert(key_views(r@) =~= key_views(was).push(k@));
            assert(keys_in(kv).take(i + 1) =~= keys_in(kv).take(i as int).push(kv[i as int].1));
        }
        i = i + 1;
    }
    assert(keys_in(kv).take(i as int) =~= keys_in(kv));
    r
}

fn eval_keys<E: Fn(&Expr, &Sch, &Row) -> Result<Keyed, ExecError>>(
    f: &E,
    es: &Vec<Expr>,
    s: &Sch,
    rows: &Vec<Row>,
) -> (o: Result<Vec<Vec<OrdKey>>, ExecError>)
    requires
        steady_eval(*f),
    ensures
        ({
            let r = key_rows(*f, trees(es@), sch_view(s@), row_views(rows@));
            match o {
                Ok(v) => r == Ok::<_, Seq<char>>(rows_of(v@)) && v@.len() == rows@.len(),
                Err(x) => r == Err::<Seq<Seq<KeyView>>, _>(x.text@),
            }
        }),
{
    let ghost ts = trees(es@);
    let ghost c = sch_view(s@);
    let ghost rv = row_views(rows@);
    let mut out: Vec<Vec<OrdKey>> = Vec::new();
    let mut i: usize = 0;
    proof {
        assert(rv.take(0) =~= Seq::empty());
        assert(rows_of(out@) =~= Seq::empty());
    }
    while i < rows.len()
        invariant
            i <= rows@.len(),
            steady_eval(*f),
            ts == trees(es@),
            c == sch_view(s@),
            rv == row_views(rows@),
            out@.len() == i,
            key_rows(*f, ts, c, rv.take(i as int)) == Ok::<_, Seq<char>>(rows_of(out@)),
        decreases rows@.len() - i,
    {
        proof {
            assert(rv.take(i + 1).drop_last() =~= rv.take(i as int));
            assert(rv.take(i + 1).last() == views(rows@[i as int]@));
        }
        match eval_all(f, es, s, &rows[i]) {
            Ok(vs) => {
                let ghost was = out@;
                let k: Vec<OrdKey> = take_keys(&vs);
                out.push(k);
                assert(rows_of(out@) =~= rows_of(was).push(key_views(k@)));
            },
            Err(x) => {
                proof {
                    lemma_key_rows_err(*f, ts, c, rv, i + 1);
                }
                return Err(x);
            },
        }
        i = i + 1;
    }
    assert(rv.take(i as int) =~= rv);
    Ok(out)
}

/// The rows with the given numbers.
pub open spec fn pick<T>(rows: Seq<T>, at: Seq<usize>) -> Seq<T> {
    at.map_values(|i: usize| rows[i as int])
}

fn pick_rows(rows: &Vec<Row>, at: &Vec<usize>) -> (r: Vec<Row>)
    requires
        forall|i: int| 0 <= i < at@.len() ==> (#[trigger] at@[i]) < rows@.len(),
    ensures
        row_views(r@) == pick(row_views(rows@), at@),
{
    let ghost rv = row_views(rows@);
    let mut r: Vec<Row> = Vec::new();
    let mut i: usize = 0;
    while i < at.len()
        invariant
            i <= at@.len(),
            rv == row_views(rows@),
            forall|i: int| 0 <= i < at@.len() ==> (#[trigger] at@[i]) < rows@.len(),
            row_views(r@) == pick(rv, at@).take(i as int),
        decreases at@.len() - i,
    {
        let ghost was = r@;
        let x: Row = copy_values(&rows[at[i]]);
        r.push(x);
        proof {
            assert(row_views(r@) =~= row_views(was).push(views(x@)));
            assert(pick(rv, at@).take(i + 1) =~= pick(rv, at@).take(i as int).push(
                rv[at@[i as int] as int],
            ));
        }
        i = i + 1;
    }
    assert(pick(rv, at@).take(i as int) =~= pick(rv, at@));
    r
}

/// The rows grouped by the GROUP BY values, groups in the order of their first rows.
/// Without GROUP BY there is one group of all rows.
pub open spec fn grouped<E: Fn(&Expr, &Sch, &Row) -> Result<Keyed, ExecError>>(
    f: E,
    by: Seq<ExprView>,
    s: Cols,
    rows: Seq<Seq<ValueView>>,
) -> Result<Seq<Seq<Seq<ValueView>>>, Seq<char>> {
    if by.len() == 0 {
        Ok(seq![rows])
    } else {
        match key_rows(f, by, s, rows) {
            Err(x) => Err(x),
            Ok(ks) => Ok(groups_of(ks).map_values(|g: Seq<usize>| pick(rows, g))),
        }
    }
}

pub open spec fn group_views(gs: Seq<Vec<Row>>) -> Seq<Seq<Seq<ValueView>>> {
    gs.map_values(|g: Vec<Row>| row_views(g@))
}

fn copy_rows(rows: &Vec<Row>) -> (r: Vec<Row>)
    ensures
        row_views(r@) == row_views(rows@),
{
    let ghost rv = row_views(rows@);
    let mut r: Vec<Row> = Vec::new();
    let mut i: usize = 0;
    while i < rows.len()
        invariant
            i <= rows@.len(),
            rv == row_views(rows@),
            row_views(r@) == rv.take(i as int),
        decreases rows@.len() - i,
    {
        let ghost was = r@;
        let x: Row = copy_values(&rows[i]);
        r.push(x);
        proof {
            assert(row_views(r@) =~= row_views(was).push(views(x@)));
            assert(rv.take(i + 1) =~= rv.take(i as int).push(rv[i as int]));
        }
        i = i + 1;
    }
    assert(rv.take(i as int) =~= rv);
    r
}

pub fn group_rows<E: Fn(&Expr, &Sch, &Row) -> Result<Keyed, ExecError>>(
    f: &E,
    by: &Vec<Expr>,
    s: &Sch,
    rows: &Vec<Row>,
) -> (o: Result<Vec<Vec<Row>>, ExecError>)
    requires
        steady_eval(*f),
    ensures
        ({
            let r = grouped(*f, trees(by@), sch_view(s@), row_views(rows@));
            match o {
                Ok(v) => r == Ok::<_, Seq<char>>(group_views(v@)),
                Err(x) => r == Err::<Seq<Seq<Seq<ValueView>>>, _>(x.text@),
            }
        }),
{
    proof {
        lemma_trees(by@);
    }
    let ghost rv = row_views(rows@);
    let mut out: Vec<Vec<Row>> = Vec::new();
    if by.len() == 0 {
        let all: Vec<Row> = copy_rows(rows);
        out.push(all);
        assert(group_views(out@) =~= seq![rv]);
        return Ok(out);
    }
    let keys: Vec<Vec<OrdKey>> = match eval_keys(f, by, s, rows) {
        Ok(k) => k,
        Err(x) => {
            return Err(x);
        },
    };
    let ghost kv = rows_of(keys@);
    let groups: Vec<Vec<usize>> = group_keys(&keys);
    let n: usize = rows.len();
    let ghost g = |x: Seq<usize>| pick(rv, x);
    let ghost gs = groups_of(kv);
    let mut i: usize = 0;
    assert(group_views(out@) =~= gs.map_values(g).take(0));
    while i < groups.len()
        invariant
            i <= groups@.len(),
            rv == row_views(rows@),
            kv == rows_of(keys@),
            kv.len() == n == rows@.len(),
            slot_views(groups@) == gs,
            gs == groups_of(kv),
            g == (|x: Seq<usize>| pick(rv, x)),
            group_views(out@) == gs.map_values(g).take(i as int),
        decreases groups@.len() - i,
    {
        proof {
            let at = firsts(kv)[i as int];
            assert(gs[i as int] == matching(kv, kv[at as int]));
            assert(slot_views(groups@)[i as int] == groups@[i as int]@);
            lemma_matching(kv, kv[at as int]);
        }
        let ghost was = out@;
        let part: Vec<Row> = pick_rows(rows, &groups[i]);
        out.push(part);
        proof {
            assert(group_views(out@) =~= group_views(was).push(row_views(part@)));
            assert(gs.map_values(g).take(i + 1) =~= gs.map_values(g).take(i as int).push(
                g(gs[i as int]),
            ));
        }
        i = i + 1;
    }
    assert(gs.map_values(g).take(i as int) =~= gs.map_values(g));
    Ok(out)
}

/// What an aggregated query gives before its tail.
pub open spec fn aggregated<
    E: Fn(&Expr, &Sch, &Row) -> Result<Keyed, ExecError>,
    A: Fn(bool, &Vec<Value>) -> Value,
>(
    f: E,
    a: A,
    pred: Option<ExprView>,
    by: Seq<ExprView>,
    having: Option<ExprView>,
    es: Seq<ExprView>,
    s: Cols,
    rows: Seq<Seq<ValueView>>,
) -> Result<Seq<Seq<(ValueView, KeyView)>>, Seq<char>> {
    match filtered(f, pred, s, rows) {
        Err(x) => Err(x),
        Ok(kept) => match grouped(f, by, s, kept) {
            Err(x) => Err(x),
            Ok(groups) => group_rows_out(f, a, having, es, s, groups),
        },
    }
}

/// Filter, group, reduce, apply HAVING, and project each surviving group.
pub fn run_aggregate<
    E: Fn(&Expr, &Sch, &Row) -> Result<Keyed, ExecError>,
    A: Fn(bool, &Vec<Value>) -> Value,
>(
    f: &E,
    a: &A,
    pred: &Option<Expr>,
    by: &Vec<Expr>,
    having: &Option<Expr>,
    es: &Vec<Expr>,
    s: &Sch,
    rows: &Vec<Row>,
) -> (o: Result<Vec<Vec<Keyed>>, ExecError>)
    requires
        steady_eval(*f),
        steady_floats(*a),
    ensures
        ({
            let r = aggregated(
                *f,
                *a,
                opt_tree(*pred),
                trees(by@),
                opt_tree(*having),
                trees(es@),
                sch_view(s@),
                row_views(rows@),
            );
            match o {
                Ok(v) => r == Ok::<_, Seq<char>>(keyed_rows(v@)) && forall|i: int|
                    0 <= i < v@.len() ==> (#[trigger] v@[i])@.len() == es@.len(),
                Err(x) => r == Err::<Seq<Seq<(ValueView, KeyView)>>, _>(x.text@),
            }
        }),
{
    let kept: Vec<Row> = match filter_rows(f, pred, s, rows) {
        Ok(v) => v,
        Err(x) => {
            return Err(x);
        },
    };
    let groups: Vec<Vec<Row>> = match group_rows(f, by, s, &kept) {
        Ok(v) => v,
        Err(x) => {
            return Err(x);
        },
    };
    let ghost gs = group_views(groups@);
    let ghost h = opt_tree(*having);
    let ghost ts = trees(es@);
    let ghost c = sch_view(s@);
    let mut out: Vec<Vec<Keyed>> = Vec::new();
    let mut i: usize = 0;
    proof {
        assert(gs.take(0) =~= Seq::empty());
        assert(keyed_rows(out@) =~= Seq::empty());
    }
    while i < groups.len()
        invariant
            i <= groups@.len(),
            steady_eval(*f),
            steady_floats(*a),
            gs == group_views(groups@),
            h == opt_tree(*having),
            ts == trees(es@),
            c == sch_view(s@),
            aggregated(*f, *a, opt_tree(*pred), trees(by@), h, ts, c, row_views(rows@))
                == group_rows_out(*f, *a, h, ts, c, gs),
            forall|i: int| 0 <= i < out@.len() ==> (#[trigger] out@[i])@.len() == es@.len(),
            group_rows_out(*f, *a, h, ts, c, gs.take(i as int)) == Ok::<_, Seq<char>>(
                keyed_rows(out@),
            ),
        decreases groups@.len() - i,
    {
        proof {
            assert(gs.take(i + 1).drop_last() =~= gs.take(i as int));
            assert(gs.take(i + 1).last() == row_views(groups@[i as int]@));
        }
        match make_group_row(f, a, having, es, s, &groups[i]) {
            Ok(Some(r)) => {
                let ghost was = out@;
                out.push(r);
                assert(keyed_rows(out@) =~= keyed_rows(was).push(keyed_views(r@)));
            },
            Ok(None) => {},
            Err(x) => {
                proof {
                    lemma_groups_err(*f, *a, h, ts, c, gs, i + 1);
                }
                return Err(x);
            },
        }
        i = i + 1;
    }
    assert(gs.take(i as int) =~= gs);
    Ok(out)
}

// ---- joining ----

/// The rows that one left row joins to: one for each partner; for a left join
/// without a partner, one filled up with nulls.
pub open spec fn joined_row(
    kind: JoinKind,
    left: Seq<ValueView>,
    at: Seq<usize>,
    right: Seq<Seq<ValueView>>,
    width: nat,
) -> Seq<Seq<ValueView>> {
    if at.len() > 0 {
        at.map_values(|j: usize| left + right[j as int])
    } else if kind is Left {
        seq![left + Seq::new(width, |i: int| ValueView::Null)]
    } else {
        Seq::empty()
    }
}

/// All joined rows, left row by left row.
pub open spec fn joined_rows(
    kind: JoinKind,
    left: Seq<Seq<ValueView>>,
    ats: Seq<Seq<usize>>,
    right: Seq<Seq<ValueView>>,
    width: nat,
) -> Seq<Seq<ValueView>>
    decreases left.len(),
{
    if left.len() == 0 {
        Seq::empty()
    } else {
        joined_rows(kind, left.drop_last(), ats.drop_last(), right, width) + joined_row(
            kind,
            left.last(),
            ats.last(),
            right,
            width,
        )
    }
}

/// The join of two tables on equal keys. NULL keys never match. Where a key has no
/// value there is no join.
pub open spec fn hash_joined<E: Fn(&Expr, &Sch, &Row) -> Result<Keyed, ExecError>>(
    f: E,
    kind: JoinKind,
    ls: Cols,
    lrows: Seq<Seq<ValueView>>,
    lkey: ExprView,
    rs: Cols,
    rrows: Seq<Seq<ValueView>>,
    rkey: ExprView,
) -> Option<Seq<Seq<ValueView>>> {
    match (key_rows(f, seq![lkey], ls, lrows), key_rows(f, seq![rkey], rs, rrows)) {
        (Ok(lk), Ok(rk)) => Some(
            joined_rows(
                kind,
                lrows,
                lk.map_values(|k: Seq<KeyView>| partners(k, rk)),
                rrows,
                rs.len(),
            ),
        ),
        _ => None,
    }
}

fn concat_rows(left: &Row, right: &Row) -> (r: Row)
    ensures
        views(r@) == views(left@) + views(right@),
{
    let mut r: Row = copy_values(left);
    let mut more: Row = copy_values(right);
    let ghost a = r@;
    let ghost b = more@;
    r.append(&mut more);
    assert(views(r@) =~= views(a) + views(b));
    r
}

fn join_one(
    kind: JoinKind,
    left: &Row,
    at: &Vec<usize>,
    right: &Vec<Row>,
    width: usize,
    out: &mut Vec<Row>,
)
    requires
        forall|i: int| 0 <= i < at@.len() ==> (#[trigger] at@[i]) < right@.len(),
    ensures
        row_views(final(out)@) == row_views(old(out)@) + joined_row(
            kind,
            views(left@),
            at@,
            row_views(right@),
            width as nat,
        ),
{
    let ghost rv = row_views(right@);
    let ghost lv = views(left@);
    let ghost start = row_views(out@);
    let ghost g = |j: usize| lv + rv[j as int];
    if at.len() == 0 {
        let outer: bool = match kind {
            JoinKind::Left => true,
            _ => false,
        };
        if outer {
            let ghost was = out@;
            let r: Row = concat_rows(left, &null_row(width));
            out.push(r);
            proof {
                assert(row_views(out@) =~= row_views(was).push(views(r@)));
                assert(start + seq![views(r@)] =~= start.push(views(r@)));
            }
        } else {
            assert(start + Seq::<Seq<ValueView>>::empty() =~= start);
        }
        return;
    }
    let mut i: usize = 0;
    assert(start + at@.map_values(g).take(0) =~= start);
    while i < at.len()
        invariant
            i <= at@.len(),
            rv == row_views(right@),
            lv == views(left@),
            g == (|j: usize| lv + rv[j as int]),
            forall|i: int| 0 <= i < at@.len() ==> (#[trigger] at@[i]) < right@.len(),
            row_views(out@) == start + at@.map_values(g).take(i as int),
        decreases at@.len() - i,
    {
        let ghost was = out@;
        let r: Row = concat_rows(left, &right[at[i]]);
        out.push(r);
        proof {
            assert(row_views(out@) =~= row_views(was).push(views(r@)));
            assert(at@.map_values(g).take(i + 1) =~= at@.map_values(g).take(i as int).push(
                g(at@[i as int]),
            ));
            assert(start + at@.map_values(g).take(i + 1) =~= (start + at@.map_values(g).take(
                i as int,
            )).push(views(r@)));
        }
        i = i + 1;
    }
    assert(at@.map_values(g).take(i as int) =~= at@.map_values(g));
}

fn one_expr(e: &Expr) -> (v: Vec<Expr>)
    ensures
        trees(v@) == seq![e@],
{
    let mut v: Vec<Expr> = Vec::new();
    v.push(e.copy());
    proof {
        lemma_trees(v@);
        assert(trees(v@) =~= seq![e@]);
    }
    v
}

/// Join the left rows against the right table on `lkey = rkey`.
pub fn hash_join<E: Fn(&Expr, &Sch, &Row) -> Result<Keyed, ExecError>>(
    f: &E,
    kind: JoinKind,
    lsch: &Sch,
    lrows: &Vec<Row>,
    lkey: &Expr,
    rsch: &Sch,
    rrows: &Vec<Row>,
    rkey: &Expr,
) -> (o: Option<(Sch, Vec<Row>)>)
    requires
        steady_eval(*f),
    ensures
        ({
            let r = hash_joined(
                *f,
                kind,
                sch_view(lsch@),
                row_views(lrows@),
                lkey@,
                sch_view(rsch@),
                row_views(rrows@),
                rkey@,
            );
            match o {
                Some((s, v)) => sch_view(s@) == sch_view(lsch@) + sch_view(rsch@) && r == Some(
                    row_views(v@),
                ),
                None => r is None,
            }
        }),
{
    let ghost rv = row_views(rrows@);
    let ghost lv = row_views(lrows@);
    let rkeys: Vec<Vec<OrdKey>> = match eval_keys(f, &one_expr(rkey), rsch, rrows) {
        Ok(k) => k,
        Err(_) => {
            return None;
        },
    };
    let lkeys: Vec<Vec<OrdKey>> = match eval_keys(f, &one_expr(lkey), lsch, lrows) {
        Ok(k) => k,
        Err(_) => {
            return None;
        },
    };
    let ghost lk = rows_of(lkeys@);
    let ghost rk = rows_of(rkeys@);
    let ghost h = |k: Seq<KeyView>| partners(k, rk);
    let ghost ats = lk.map_values(h);
    let found: Vec<Vec<usize>> = find_partners(&lkeys, &rkeys);
    let width: usize = rsch.len();
    let n: usize = rrows.len();
    let mut out: Vec<Row> = Vec::new();
    let mut i: usize = 0;
    assert(row_views(out@) =~= Seq::empty());
    assert(slot_views(found@).len() == found@.len() && ats.len() == lk.len());
    while i < lrows.len()
        invariant
            i <= lrows@.len(),
            lv == row_views(lrows@),
            rv == row_views(rrows@),
            lk.len() == lrows@.len(),
            rk.len() == rrows@.len() == n,
            width == sch_view(rsch@).len(),
            h == (|k: Seq<KeyView>| partners(k, rk)),
            ats == lk.map_values(h),
            slot_views(found@) == ats,
            found@.len() == lrows@.len(),
            row_views(out@) == joined_rows(
                kind,
                lv.take(i as int),
                ats.take(i as int),
                rv,
                width as nat,
            ),
        decreases lrows@.len() - i,
    {
        proof {
            assert(lv.take(i + 1).drop_last() =~= lv.take(i as int));
            assert(ats.take(i + 1).drop_last() =~= ats.take(i as int));
            assert(lv.take(i + 1).last() == views(lrows@[i as int]@));
            assert(slot_views(found@)[i as int] == found@[i as int]@);
            assert(ats[i as int] == partners(lk[i as int], rk));
            lemma_matching(rk, lk[i as int]);
            assert forall|k: int| 0 <= k < found@[i as int]@.len() implies (
            #[trigger] found@[i as int]@[k]) < rrows@.len() by {
                assert(found@[i as int]@ == matching(rk, lk[i as int]));
            }
        }
        join_one(kind, &lrows[i], &found[i], rrows, width, &mut out);
        i = i + 1;
    }
    proof {
        assert(lv.take(i as int) =~= lv);
        assert(ats.take(i as int) =~= ats);
    }
    let combined: Sch = concat_cols(lsch, rsch);
    Some((combined, out))
}

fn copy_cols(s: &Sch) -> (r: Sch)
    ensures
        sch_view(r@) == sch_view(s@),
{
    let ghost sv = sch_view(s@);
    let mut r: Sch = Vec::new();
    let mut i: usize = 0;
    while i < s.len()
        invariant
            i <= s@.len(),
            sv == sch_view(s@),
            sch_view(r@) == sv.take(i as int),
        decreases s@.len() - i,
    {
        let ghost was = r@;
        let a: String = s[i].0.clone();
        let b: String = s[i].1.clone();
        r.push((a, b));
        proof {
            assert(sch_view(r@) =~= sch_view(was).push((a@, b@)));
            assert(sv.take(i + 1) =~= sv.take(i as int).push(sv[i as int]));
        }
        i = i + 1;
    }
    assert(sv.take(i as int) =~= sv);
    r
}

fn concat_cols(l: &Sch, r: &Sch) -> (s: Sch)
    ensures
        sch_view(s@) == sch_view(l@) + sch_view(r@),
{
    let mut s: Sch = copy_cols(l);
    let mut more: Sch = copy_cols(r);
    let ghost a = s@;
    let ghost b = more@;
    s.append(&mut more);
    assert(sch_view(s@) =~= sch_view(a) + sch_view(b));
    s
}

/// The tables joined as they are written, up to join `n`.
pub open spec fn folded<E: Fn(&Expr, &Sch, &Row) -> Result<Keyed, ExecError>>(
    f: E,
    kinds: Seq<JoinKind>,
    ons: Seq<ExprView>,
    schs: Seq<Cols>,
    tables: Seq<Seq<Seq<ValueView>>>,
    n: int,
) -> Option<(Cols, Seq<Seq<ValueView>>)>
    decreases n,
{
    if n <= 0 {
        Some((schs[0], tables[0]))
    } else {
        match folded(f, kinds, ons, schs, tables, n - 1) {
            None => None,
            Some((c, rows)) => match equijoin(ons[n - 1], c, schs[n]) {
                None => None,
                Some((lk, rk)) => match hash_joined(
                    f,
                    kinds[n - 1],
                    c,
                    rows,
                    lk,
                    schs[n],
                    tables[n],
                    rk,
                ) {
                    None => None,
                    Some(out) => Some((c + schs[n], out)),
                },
            },
        }
    }
}

proof fn lemma_folded_none<E: Fn(&Expr, &Sch, &Row) -> Result<Keyed, ExecError>>(
    f: E,
    kinds: Seq<JoinKind>,
    ons: Seq<ExprView>,
    schs: Seq<Cols>,
    tables: Seq<Seq<Seq<ValueView>>>,
    i: int,
    n: int,
)
    requires
        i <= n,
        folded(f, kinds, ons, schs, tables, i) is None,
    ensures
        folded(f, kinds, ons, schs, tables, n) is None,
    decreases n - i,
{
    if i < n {
        lemma_folded_none(f, kinds, ons, schs, tables, i, n - 1);
    }
}

pub open spec fn joined_view(o: Option<(Sch, Vec<Row>)>) -> Option<(Cols, Seq<Seq<ValueView>>)> {
    match o {
        Some((s, v)) => Some((sch_view(s@), row_views(v@))),
        None => None,
    }
}

/// Join the tables as they are written.
pub fn fold_from_order<E: Fn(&Expr, &Sch, &Row) -> Result<Keyed, ExecError>>(
    f: &E,
    kinds: &Vec<JoinKind>,
    ons: &Vec<Expr>,
    schs: &Vec<Sch>,
    tables: &Vec<Vec<Row>>,
) -> (o: Option<(Sch, Vec<Row>)>)
    requires
        steady_eval(*f),
        kinds@.len() == ons@.len(),
        schs@.len() == ons@.len() + 1,
        tables@.len() == ons@.len() + 1,
    ensures
        joined_view(o) == folded(
            *f,
            kinds@,
            expr_views(ons@),
            schemas(schs@),
            group_views(tables@),
            ons@.len() as int,
        ),
{
    let ghost os = expr_views(ons@);
    let ghost ss = schemas(schs@);
    let ghost ts = group_views(tables@);
    let mut sch: Sch = copy_cols(&schs[0]);
    let mut rows: Vec<Row> = copy_rows(&tables[0]);
    proof {
        assert(ss[0] == sch_view(schs@[0]@));
        assert(ts[0] == row_views(tables@[0]@));
    }
    let mut i: usize = 0;
    while i < ons.len()
        invariant
            i <= ons@.len(),
            steady_eval(*f),
            kinds@.len() == ons@.len(),
            schs@.len() == ons@.len() + 1,
            tables@.len() == ons@.len() + 1,
            os == expr_views(ons@),
            ss == schemas(schs@),
            ts == group_views(tables@),
            folded(*f, kinds@, os, ss, ts, i as int) == Some((sch_view(sch@), row_views(rows@))),
        decreases ons@.len() - i,
    {
        proof {
            assert(os[i as int] == ons@[i as int]@);
            assert(ss[i + 1] == sch_view(schs@[i + 1]@));
            assert(ts[i + 1] == row_views(tables@[i + 1]@));
        }
        let (lkey, rkey): (Expr, Expr) = match extract_equijoin(&ons[i], &sch, &schs[i + 1]) {
            Some(p) => p,
            None => {
                proof {
                    lemma_folded_none(*f, kinds@, os, ss, ts, i + 1, ons@.len() as int);
                }
                return None;
            },
        };
        match hash_join(f, kinds[i], &sch, &rows, &lkey, &schs[i + 1], &tables[i + 1], &rkey) {
            Some((s, r)) => {
                sch = s;
                rows = r;
            },
            None => {
                proof {
                    lemma_folded_none(*f, kinds@, os, ss, ts, i + 1, ons@.len() as int);
                }
                return None;
            },
        }
        i = i + 1;
    }
    Some((sch, rows))
}

/// The rows that satisfy every residual predicate; none where one has no value.
pub open spec fn narrowed<E: Fn(&Expr, &Sch, &Row) -> Result<Keyed, ExecError>>(
    f: E,
    residuals: Seq<ExprView>,
    s: Cols,
    rows: Seq<Seq<ValueView>>,
) -> Option<Seq<Seq<ValueView>>>
    decreases residuals.len(),
{
    if residuals.len() == 0 {
        Some(rows)
    } else {
        match narrowed(f, residuals.drop_last(), s, rows) {
            None => None,
            Some(kept) => match filtered(f, Some(residuals.last()), s, kept) {
                Ok(out) => Some(out),
                Err(_) => None,
            },
        }
    }
}

proof fn lemma_narrowed_none<E: Fn(&Expr, &Sch, &Row) -> Result<Keyed, ExecError>>(
    f: E,
    residuals: Seq<ExprView>,
    s: Cols,
    rows: Seq<Seq<ValueView>>,
    i: int,
)
    requires
        0 <= i <= residuals.len(),
        narrowed(f, residuals.take(i), s, rows) is None,
    ensures
        narrowed(f, residuals, s, rows) is None,
    decreases residuals.len(),
{
    if i == residuals.len() {
        assert(residuals.take(i) =~= residuals);
    } else {
        assert(residuals.drop_last().take(i) =~= residuals.take(i));
        lemma_narrowed_none(f, residuals.drop_last(), s, rows, i);
    }
}

fn narrow<E: Fn(&Expr, &Sch, &Row) -> Result<Keyed, ExecError>>(
    f: &E,
    residuals: &Vec<Expr>,
    s: &Sch,
    rows: Vec<Row>,
) -> (o: Option<Vec<Row>>)
    requires
        steady_eval(*f),
    ensures
        ({
            let r = narrowed(*f, expr_views(residuals@), sch_view(s@), row_views(rows@));
            match o {
                Some(v) => r == Some(row_views(v@)),
                None => r is None,
            }
        }),
{
    let ghost rs = expr_views(residuals@);
    let ghost c = sch_view(s@);
    let ghost start = row_views(rows@);
    let mut kept: Vec<Row> = rows;
    let mut i: usize = 0;
    assert(rs.take(0) =~= Seq::empty());
    while i < residuals.len()
        invariant
            i <= residuals@.len(),
            steady_eval(*f),
            rs == expr_views(residuals@),
            c == sch_view(s@),
            start == row_views(rows@),
            narrowed(*f, rs.take(i as int), c, start) == Some(row_views(kept@)),
        decreases residuals@.len() - i,
    {
        proof {
            assert(rs.take(i + 1).drop_last() =~= rs.take(i as int));
            assert(rs.take(i + 1).last() == residuals@[i as int]@);
        }
        let pred: Option<Expr> = Some(residuals[i].copy());
        match filter_rows(f, &pred, s, &kept) {
            Ok(v) => {
                kept = v;
            },
            Err(_) => {
                proof {
                    lemma_narrowed_none(*f, rs, c, start, i + 1);
                }
                return None;
            },
        }
        i = i + 1;
    }
    assert(rs.take(i as int) =~= rs);
    Some(kept)
}

/// The tables joined in the order of a plan, up to step `n`.
pub open spec fn refolded<E: Fn(&Expr, &Sch, &Row) -> Result<Keyed, ExecError>>(
    f: E,
    steps: Seq<StepView>,
    schs: Seq<Cols>,
    tables: Seq<Seq<Seq<ValueView>>>,
    n: int,
) -> Option<(Cols, Seq<Seq<ValueView>>)>
    decreases n,
{
    if n <= 0 {
        Some((schs[steps[0].table as int], tables[steps[0].table as int]))
    } else {
        let st = steps[n];
        let t = st.table as int;
        match refolded(f, steps, schs, tables, n - 1) {
            None => None,
            Some((c, rows)) => match hash_joined(
                f,
                JoinKind::Inner,
                c,
                rows,
                (st.key->0).0,
                schs[t],
                tables[t],
                (st.key->0).1,
            ) {
                None => None,
                Some(out) => match narrowed(f, st.residuals, c + schs[t], out) {
                    None => None,
                    Some(kept) => Some((c + schs[t], kept)),
                },
            },
        }
    }
}

proof fn lemma_refolded_none<E: Fn(&Expr, &Sch, &Row) -> Result<Keyed, ExecError>>(
    f: E,
    steps: Seq<StepView>,
    schs: Seq<Cols>,
    tables: Seq<Seq<Seq<ValueView>>>,
    i: int,
    n: int,
)
    requires
        i <= n,
        refolded(f, steps, schs, tables, i) is None,
    ensures
        refolded(f, steps, schs, tables, n) is None,
    decreases n - i,
{
    if i < n {
        lemma_refolded_none(f, steps, schs, tables, i, n - 1);
    }
}

pub open spec fn step_views(ss: Seq<PlanStep>) -> Seq<StepView> {
    ss.map_values(|s: PlanStep| s@)
}

/// Join the tables in the order of a plan, all inner, with residual predicates
/// applied after each join.
pub fn fold_reordered<E: Fn(&Expr, &Sch, &Row) -> Result<Keyed, ExecError>>(
    f: &E,
    steps: &Vec<PlanStep>,
    schs: &Vec<Sch>,
    tables: &Vec<Vec<Row>>,
) -> (o: Option<(Sch, Vec<Row>)>)
    requires
        steady_eval(*f),
        steps@.len() > 0,
        schs@.len() == tables@.len(),
        forall|i: int| 0 <= i < steps@.len() ==> (#[trigger] steps@[i]).table < tables@.len(),
        forall|i: int| 1 <= i < steps@.len() ==> (#[trigger] steps@[i]).key is Some,
    ensures
        joined_view(o) == refolded(
            *f,
            step_views(steps@),
            schemas(schs@),
            group_views(tables@),
            steps@.len() - 1,
        ),
{
    let ghost sv = step_views(steps@);
    let ghost ss = schemas(schs@);
    let ghost ts = group_views(tables@);
    let first: usize = steps[0].table;
    let mut sch: Sch = copy_cols(&schs[first]);
    let mut rows: Vec<Row> = copy_rows(&tables[first]);
    proof {
        assert(sv[0] == steps@[0]@);
        assert(ss[first as int] == sch_view(schs@[first as int]@));
        assert(ts[first as int] == row_views(tables@[first as int]@));
    }
    let mut i: usize = 1;
    while i < steps.len()
        invariant
            1 <= i <= steps@.len(),
            steady_eval(*f),
            schs@.len() == tables@.len(),
            forall|i: int| 0 <= i < steps@.len() ==> (#[trigger] steps@[i]).table < tables@.len(),
            forall|i: int| 1 <= i < steps@.len() ==> (#[trigger] steps@[i]).key is Some,
            sv == step_views(steps@),
            ss == schemas(schs@),
            ts == group_views(tables@),
            refolded(*f, sv, ss, ts, i - 1) == Some((sch_view(sch@), row_views(rows@))),
        decreases steps@.len() - i,
    {
        let t: usize = steps[i].table;
        proof {
            assert(sv[i as int] == steps@[i as int]@);
            assert(ss[t as int] == sch_view(schs@[t as int]@));
            assert(ts[t as int] == row_views(tables@[t as int]@));
        }
        let joined: Option<(Sch, Vec<Row>)> = match &steps[i].key {
            Some(p) => hash_join(
                f,
                JoinKind::Inner,
                &sch,
                &rows,
                &p.0,
                &schs[t],
                &tables[t],
                &p.1,
            ),
            None => None,
        };
        let (nsch, nrows): (Sch, Vec<Row>) = match joined {
            Some(p) => p,
            None => {
                proof {
                    lemma_refolded_none(*f, sv, ss, ts, i as int, steps@.len() - 1);
                }
                return None;
            },
        };
        match narrow(f, &steps[i].residuals, &nsch, nrows) {
            Some(v) => {
                rows = v;
            },
            None => {
                proof {
                    lemma_refolded_none(*f, sv, ss, ts, i as int, steps@.len() - 1);
                }
                return None;
            },
        }
        sch = nsch;
        i = i + 1;
    }
    Some((sch, rows))
}

// ---- estimates ----

/// The keys of the rows on which `e` has a value that is not null.
pub open spec fn value_keys<E: Fn(&Expr, &Sch, &Row) -> Result<Keyed, ExecError>>(
    f: E,
    e: ExprView,
    s: Cols,
    rows: Seq<Seq<ValueView>>,
) -> Seq<Seq<KeyView>>
    decreases rows.len(),
{
    if rows.len() == 0 {
        Seq::empty()
    } else {
        let init = value_keys(f, e, s, rows.drop_last());
        match value_of(f, e, s, rows.last()) {
            Ok(v) => if v.0 == ValueView::Null {
                init
            } else {
                init.push(seq![v.1])
            },
            Err(_) => init,
        }
    }
}

/// Distinct non-null values of `key` over `rows`, at least one.
pub fn ndv<E: Fn(&Expr, &Sch, &Row) -> Result<Keyed, ExecError>>(
    f: &E,
    key: &Expr,
    s: &Sch,
    rows: &Vec<Row>,
) -> (n: usize)
    requires
        steady_eval(*f),
    ensures
        ({
            let k = firsts(value_keys(*f, key@, sch_view(s@), row_views(rows@))).len();
            n == if k == 0 {
                1
            } else {
                k as int
            }
        }),
{
    let ghost c = sch_view(s@);
    let ghost rv = row_views(rows@);
    let mut keys: Vec<Vec<OrdKey>> = Vec::new();
    let mut i: usize = 0;
    proof {
        assert(rv.take(0) =~= Seq::empty());
        assert(rows_of(keys@) =~= Seq::empty());
    }
    while i < rows.len()
        invariant
            i <= rows@.len(),
            steady_eval(*f),
            c == sch_view(s@),
            rv == row_views(rows@),
            rows_of(keys@) == value_keys(*f, key@, c, rv.take(i as int)),
        decreases rows@.len() - i,
    {
        proof {
            assert(rv.take(i + 1).drop_last() =~= rv.take(i as int));
            assert(rv.take(i + 1).last() == views(rows@[i as int]@));
        }
        if let Ok(k) = ask(f, key, s, &rows[i]) {
            if !k.value.is_null() {
                let ghost was = keys@;
                let ghost kv = k.key@;
                let mut one: Vec<OrdKey> = Vec::new();
                one.push(k.key);
                assert(key_views(one@) =~= seq![kv]);
                keys.push(one);
                assert(rows_of(keys@) =~= rows_of(was).push(seq![kv]));
            }
        }
        i = i + 1;
    }
    assert(rv.take(i as int) =~= rv);
    let n: usize = distinct_rows(&keys).len();
    if n == 0 {
        1
    } else {
        n
    }
}

} // verus!
