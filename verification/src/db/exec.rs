//! Query execution: filter, projection, aggregation, joins, and the shared tail of
//! distinct, order and limit.
//!
//! Scalar expressions are evaluated by a function that the caller hands in; so are
//! sums and averages of doubles. What is stated here holds for every such function
//! that gives equal answers to equal questions.

use vstd::prelude::*;

use crate::db::ast::{leaf, lemma_trees, trees, AggFunc, Expr, ExprView, Node, NodeView};
use crate::db::keyed::{
    distinct_rows, firsts, key_less, key_lt, key_views, lemma_firsts, rows_of, KeyView, OrdKey,
};
use crate::db::plan::{inner, sch_view, Sch};
use crate::types::{copy_values, views, Value, ValueView};

verus! {

/// A row of values.
pub type Row = Vec<Value>;

/// Why an expression has no value.
#[derive(Debug)]
pub struct ExecError {
    pub text: String,
}

/// A value and the key by which it is ordered and found.
pub struct Keyed {
    pub value: Value,
    pub key: OrdKey,
}

/// What an evaluation gave.
pub type Outcome = Result<(ValueView, KeyView), Seq<char>>;

/// The columns of a row.
pub type Cols = Seq<(Seq<char>, Seq<char>)>;

pub open spec fn outcome(r: Result<Keyed, ExecError>) -> Outcome {
    match r {
        Ok(k) => Ok((k.value@, k.key@)),
        Err(e) => Err(e.text@),
    }
}

pub open spec fn row_views(rows: Seq<Row>) -> Seq<Seq<ValueView>> {
    rows.map_values(|r: Row| views(r@))
}

/// `f` can answer `o` when asked for the value of `e` on a row.
pub open spec fn yields<E: Fn(&Expr, &Sch, &Row) -> Result<Keyed, ExecError>>(
    f: E,
    e: ExprView,
    s: Cols,
    r: Seq<ValueView>,
    o: Outcome,
) -> bool {
    exists|x: Expr, t: Sch, w: Row, out: Result<Keyed, ExecError>|
        x@ == e && sch_view(t@) == s && views(w@) == r && #[trigger] f.ensures((&x, &t, &w), out)
            && outcome(out) == o
}

/// `f` answers every question, and equal questions equally.
pub open spec fn steady_eval<E: Fn(&Expr, &Sch, &Row) -> Result<Keyed, ExecError>>(f: E) -> bool {
    &&& forall|x: Expr, t: Sch, w: Row| #[trigger] f.requires((&x, &t, &w))
    &&& forall|e: ExprView, s: Cols, r: Seq<ValueView>, o: Outcome, p: Outcome|
        #[trigger] yields(f, e, s, r, o) && #[trigger] yields(f, e, s, r, p) ==> o == p
}

/// The answer of `f`.
pub open spec fn value_of<E: Fn(&Expr, &Sch, &Row) -> Result<Keyed, ExecError>>(
    f: E,
    e: ExprView,
    s: Cols,
    r: Seq<ValueView>,
) -> Outcome {
    choose|o: Outcome| yields(f, e, s, r, o)
}

pub(crate) fn ask<E: Fn(&Expr, &Sch, &Row) -> Result<Keyed, ExecError>>(
    f: &E,
    e: &Expr,
    s: &Sch,
    r: &Row,
) -> (o: Result<Keyed, ExecError>)
    requires
        steady_eval(*f),
    ensures
        outcome(o) == value_of(*f, e@, sch_view(s@), views(r@)),
{
    let o: Result<Keyed, ExecError> = f(e, s, r);
    proof {
        let c = sch_view(s@);
        let v = views(r@);
        assert(f.ensures((e, s, r), o));
        assert(yields(*f, e@, c, v, outcome(o)));
        assert(yields(*f, e@, c, v, value_of(*f, e@, c, v)));
    }
    o
}

// ---- filter and projection ----

/// Whether a row passes a filter.
pub open spec fn passes<E: Fn(&Expr, &Sch, &Row) -> Result<Keyed, ExecError>>(
    f: E,
    pred: Option<ExprView>,
    s: Cols,
    r: Seq<ValueView>,
) -> Result<bool, Seq<char>> {
    match pred {
        None => Ok(true),
        Some(p) => match value_of(f, p, s, r) {
            Ok(v) => Ok(v.0 == ValueView::Bool(true)),
            Err(e) => Err(e),
        },
    }
}

/// The values of several expressions on a row, or the first error.
pub open spec fn all_values<E: Fn(&Expr, &Sch, &Row) -> Result<Keyed, ExecError>>(
    f: E,
    es: Seq<ExprView>,
    s: Cols,
    r: Seq<ValueView>,
) -> Result<Seq<(ValueView, KeyView)>, Seq<char>>
    decreases es.len(),
{
    if es.len() == 0 {
        Ok(Seq::empty())
    } else {
        match all_values(f, es.drop_last(), s, r) {
            Ok(vs) => match value_of(f, es.last(), s, r) {
                Ok(v) => Ok(vs.push(v)),
                Err(e) => Err(e),
            },
            Err(e) => Err(e),
        }
    }
}

pub open spec fn keyed_views(ks: Seq<Keyed>) -> Seq<(ValueView, KeyView)> {
    ks.map_values(|k: Keyed| (k.value@, k.key@))
}

pub open spec fn opt_tree(p: Option<Expr>) -> Option<ExprView> {
    match p {
        Some(e) => Some(e@),
        None => None,
    }
}

pub(crate) fn row_passes<E: Fn(&Expr, &Sch, &Row) -> Result<Keyed, ExecError>>(
    f: &E,
    pred: &Option<Expr>,
    s: &Sch,
    r: &Row,
) -> (o: Result<bool, ExecError>)
    requires
        steady_eval(*f),
    ensures
        match o {
            Ok(b) => passes(*f, opt_tree(*pred), sch_view(s@), views(r@)) == Ok::<_, Seq<char>>(b),
            Err(e) => passes(*f, opt_tree(*pred), sch_view(s@), views(r@)) == Err::<bool, _>(
                e.text@,
            ),
        },
{
    match pred {
        None => Ok(true),
        Some(p) => match ask(f, p, s, r) {
            Ok(k) => match k.value {
                Value::Bool(true) => Ok(true),
                _ => Ok(false),
            },
            Err(e) => Err(e),
        },
    }
}

proof fn lemma_all_values_err<E: Fn(&Expr, &Sch, &Row) -> Result<Keyed, ExecError>>(
    f: E,
    es: Seq<ExprView>,
    s: Cols,
    r: Seq<ValueView>,
    i: int,
)
    requires
        0 <= i <= es.len(),
        all_values(f, es.take(i), s, r) is Err,
    ensures
        all_values(f, es, s, r) == all_values(f, es.take(i), s, r),
    decreases es.len(),
{
    if i == es.len() {
        assert(es.take(i) =~= es);
    } else {
        assert(es.drop_last().take(i) =~= es.take(i));
        lemma_all_values_err(f, es.drop_last(), s, r, i);
    }
}

pub(crate) fn eval_all<E: Fn(&Expr, &Sch, &Row) -> Result<Keyed, ExecError>>(
    f: &E,
    es: &Vec<Expr>,
    s: &Sch,
    r: &Row,
) -> (o: Result<Vec<Keyed>, ExecError>)
    requires
        steady_eval(*f),
    ensures
        match o {
            Ok(v) => all_values(*f, trees(es@), sch_view(s@), views(r@)) == Ok::<_, Seq<char>>(
                keyed_views(v@),
            ),
            Err(e) => all_values(*f, trees(es@), sch_view(s@), views(r@)) == Err::<
                Seq<(ValueView, KeyView)>,
                _,
            >(e.text@),
        },
        o matches Ok(v) ==> v@.len() == es@.len(),
{
    let ghost ts = trees(es@);
    let ghost c = sch_view(s@);
    let ghost w = views(r@);
    let mut out: Vec<Keyed> = Vec::new();
    let mut i: usize = 0;
    proof {
        lemma_trees(es@);
        assert(keyed_views(out@) =~= Seq::empty());
        assert(ts.take(0) =~= Seq::empty());
    }
    while i < es.len()
        invariant
            i <= es@.len() == ts.len(),
            steady_eval(*f),
            ts == trees(es@),
            c == sch_view(s@),
            w == views(r@),
            forall|j: int| 0 <= j < es@.len() ==> #[trigger] ts[j] == es@[j]@,
            out@.len() == i,
            all_values(*f, ts.take(i as int), c, w) == Ok::<_, Seq<char>>(keyed_views(out@)),
        decreases es@.len() - i,
    {
        proof {
            assert(ts.take(i + 1).drop_last() =~= ts.take(i as int));
            assert(ts.take(i + 1).last() == es@[i as int]@);
        }
        match ask(f, &es[i], s, r) {
            Ok(k) => {
                let ghost was = out@;
                out.push(k);
                assert(keyed_views(out@) =~= keyed_views(was).push((k.value@, k.key@)));
            },
            Err(e) => {
                proof {
                    lemma_all_values_err(*f, ts, c, w, i + 1);
                }
                return Err(e);
            },
        }
        i = i + 1;
    }
    assert(ts.take(i as int) =~= ts);
    Ok(out)
}

/// What filtering and projecting gives: row after row, until `want` rows are there
/// (all of them where `want` is negative), or the first error.
pub open spec fn streamed<E: Fn(&Expr, &Sch, &Row) -> Result<Keyed, ExecError>>(
    f: E,
    pred: Option<ExprView>,
    es: Seq<ExprView>,
    s: Cols,
    rows: Seq<Seq<ValueView>>,
    want: int,
) -> Result<Seq<Seq<(ValueView, KeyView)>>, Seq<char>>
    decreases rows.len(),
{
    if rows.len() == 0 || want == 0 {
        Ok(Seq::empty())
    } else {
        let rest = rows.drop_first();
        match passes(f, pred, s, rows[0]) {
            Err(e) => Err(e),
            Ok(false) => streamed(f, pred, es, s, rest, want),
            Ok(true) => match all_values(f, es, s, rows[0]) {
                Err(e) => Err(e),
                Ok(vs) => match streamed(f, pred, es, s, rest, want - 1) {
                    Err(e) => Err(e),
                    Ok(more) => Ok(seq![vs] + more),
                },
            },
        }
    }
}

/// What is there, with what still comes behind it.
pub open spec fn behind<T>(done: Seq<T>, rest: Result<Seq<T>, Seq<char>>) -> Result<
    Seq<T>,
    Seq<char>,
> {
    match rest {
        Ok(more) => Ok(done + more),
        Err(e) => Err(e),
    }
}

pub open spec fn keyed_rows(rs: Seq<Vec<Keyed>>) -> Seq<Seq<(ValueView, KeyView)>> {
    rs.map_values(|r: Vec<Keyed>| keyed_views(r@))
}

/// Filter and project.
pub fn stream<E: Fn(&Expr, &Sch, &Row) -> Result<Keyed, ExecError>>(
    f: &E,
    pred: &Option<Expr>,
    es: &Vec<Expr>,
    s: &Sch,
    rows: &Vec<Row>,
    want: Option<usize>,
) -> (o: Result<Vec<Vec<Keyed>>, ExecError>)
    requires
        steady_eval(*f),
    ensures
        ({
            let r = streamed(
                *f,
                opt_tree(*pred),
                trees(es@),
                sch_view(s@),
                row_views(rows@),
                match want {
                    Some(n) => n as int,
                    None => -1,
                },
            );
            match o {
                Ok(v) => r == Ok::<_, Seq<char>>(keyed_rows(v@)) && forall|i: int|
                    0 <= i < v@.len() ==> (#[trigger] v@[i])@.len() == es@.len(),
                Err(e) => r == Err::<Seq<Seq<(ValueView, KeyView)>>, _>(e.text@),
            }
        }),
{
    let ghost p = opt_tree(*pred);
    let ghost ts = trees(es@);
    let ghost c = sch_view(s@);
    let ghost rv = row_views(rows@);
    let ghost total = match want {
        Some(n) => n as int,
        None => -1int,
    };
    let ghost all = streamed(*f, p, ts, c, rv, total);
    let mut out: Vec<Vec<Keyed>> = Vec::new();
    let mut left: Option<usize> = want;
    let mut i: usize = 0;
    proof {
        assert(rv.skip(0) =~= rv);
        assert(keyed_rows(out@) =~= Seq::empty());
        match all {
            Ok(x) => {
                assert(Seq::empty() + x =~= x);
            },
            Err(_) => {},
        }
    }
    let ghost mut w = total;
    loop
        invariant
            i <= rows@.len(),
            steady_eval(*f),
            p == opt_tree(*pred),
            ts == trees(es@),
            c == sch_view(s@),
            rv == row_views(rows@),
            total == (match want {
                Some(n) => n as int,
                None => -1int,
            }),
            all == streamed(*f, p, ts, c, rv, total),
            match left {
                Some(n) => w == n,
                None => w < 0,
            },
            behind(keyed_rows(out@), streamed(*f, p, ts, c, rv.skip(i as int), w)) == all,
            forall|k: int| 0 <= k < out@.len() ==> (#[trigger] out@[k])@.len() == es@.len(),
        ensures
            all == Ok::<_, Seq<char>>(keyed_rows(out@)),
            forall|k: int| 0 <= k < out@.len() ==> (#[trigger] out@[k])@.len() == es@.len(),
        decreases rows@.len() - i,
    {
        let done: bool = match left {
            Some(n) => n == 0,
            None => false,
        };
        if done || i >= rows.len() {
            assert(keyed_rows(out@) + Seq::<Seq<(ValueView, KeyView)>>::empty() =~= keyed_rows(
                out@,
            ));
            break;
        }
        proof {
            assert(rv.skip(i as int)[0] == views(rows@[i as int]@));
            assert(rv.skip(i as int).drop_first() =~= rv.skip(i + 1));
        }
        let keep: bool = match row_passes(f, pred, s, &rows[i]) {
            Ok(b) => b,
            Err(e) => {
                return Err(e);
            },
        };
        if keep {
            let vs: Vec<Keyed> = match eval_all(f, es, s, &rows[i]) {
                Ok(v) => v,
                Err(e) => {
                    return Err(e);
                },
            };
            let ghost was = out@;
            out.push(vs);
            left = match left {
                Some(n) => Some(n - 1),
                None => None,
            };
            proof {
                let k = keyed_views(vs@);
                assert(keyed_rows(out@) =~= keyed_rows(was).push(k));
                match streamed(*f, p, ts, c, rv.skip(i + 1), w - 1) {
                    Ok(more) => {
                        assert(keyed_rows(was) + (seq![k] + more) =~= keyed_rows(was).push(k)
                            + more);
                    },
                    Err(_) => {},
                }
                w = w - 1;
            }
        }
        i = i + 1;
    }
    Ok(out)
}

// ---- aggregates ----

/// `a` can answer `v` when asked to add up `vs`, or for their average.
pub open spec fn floats_yield<A: Fn(bool, &Vec<Value>) -> Value>(
    a: A,
    avg: bool,
    vs: Seq<ValueView>,
    v: ValueView,
) -> bool {
    exists|x: Vec<Value>, out: Value|
        views(x@) == vs && #[trigger] a.ensures((avg, &x), out) && out@ == v
}

pub open spec fn steady_floats<A: Fn(bool, &Vec<Value>) -> Value>(a: A) -> bool {
    &&& forall|avg: bool, x: Vec<Value>| #[trigger] a.requires((avg, &x))
    &&& forall|avg: bool, vs: Seq<ValueView>, v: ValueView, w: ValueView|
        #[trigger] floats_yield(a, avg, vs, v) && #[trigger] floats_yield(a, avg, vs, w) ==> v == w
}

/// The sum of `vs` as a double, or their average.
pub open spec fn float_of<A: Fn(bool, &Vec<Value>) -> Value>(
    a: A,
    avg: bool,
    vs: Seq<ValueView>,
) -> ValueView {
    choose|v: ValueView| floats_yield(a, avg, vs, v)
}

fn add_floats<A: Fn(bool, &Vec<Value>) -> Value>(a: &A, avg: bool, vs: &Vec<Value>) -> (v: Value)
    requires
        steady_floats(*a),
    ensures
        v@ == float_of(*a, avg, views(vs@)),
{
    let v: Value = a(avg, vs);
    proof {
        assert(a.ensures((avg, vs), v));
        assert(floats_yield(*a, avg, views(vs@), v@));
        assert(floats_yield(*a, avg, views(vs@), float_of(*a, avg, views(vs@))));
    }
    v
}

/// The answers on each row, or the first error.
pub open spec fn column_of<E: Fn(&Expr, &Sch, &Row) -> Result<Keyed, ExecError>>(
    f: E,
    e: ExprView,
    s: Cols,
    rows: Seq<Seq<ValueView>>,
) -> Result<Seq<(ValueView, KeyView)>, Seq<char>>
    decreases rows.len(),
{
    if rows.len() == 0 {
        Ok(Seq::empty())
    } else {
        match column_of(f, e, s, rows.drop_last()) {
            Ok(vs) => match value_of(f, e, s, rows.last()) {
                Ok(v) => Ok(vs.push(v)),
                Err(x) => Err(x),
            },
            Err(x) => Err(x),
        }
    }
}

proof fn lemma_column_err<E: Fn(&Expr, &Sch, &Row) -> Result<Keyed, ExecError>>(
    f: E,
    e: ExprView,
    s: Cols,
    rows: Seq<Seq<ValueView>>,
    i: int,
)
    requires
        0 <= i <= rows.len(),
        column_of(f, e, s, rows.take(i)) is Err,
    ensures
        column_of(f, e, s, rows) == column_of(f, e, s, rows.take(i)),
    decreases rows.len(),
{
    if i == rows.len() {
        assert(rows.take(i) =~= rows);
    } else {
        assert(rows.drop_last().take(i) =~= rows.take(i));
        lemma_column_err(f, e, s, rows.drop_last(), i);
    }
}

/// Those that are not null.
pub open spec fn present(vs: Seq<(ValueView, KeyView)>) -> Seq<(ValueView, KeyView)>
    decreases vs.len(),
{
    if vs.len() == 0 {
        Seq::empty()
    } else if vs.last().0 == ValueView::Null {
        present(vs.drop_last())
    } else {
        present(vs.drop_last()).push(vs.last())
    }
}

/// Their keys, each as a row of one column.
pub open spec fn single_keys(vs: Seq<(ValueView, KeyView)>) -> Seq<Seq<KeyView>> {
    vs.map_values(|v: (ValueView, KeyView)| seq![v.1])
}

/// The first of those with equal keys.
pub open spec fn deduplicated(vs: Seq<(ValueView, KeyView)>) -> Seq<(ValueView, KeyView)> {
    firsts(single_keys(vs)).map_values(|i: usize| vs[i as int])
}

pub open spec fn bare(vs: Seq<(ValueView, KeyView)>) -> Seq<ValueView> {
    vs.map_values(|v: (ValueView, KeyView)| v.0)
}

/// The first of the least.
pub open spec fn least(vs: Seq<(ValueView, KeyView)>) -> (ValueView, KeyView)
    decreases vs.len(),
{
    if vs.len() <= 1 {
        vs[0]
    } else {
        let m = least(vs.drop_last());
        if key_lt(vs.last().1, m.1) {
            vs.last()
        } else {
            m
        }
    }
}

/// The last of the greatest.
pub open spec fn greatest(vs: Seq<(ValueView, KeyView)>) -> (ValueView, KeyView)
    decreases vs.len(),
{
    if vs.len() <= 1 {
        vs[0]
    } else {
        let m = greatest(vs.drop_last());
        if key_lt(vs.last().1, m.1) {
            m
        } else {
            vs.last()
        }
    }
}

pub open spec fn wrapped(a: i64, b: i64) -> i64 {
    a.wrapping_add(b)
}

/// The sum of the integers, wrapping around.
pub open spec fn integer_sum(vs: Seq<ValueView>) -> i64
    decreases vs.len(),
{
    if vs.len() == 0 {
        0
    } else {
        let a = integer_sum(vs.drop_last());
        match vs.last() {
            ValueView::Int(i) => wrapped(a, i as i64),
            ValueView::BigInt(i) => wrapped(a, i),
            _ => a,
        }
    }
}

pub open spec fn any_double(vs: Seq<ValueView>) -> bool {
    exists|i: int| 0 <= i < vs.len() && #[trigger] vs[i] is Double
}

/// The sum of values: of doubles where one of them is a double, else of integers.
pub open spec fn sum_of<A: Fn(bool, &Vec<Value>) -> Value>(a: A, vs: Seq<ValueView>) -> ValueView {
    if any_double(vs) {
        float_of(a, false, vs)
    } else {
        ValueView::BigInt(integer_sum(vs))
    }
}

/// An aggregate over values, nulls left out.
pub open spec fn aggregate<A: Fn(bool, &Vec<Value>) -> Value>(
    a: A,
    func: AggFunc,
    vs: Seq<(ValueView, KeyView)>,
) -> ValueView {
    match func {
        AggFunc::Count => ValueView::BigInt(vs.len() as i64),
        _ => if vs.len() == 0 {
            ValueView::Null
        } else {
            match func {
                AggFunc::Min => least(vs).0,
                AggFunc::Max => greatest(vs).0,
                AggFunc::Sum => sum_of(a, bare(vs)),
                _ => float_of(a, true, bare(vs)),
            }
        },
    }
}

/// One aggregate over the rows of a group.
pub open spec fn reduced<
    E: Fn(&Expr, &Sch, &Row) -> Result<Keyed, ExecError>,
    A: Fn(bool, &Vec<Value>) -> Value,
>(
    f: E,
    a: A,
    func: AggFunc,
    arg: Option<ExprView>,
    distinct: bool,
    s: Cols,
    group: Seq<Seq<ValueView>>,
) -> Result<ValueView, Seq<char>> {
    match arg {
        None => if func is Count {
            Ok(ValueView::BigInt(group.len() as i64))
        } else {
            Err("aggregate requires an argument"@)
        },
        Some(e) => match column_of(f, e, s, group) {
            Err(x) => Err(x),
            Ok(vs) => {
                let p = present(vs);
                Ok(
                    aggregate(
                        a,
                        func,
                        if distinct {
                            deduplicated(p)
                        } else {
                            p
                        },
                    ),
                )
            },
        },
    }
}

/// The values of `e` on the rows, nulls left out.
fn present_values<E: Fn(&Expr, &Sch, &Row) -> Result<Keyed, ExecError>>(
    f: &E,
    e: &Expr,
    s: &Sch,
    rows: &Vec<Row>,
) -> (o: Result<Vec<Keyed>, ExecError>)
    requires
        steady_eval(*f),
    ensures
        ({
            let r = column_of(*f, e@, sch_view(s@), row_views(rows@));
            match o {
                Ok(v) => r matches Ok(vs) && keyed_views(v@) == present(vs),
                Err(x) => r == Err::<Seq<(ValueView, KeyView)>, _>(x.text@),
            }
        }),
{
    let ghost c = sch_view(s@);
    let ghost rv = row_views(rows@);
    let ghost mut sofar: Seq<(ValueView, KeyView)> = Seq::empty();
    let mut out: Vec<Keyed> = Vec::new();
    let mut i: usize = 0;
    proof {
        assert(rv.take(0) =~= Seq::empty());
        assert(keyed_views(out@) =~= present(sofar));
    }
    while i < rows.len()
        invariant
            i <= rows@.len(),
            steady_eval(*f),
            c == sch_view(s@),
            rv == row_views(rows@),
            column_of(*f, e@, c, rv.take(i as int)) == Ok::<_, Seq<char>>(sofar),
            keyed_views(out@) == present(sofar),
        decreases rows@.len() - i,
    {
        proof {
            assert(rv.take(i + 1).drop_last() =~= rv.take(i as int));
            assert(rv.take(i + 1).last() == views(rows@[i as int]@));
        }
        match ask(f, e, s, &rows[i]) {
            Ok(k) => {
                let ghost kv = (k.value@, k.key@);
                proof {
                    assert(sofar.push(kv).drop_last() =~= sofar);
                    sofar = sofar.push(kv);
                }
                if !k.value.is_null() {
                    let ghost was = out@;
                    out.push(k);
                    assert(keyed_views(out@) =~= keyed_views(was).push(kv));
                }
            },
            Err(x) => {
                proof {
                    lemma_column_err(*f, e@, c, rv, i + 1);
                }
                return Err(x);
            },
        }
        i = i + 1;
    }
    assert(rv.take(i as int) =~= rv);
    Ok(out)
}

pub(crate) fn copy_keyed(k: &Keyed) -> (r: Keyed)
    ensures
        (r.value@, r.key@) == (k.value@, k.key@),
{
    let key: OrdKey = match &k.key {
        OrdKey::Null => OrdKey::Null,
        OrdKey::Bool(b) => OrdKey::Bool(*b),
        OrdKey::Num(n) => OrdKey::Num(*n),
        OrdKey::Text(t) => OrdKey::Text(t.clone()),
    };
    Keyed { value: k.value.clone(), key }
}

/// The first of those with equal keys.
fn deduplicate(vs: &Vec<Keyed>) -> (r: Vec<Keyed>)
    ensures
        keyed_views(r@) == deduplicated(keyed_views(vs@)),
{
    let ghost kv = keyed_views(vs@);
    let mut keys: Vec<Vec<OrdKey>> = Vec::new();
    let mut i: usize = 0;
    while i < vs.len()
        invariant
            i <= vs@.len(),
            kv == keyed_views(vs@),
            rows_of(keys@) == single_keys(kv).take(i as int),
        decreases vs@.len() - i,
    {
        let ghost was = keys@;
        let mut one: Vec<OrdKey> = Vec::new();
        one.push(copy_keyed(&vs[i]).key);
        proof {
            assert(key_views(one@) =~= seq![kv[i as int].1]);
        }
        keys.push(one);
        proof {
            assert(rows_of(keys@) =~= rows_of(was).push(seq![kv[i as int].1]));
            assert(single_keys(kv).take(i + 1) =~= single_keys(kv).take(i as int).push(
                seq![kv[i as int].1],
            ));
        }
        i = i + 1;
    }
    assert(single_keys(kv).take(i as int) =~= single_keys(kv));
    let first: Vec<usize> = distinct_rows(&keys);
    let n: usize = keys.len();
    let ghost g = |x: usize| kv[x as int];
    proof {
        lemma_firsts(single_keys(kv));
    }
    let mut out: Vec<Keyed> = Vec::new();
    let mut j: usize = 0;
    assert(keyed_views(out@) =~= first@.take(0).map_values(g));
    while j < first.len()
        invariant
            j <= first@.len(),
            kv == keyed_views(vs@),
            g == (|x: usize| kv[x as int]),
            forall|x: int| 0 <= x < first@.len() ==> (#[trigger] first@[x]) < vs@.len(),
            keyed_views(out@) == first@.take(j as int).map_values(g),
        decreases first@.len() - j,
    {
        let ghost was = out@;
        let k: Keyed = copy_keyed(&vs[first[j]]);
        out.push(k);
        proof {
            assert(keyed_views(out@) =~= keyed_views(was).push((k.value@, k.key@)));
            assert(first@.take(j + 1) =~= first@.take(j as int).push(first@[j as int]));
            assert(first@.take(j + 1).map_values(g) =~= first@.take(j as int).map_values(g).push(
                g(first@[j as int]),
            ));
        }
        j = j + 1;
    }
    assert(first@.take(j as int) =~= first@);
    out
}

/// The least or the greatest of values.
fn extreme(vs: &Vec<Keyed>, max: bool) -> (r: Value)
    requires
        vs@.len() > 0,
    ensures
        r@ == if max {
            greatest(keyed_views(vs@)).0
        } else {
            least(keyed_views(vs@)).0
        },
{
    let ghost kv = keyed_views(vs@);
    let mut best: usize = 0;
    let mut i: usize = 1;
    while i < vs.len()
        invariant
            1 <= i <= vs@.len(),
            best < i,
            kv == keyed_views(vs@),
            kv[best as int] == if max {
                greatest(kv.take(i as int))
            } else {
                least(kv.take(i as int))
            },
        decreases vs@.len() - i,
    {
        proof {
            assert(kv.take(i + 1).drop_last() =~= kv.take(i as int));
            assert(kv.take(i + 1).last() == kv[i as int]);
        }
        let less: bool = key_less(&vs[i].key, &vs[best].key);
        if max != less {
            best = i;
        }
        i = i + 1;
    }
    assert(kv.take(i as int) =~= kv);
    vs[best].value.clone()
}

fn bare_values(vs: &Vec<Keyed>) -> (r: Vec<Value>)
    ensures
        views(r@) == bare(keyed_views(vs@)),
{
    let ghost b = bare(keyed_views(vs@));
    let mut r: Vec<Value> = Vec::new();
    let mut i: usize = 0;
    while i < vs.len()
        invariant
            i <= vs@.len(),
            b == bare(keyed_views(vs@)),
            views(r@) == b.take(i as int),
        decreases vs@.len() - i,
    {
        let ghost was = r@;
        let v: Value = vs[i].value.clone();
        r.push(v);
        proof {
            assert(views(r@) =~= views(was).push(v@));
            assert(b.take(i + 1) =~= b.take(i as int).push(v@));
        }
        i = i + 1;
    }
    assert(b.take(i as int) =~= b);
    r
}

/// SUM: integers stay integers and wrap around; one double makes it a sum of doubles.
pub fn sum_values<A: Fn(bool, &Vec<Value>) -> Value>(a: &A, vs: &Vec<Value>) -> (r: Value)
    requires
        steady_floats(*a),
    ensures
        r@ == sum_of(*a, views(vs@)),
{
    let ghost w = views(vs@);
    let mut sum: i64 = 0;
    let mut i: usize = 0;
    while i < vs.len()
        invariant
            i <= vs@.len(),
            steady_floats(*a),
            w == views(vs@),
            sum == integer_sum(w.take(i as int)),
            forall|j: int| 0 <= j < i ==> !(#[trigger] w[j] is Double),
        decreases vs@.len() - i,
    {
        proof {
            assert(w.take(i + 1).drop_last() =~= w.take(i as int));
            assert(w.take(i + 1).last() == vs@[i as int]@);
            assert(w[i as int] == vs@[i as int]@);
        }
        match &vs[i] {
            Value::Double(_) => {
                assert(w[i as int] is Double);
                return add_floats(a, false, vs);
            },
            Value::Int(n) => {
                sum = sum.wrapping_add(*n as i64);
            },
            Value::BigInt(n) => {
                sum = sum.wrapping_add(*n);
            },
            _ => {},
        }
        i = i + 1;
    }
    assert(w.take(i as int) =~= w);
    Value::BigInt(sum)
}

/// Reduce one aggregate over a group's rows (nulls skipped).
pub fn reduce_aggregate<
    E: Fn(&Expr, &Sch, &Row) -> Result<Keyed, ExecError>,
    A: Fn(bool, &Vec<Value>) -> Value,
>(
    f: &E,
    a: &A,
    func: AggFunc,
    arg: Option<&Expr>,
    distinct: bool,
    s: &Sch,
    group: &Vec<Row>,
) -> (o: Result<Value, ExecError>)
    requires
        steady_eval(*f),
        steady_floats(*a),
    ensures
        ({
            let r = reduced(
                *f,
                *a,
                func,
                match arg {
                    Some(e) => Some(e@),
                    None => None,
                },
                distinct,
                sch_view(s@),
                row_views(group@),
            );
            match o {
                Ok(v) => r == Ok::<_, Seq<char>>(v@),
                Err(e) => r == Err::<ValueView, _>(e.text@),
            }
        }),
{
    let e: &Expr = match arg {
        Some(e) => e,
        None => {
            return match func {
                AggFunc::Count => Ok(Value::BigInt(group.len() as i64)),
                _ => Err(ExecError { text: "aggregate requires an argument".to_owned() }),
            };
        },
    };
    let all: Vec<Keyed> = match present_values(f, e, s, group) {
        Ok(v) => v,
        Err(x) => {
            return Err(x);
        },
    };
    let vals: Vec<Keyed> = if distinct {
        deduplicate(&all)
    } else {
        all
    };
    let n: usize = vals.len();
    if let AggFunc::Count = func {
        return Ok(Value::BigInt(n as i64));
    }
    if n == 0 {
        return Ok(Value::Null);
    }
    Ok(
        match func {
            AggFunc::Min => extreme(&vals, false),
            AggFunc::Max => extreme(&vals, true),
            AggFunc::Sum => sum_values(a, &bare_values(&vals)),
            _ => add_floats(a, true, &bare_values(&vals)),
        },
    )
}

/// `e` with every aggregate replaced by its value over the group, or the first error.
pub open spec fn subst<
    E: Fn(&Expr, &Sch, &Row) -> Result<Keyed, ExecError>,
    A: Fn(bool, &Vec<Value>) -> Value,
>(f: E, a: A, e: ExprView, s: Cols, group: Seq<Seq<ValueView>>) -> Result<ExprView, Seq<char>>
    decreases e, 1int,
{
    match e.node {
        NodeView::Aggregate { func, distinct } => match reduced(
            f,
            a,
            func,
            if e.kids.len() == 0 {
                None
            } else {
                Some(e.kids[0])
            },
            distinct,
            s,
            group,
        ) {
            Ok(v) => Ok(leaf(NodeView::Literal(v))),
            Err(x) => Err(x),
        },
        _ => if inner(e.node) {
            match subst_all(f, a, e.kids, s, group) {
                Ok(kids) => Ok(ExprView { node: e.node, kids }),
                Err(x) => Err(x),
            }
        } else {
            Ok(e)
        },
    }
}

pub open spec fn subst_all<
    E: Fn(&Expr, &Sch, &Row) -> Result<Keyed, ExecError>,
    A: Fn(bool, &Vec<Value>) -> Value,
>(f: E, a: A, es: Seq<ExprView>, s: Cols, group: Seq<Seq<ValueView>>) -> Result<
    Seq<ExprView>,
    Seq<char>,
>
    decreases es, 0int,
{
    if es.len() == 0 {
        Ok(Seq::empty())
    } else {
        match subst_all(f, a, es.drop_last(), s, group) {
            Ok(ks) => match subst(f, a, es.last(), s, group) {
                Ok(k) => Ok(ks.push(k)),
                Err(x) => Err(x),
            },
            Err(x) => Err(x),
        }
    }
}

proof fn lemma_subst_err<
    E: Fn(&Expr, &Sch, &Row) -> Result<Keyed, ExecError>,
    A: Fn(bool, &Vec<Value>) -> Value,
>(f: E, a: A, es: Seq<ExprView>, s: Cols, group: Seq<Seq<ValueView>>, i: int)
    requires
        0 <= i <= es.len(),
        subst_all(f, a, es.take(i), s, group) is Err,
    ensures
        subst_all(f, a, es, s, group) == subst_all(f, a, es.take(i), s, group),
    decreases es.len(),
{
    if i == es.len() {
        assert(es.take(i) =~= es);
    } else {
        assert(es.drop_last().take(i) =~= es.take(i));
        lemma_subst_err(f, a, es.drop_last(), s, group, i);
    }
}

pub open spec fn tree_or_text(o: Result<Expr, ExecError>) -> Result<ExprView, Seq<char>> {
    match o {
        Ok(e) => Ok(e@),
        Err(x) => Err(x.text@),
    }
}

/// Replace every aggregate node in `e` with a literal of its value over `group`.
pub fn substitute_aggs<
    E: Fn(&Expr, &Sch, &Row) -> Result<Keyed, ExecError>,
    A: Fn(bool, &Vec<Value>) -> Value,
>(f: &E, a: &A, e: &Expr, s: &Sch, group: &Vec<Row>) -> (o: Result<Expr, ExecError>)
    requires
        steady_eval(*f),
        steady_floats(*a),
    ensures
        tree_or_text(o) == subst(*f, *a, e@, sch_view(s@), row_views(group@)),
    decreases e,
{
    proof {
        lemma_trees(e.kids@);
    }
    match &e.node {
        Node::Aggregate { func, distinct } => {
            let arg: Option<&Expr> = if e.kids.len() == 0 {
                None
            } else {
                Some(&e.kids[0])
            };
            return match reduce_aggregate(f, a, *func, arg, *distinct, s, group) {
                Ok(v) => Ok(Expr::lit(v)),
                Err(x) => Err(x),
            };
        },
        Node::Binary(_) | Node::Unary(_) | Node::IsNull { .. } | Node::InList { .. }
        | Node::Case { .. } => {},
        _ => {
            return Ok(e.copy());
        },
    }
    let ghost c = sch_view(s@);
    let ghost g = row_views(group@);
    let ghost ts = trees(e.kids@);
    let n: usize = e.kids.len();
    let mut kids: Vec<Expr> = Vec::new();
    let mut i: usize = 0;
    assert(ts.take(0) =~= Seq::empty());
    while i < n
        invariant
            i <= n == e.kids@.len(),
            n == ts.len(),
            steady_eval(*f),
            steady_floats(*a),
            c == sch_view(s@),
            g == row_views(group@),
            ts == trees(e.kids@),
            inner(e.node@),
            forall|j: int| 0 <= j < n ==> #[trigger] ts[j] == e.kids@[j]@,
            subst_all(*f, *a, ts.take(i as int), c, g) == Ok::<_, Seq<char>>(trees(kids@)),
        decreases n - i,
    {
        proof {
            assert(decreases_to!(e => e.kids@[i as int]));
            assert(ts.take(i + 1).drop_last() =~= ts.take(i as int));
            assert(ts.take(i + 1).last() == e.kids@[i as int]@);
        }
        match substitute_aggs(f, a, &e.kids[i], s, group) {
            Ok(k) => {
                let ghost was = kids@;
                kids.push(k);
                assert(kids@.drop_last() =~= was);
            },
            Err(x) => {
                proof {
                    lemma_subst_err(*f, *a, ts, c, g, i + 1);
                }
                return Err(x);
            },
        }
        i = i + 1;
    }
    assert(ts.take(i as int) =~= ts);
    Ok(Expr { node: e.node.copy(), kids })
}

/// The value of `e` on `rep`, aggregates taken over the group.
pub open spec fn group_value<
    E: Fn(&Expr, &Sch, &Row) -> Result<Keyed, ExecError>,
    A: Fn(bool, &Vec<Value>) -> Value,
>(
    f: E,
    a: A,
    e: ExprView,
    s: Cols,
    group: Seq<Seq<ValueView>>,
    rep: Seq<ValueView>,
) -> Outcome {
    match subst(f, a, e, s, group) {
        Ok(x) => value_of(f, x, s, rep),
        Err(x) => Err(x),
    }
}

pub open spec fn group_values<
    E: Fn(&Expr, &Sch, &Row) -> Result<Keyed, ExecError>,
    A: Fn(bool, &Vec<Value>) -> Value,
>(
    f: E,
    a: A,
    es: Seq<ExprView>,
    s: Cols,
    group: Seq<Seq<ValueView>>,
    rep: Seq<ValueView>,
) -> Result<Seq<(ValueView, KeyView)>, Seq<char>>
    decreases es.len(),
{
    if es.len() == 0 {
        Ok(Seq::empty())
    } else {
        match group_values(f, a, es.drop_last(), s, group, rep) {
            Ok(vs) => match group_value(f, a, es.last(), s, group, rep) {
                Ok(v) => Ok(vs.push(v)),
                Err(x) => Err(x),
            },
            Err(x) => Err(x),
        }
    }
}

proof fn lemma_group_values_err<
    E: Fn(&Expr, &Sch, &Row) -> Result<Keyed, ExecError>,
    A: Fn(bool, &Vec<Value>) -> Value,
>(
    f: E,
    a: A,
    es: Seq<ExprView>,
    s: Cols,
    group: Seq<Seq<ValueView>>,
    rep: Seq<ValueView>,
    i: int,
)
    requires
        0 <= i <= es.len(),
        group_values(f, a, es.take(i), s, group, rep) is Err,
    ensures
        group_values(f, a, es, s, group, rep) == group_values(f, a, es.take(i), s, group, rep),
    decreases es.len(),
{
    if i == es.len() {
        assert(es.take(i) =~= es);
    } else {
        assert(es.drop_last().take(i) =~= es.take(i));
        lemma_group_values_err(f, a, es.drop_last(), s, group, rep, i);
    }
}

/// A group's first row; a group without rows is stood for by nulls.
pub open spec fn representative(s: Cols, group: Seq<Seq<ValueView>>) -> Seq<ValueView> {
    if group.len() == 0 {
        Seq::new(s.len(), |i: int| ValueView::Null)
    } else {
        group[0]
    }
}

/// The row a group gives, if HAVING lets it.
pub open spec fn group_row<
    E: Fn(&Expr, &Sch, &Row) -> Result<Keyed, ExecError>,
    A: Fn(bool, &Vec<Value>) -> Value,
>(
    f: E,
    a: A,
    having: Option<ExprView>,
    es: Seq<ExprView>,
    s: Cols,
    group: Seq<Seq<ValueView>>,
) -> Result<Option<Seq<(ValueView, KeyView)>>, Seq<char>> {
    let rep = representative(s, group);
    let kept = match having {
        None => Ok(true),
        Some(h) => match group_value(f, a, h, s, group, rep) {
            Ok(v) => Ok(v.0 == ValueView::Bool(true)),
            Err(x) => Err(x),
        },
    };
    match kept {
        Err(x) => Err(x),
        Ok(false) => Ok(None),
        Ok(true) => match group_values(f, a, es, s, group, rep) {
            Ok(vs) => Ok(Some(vs)),
            Err(x) => Err(x),
        },
    }
}

/// The rows that groups give, in order, or the first error.
pub open spec fn group_rows_out<
    E: Fn(&Expr, &Sch, &Row) -> Result<Keyed, ExecError>,
    A: Fn(bool, &Vec<Value>) -> Value,
>(
    f: E,
    a: A,
    having: Option<ExprView>,
    es: Seq<ExprView>,
    s: Cols,
    groups: Seq<Seq<Seq<ValueView>>>,
) -> Result<Seq<Seq<(ValueView, KeyView)>>, Seq<char>>
    decreases groups.len(),
{
    if groups.len() == 0 {
        Ok(Seq::empty())
    } else {
        match group_rows_out(f, a, having, es, s, groups.drop_last()) {
            Err(x) => Err(x),
            Ok(out) => match group_row(f, a, having, es, s, groups.last()) {
                Err(x) => Err(x),
                Ok(None) => Ok(out),
                Ok(Some(r)) => Ok(out.push(r)),
            },
        }
    }
}

pub proof fn lemma_groups_err<
    E: Fn(&Expr, &Sch, &Row) -> Result<Keyed, ExecError>,
    A: Fn(bool, &Vec<Value>) -> Value,
>(
    f: E,
    a: A,
    having: Option<ExprView>,
    es: Seq<ExprView>,
    s: Cols,
    groups: Seq<Seq<Seq<ValueView>>>,
    i: int,
)
    requires
        0 <= i <= groups.len(),
        group_rows_out(f, a, having, es, s, groups.take(i)) is Err,
    ensures
        group_rows_out(f, a, having, es, s, groups) == group_rows_out(
            f,
            a,
            having,
            es,
            s,
            groups.take(i),
        ),
    decreases groups.len(),
{
    if i == groups.len() {
        assert(groups.take(i) =~= groups);
    } else {
        assert(groups.drop_last().take(i) =~= groups.take(i));
        lemma_groups_err(f, a, having, es, s, groups.drop_last(), i);
    }
}

fn eval_group<
    E: Fn(&Expr, &Sch, &Row) -> Result<Keyed, ExecError>,
    A: Fn(bool, &Vec<Value>) -> Value,
>(f: &E, a: &A, e: &Expr, s: &Sch, group: &Vec<Row>, rep: &Row) -> (o: Result<Keyed, ExecError>)
    requires
        steady_eval(*f),
        steady_floats(*a),
    ensures
        outcome(o) == group_value(*f, *a, e@, sch_view(s@), row_views(group@), views(rep@)),
{
    match substitute_aggs(f, a, e, s, group) {
        Ok(x) => ask(f, &x, s, rep),
        Err(x) => Err(x),
    }
}

pub open spec fn opt_keyed(o: Option<Vec<Keyed>>) -> Option<Seq<(ValueView, KeyView)>> {
    match o {
        Some(v) => Some(keyed_views(v@)),
        None => None,
    }
}

pub(crate) fn make_group_row<
    E: Fn(&Expr, &Sch, &Row) -> Result<Keyed, ExecError>,
    A: Fn(bool, &Vec<Value>) -> Value,
>(
    f: &E,
    a: &A,
    having: &Option<Expr>,
    es: &Vec<Expr>,
    s: &Sch,
    group: &Vec<Row>,
) -> (o: Result<Option<Vec<Keyed>>, ExecError>)
    requires
        steady_eval(*f),
        steady_floats(*a),
    ensures
        ({
            let r = group_row(
                *f,
                *a,
                opt_tree(*having),
                trees(es@),
                sch_view(s@),
                row_views(group@),
            );
            match o {
                Ok(v) => r == Ok::<_, Seq<char>>(opt_keyed(v)) && (v matches Some(k) ==> k@.len()
                    == es@.len()),
                Err(x) => r == Err::<Option<Seq<(ValueView, KeyView)>>, _>(x.text@),
            }
        }),
{
    let ghost c = sch_view(s@);
    let ghost g = row_views(group@);
    let ghost ts = trees(es@);
    let rep: Row = if group.len() == 0 {
        null_row(s.len())
    } else {
        copy_values(&group[0])
    };
    proof {
        if group@.len() == 0 {
            assert(views(rep@) =~= representative(c, g));
        } else {
            assert(g[0] == views(group@[0]@));
        }
    }
    if let Some(h) = having {
        match eval_group(f, a, h, s, group, &rep) {
            Ok(k) => match k.value {
                Value::Bool(true) => {},
                _ => {
                    return Ok(None);
                },
            },
            Err(x) => {
                return Err(x);
            },
        }
    }
    let ghost rv = views(rep@);
    let mut out: Vec<Keyed> = Vec::new();
    let mut i: usize = 0;
    proof {
        lemma_trees(es@);
        assert(keyed_views(out@) =~= Seq::empty());
        assert(ts.take(0) =~= Seq::empty());
    }
    while i < es.len()
        invariant
            i <= es@.len() == ts.len(),
            steady_eval(*f),
            steady_floats(*a),
            ts == trees(es@),
            c == sch_view(s@),
            g == row_views(group@),
            rv == views(rep@),
            rv == representative(c, g),
            match opt_tree(*having) {
                None => true,
                Some(h) => group_value(*f, *a, h, c, g, rv) is Ok && (group_value(
                    *f,
                    *a,
                    h,
                    c,
                    g,
                    rv,
                )->Ok_0).0 == ValueView::Bool(true),
            },
            forall|j: int| 0 <= j < es@.len() ==> #[trigger] ts[j] == es@[j]@,
            out@.len() == i,
            group_values(*f, *a, ts.take(i as int), c, g, rv) == Ok::<_, Seq<char>>(
                keyed_views(out@),
            ),
        decreases es@.len() - i,
    {
        proof {
            assert(ts.take(i + 1).drop_last() =~= ts.take(i as int));
            assert(ts.take(i + 1).last() == es@[i as int]@);
        }
        match eval_group(f, a, &es[i], s, group, &rep) {
            Ok(k) => {
                let ghost was = out@;
                out.push(k);
                assert(keyed_views(out@) =~= keyed_views(was).push((k.value@, k.key@)));
            },
            Err(x) => {
                proof {
                    lemma_group_values_err(*f, *a, ts, c, g, rv, i + 1);
                }
                return Err(x);
            },
        }
        i = i + 1;
    }
    assert(ts.take(i as int) =~= ts);
    Ok(Some(out))
}

pub(crate) fn null_row(n: usize) -> (r: Row)
    ensures
        views(r@) == Seq::new(n as nat, |i: int| ValueView::Null),
{
    let mut r: Row = Vec::new();
    let mut i: usize = 0;
    while i < n
        invariant
            i <= n,
            r@.len() == i,
            forall|j: int| 0 <= j < i ==> (#[trigger] r@[j])@ == ValueView::Null,
        decreases n - i,
    {
        r.push(Value::Null);
        i = i + 1;
    }
    assert(views(r@) =~= Seq::new(n as nat, |i: int| ValueView::Null));
    r
}

} // verus!
