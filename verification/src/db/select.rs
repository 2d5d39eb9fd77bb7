//! A whole SELECT over rows: what its items stand for, what it is ordered by, and
//! what it gives.

use vstd::prelude::*;

use crate::db::ast::{leaf, lemma_trees, trees, Expr, ExprView, Node, NodeView};
use crate::db::exec::{
    bare, copy_keyed, keyed_rows, keyed_views, opt_tree, row_views, steady_eval, steady_floats,
    stream, streamed, Cols, ExecError, Keyed, Row,
};
use crate::db::catalog::Schema;
use crate::db::joins::{
    build_steps, edge_views, edges_of, expr_views, join_edges, opt_steps, schemas, steps_for, Edge,
    EdgeView, JoinKind, StepView,
};
use crate::db::keyed::{
    distinct_rows, firsts, key_views, lemma_firsts, rows_of, sort_rows, sorts, KeyView, OrdKey,
};
use crate::db::plan::{
    all_plain, bindings, contains_agg, has_agg, is_subquery_free, plain, sch_view, Sch,
};
use crate::db::query::{
    aggregated, fold_from_order, fold_reordered, folded, group_views, joined_view, keys_in, pick,
    refolded, run_aggregate, step_views,
};
use crate::db::session::words;
use crate::types::{views, Value, ValueView};

verus! {

pub enum SelectItem {
    /// Every column.
    Wildcard,
    /// Every column of one table.
    QualifiedWildcard(String),
    /// An expression and what its column is called.
    Expr { expr: Expr, label: String },
}

pub struct OrderKey {
    pub expr: Expr,
    pub asc: bool,
}

pub struct Select {
    pub items: Vec<SelectItem>,
    pub filter: Option<Expr>,
    pub group_by: Vec<Expr>,
    pub having: Option<Expr>,
    pub order_by: Vec<OrderKey>,
    pub distinct: bool,
    pub limit: Option<i64>,
}

pub struct ResultSet {
    pub columns: Vec<String>,
    pub rows: Vec<Row>,
}

pub ghost enum ItemView {
    Wildcard,
    QualifiedWildcard(Seq<char>),
    Expr { expr: ExprView, label: Seq<char> },
}

impl View for SelectItem {
    type V = ItemView;

    open spec fn view(&self) -> ItemView {
        match *self {
            SelectItem::Wildcard => ItemView::Wildcard,
            SelectItem::QualifiedWildcard(t) => ItemView::QualifiedWildcard(t@),
            SelectItem::Expr { expr, label } => ItemView::Expr { expr: expr@, label: label@ },
        }
    }
}

pub open spec fn item_views(items: Seq<SelectItem>) -> Seq<ItemView> {
    items.map_values(|i: SelectItem| i@)
}

// ---- items ----

/// A reference to a column.
pub open spec fn column_ref(c: (Seq<char>, Seq<char>)) -> ExprView {
    leaf(NodeView::Column { table: Some(c.0), name: c.1 })
}

/// The columns of table `t`, or all where no table is named.
pub open spec fn columns_of(s: Cols, t: Option<Seq<char>>) -> Seq<(Seq<char>, ExprView)>
    decreases s.len(),
{
    if s.len() == 0 {
        Seq::empty()
    } else if t is None || t == Some(s.last().0) {
        columns_of(s.drop_last(), t).push((s.last().1, column_ref(s.last())))
    } else {
        columns_of(s.drop_last(), t)
    }
}

/// What an item stands for: names and expressions. An item that names no table there
/// is, or that holds a subquery, stands for nothing here.
pub open spec fn item_columns(item: ItemView, s: Cols) -> Option<Seq<(Seq<char>, ExprView)>> {
    match item {
        ItemView::Wildcard => Some(columns_of(s, None)),
        ItemView::QualifiedWildcard(t) => if columns_of(s, Some(t)).len() == 0 {
            None
        } else {
            Some(columns_of(s, Some(t)))
        },
        ItemView::Expr { expr, label } => if plain(expr) {
            Some(seq![(label, expr)])
        } else {
            None
        },
    }
}

/// What the items stand for, in order.
pub open spec fn output_columns(items: Seq<ItemView>, s: Cols) -> Option<
    Seq<(Seq<char>, ExprView)>,
>
    decreases items.len(),
{
    if items.len() == 0 {
        Some(Seq::empty())
    } else {
        match (output_columns(items.drop_last(), s), item_columns(items.last(), s)) {
            (Some(a), Some(b)) => Some(a + b),
            _ => None,
        }
    }
}

pub open spec fn labels(xs: Seq<(Seq<char>, ExprView)>) -> Seq<Seq<char>> {
    xs.map_values(|x: (Seq<char>, ExprView)| x.0)
}

pub open spec fn bodies(xs: Seq<(Seq<char>, ExprView)>) -> Seq<ExprView> {
    xs.map_values(|x: (Seq<char>, ExprView)| x.1)
}

proof fn lemma_output_none(items: Seq<ItemView>, s: Cols, i: int)
    requires
        0 <= i <= items.len(),
        output_columns(items.take(i), s) is None,
    ensures
        output_columns(items, s) is None,
    decreases items.len(),
{
    if i == items.len() {
        assert(items.take(i) =~= items);
    } else {
        assert(items.drop_last().take(i) =~= items.take(i));
        lemma_output_none(items.drop_last(), s, i);
    }
}

/// The names and expressions collected so far.
spec fn collected(cols: Seq<String>, es: Seq<Expr>, xs: Seq<(Seq<char>, ExprView)>) -> bool {
    &&& words(cols) == labels(xs)
    &&& trees(es) == bodies(xs)
}

fn push_column(
    cols: &mut Vec<String>,
    es: &mut Vec<Expr>,
    label: String,
    e: Expr,
    Ghost(xs): Ghost<Seq<(Seq<char>, ExprView)>>,
)
    requires
        collected(old(cols)@, old(es)@, xs),
    ensures
        collected(final(cols)@, final(es)@, xs.push((label@, e@))),
{
    let ghost a = cols@;
    let ghost b = es@;
    cols.push(label);
    es.push(e);
    proof {
        assert(words(cols@) =~= words(a).push(label@));
        assert(es@.drop_last() =~= b);
        let ys = xs.push((label@, e@));
        assert(labels(ys) =~= labels(xs).push(label@));
        assert(bodies(ys) =~= bodies(xs).push(e@));
    }
}

/// The columns of a table, or all; whether there were any.
fn push_columns(
    cols: &mut Vec<String>,
    es: &mut Vec<Expr>,
    s: &Sch,
    t: Option<&String>,
    Ghost(xs): Ghost<Seq<(Seq<char>, ExprView)>>,
) -> (any: bool)
    requires
        collected(old(cols)@, old(es)@, xs),
    ensures
        ({
            let more = columns_of(
                sch_view(s@),
                match t {
                    Some(n) => Some(n@),
                    None => None,
                },
            );
            &&& collected(final(cols)@, final(es)@, xs + more)
            &&& any == (more.len() > 0)
        }),
{
    let ghost sv = sch_view(s@);
    let ghost tv = match t {
        Some(n) => Some(n@),
        None => None,
    };
    let mut any: bool = false;
    let mut i: usize = 0;
    proof {
        assert(sv.take(0) =~= Seq::empty());
        assert(xs + columns_of(sv.take(0), tv) =~= xs);
    }
    while i < s.len()
        invariant
            i <= s@.len(),
            sv == sch_view(s@),
            tv == (match t {
                Some(n) => Some(n@),
                None => None,
            }),
            collected(cols@, es@, xs + columns_of(sv.take(i as int), tv)),
            any == (columns_of(sv.take(i as int), tv).len() > 0),
        decreases s@.len() - i,
    {
        let ghost before = columns_of(sv.take(i as int), tv);
        proof {
            assert(sv.take(i + 1).drop_last() =~= sv.take(i as int));
            assert(sv.take(i + 1).last() == (s@[i as int].0@, s@[i as int].1@));
        }
        let wanted: bool = match t {
            Some(n) => *n == s[i].0,
            None => true,
        };
        if wanted {
            let e: Expr = Expr::qcol(&s[i].0, &s[i].1);
            let label: String = s[i].1.clone();
            let ghost x = (label@, e@);
            push_column(cols, es, label, e, Ghost(xs + before));
            any = true;
            proof {
                assert((xs + before).push(x) =~= xs + before.push(x));
            }
        }
        i = i + 1;
    }
    assert(sv.take(i as int) =~= sv);
    any
}

/// Expand the SELECT items.
pub fn expand_items(items: &Vec<SelectItem>, s: &Sch) -> (r: Option<(Vec<String>, Vec<Expr>)>)
    ensures
        match r {
            Some((cols, es)) => {
                &&& output_columns(item_views(items@), sch_view(s@)) is Some
                &&& words(cols@) == labels(output_columns(item_views(items@), sch_view(s@))->0)
                &&& trees(es@) == bodies(output_columns(item_views(items@), sch_view(s@))->0)
                &&& cols@.len() == es@.len()
            },
            None => output_columns(item_views(items@), sch_view(s@)) is None,
        },
{
    let ghost iv = item_views(items@);
    let ghost c = sch_view(s@);
    let mut cols: Vec<String> = Vec::new();
    let mut es: Vec<Expr> = Vec::new();
    let ghost mut xs: Seq<(Seq<char>, ExprView)> = Seq::empty();
    let mut i: usize = 0;
    proof {
        assert(iv.take(0) =~= Seq::empty());
        assert(words(cols@) =~= labels(xs));
        assert(trees(es@) =~= bodies(xs));
    }
    while i < items.len()
        invariant
            i <= items@.len(),
            iv == item_views(items@),
            c == sch_view(s@),
            collected(cols@, es@, xs),
            output_columns(iv.take(i as int), c) == Some(xs),
        decreases items@.len() - i,
    {
        proof {
            assert(iv.take(i + 1).drop_last() =~= iv.take(i as int));
            assert(iv.take(i + 1).last() == items@[i as int]@);
        }
        match &items[i] {
            SelectItem::Wildcard => {
                push_columns(&mut cols, &mut es, s, None, Ghost(xs));
                proof {
                    xs = xs + columns_of(c, None);
                }
            },
            SelectItem::QualifiedWildcard(t) => {
                let any: bool = push_columns(&mut cols, &mut es, s, Some(t), Ghost(xs));
                if !any {
                    proof {
                        lemma_output_none(iv, c, i + 1);
                    }
                    return None;
                }
                proof {
                    xs = xs + columns_of(c, Some(t@));
                }
            },
            SelectItem::Expr { expr, label } => {
                if !is_subquery_free(expr) {
                    proof {
                        lemma_output_none(iv, c, i + 1);
                    }
                    return None;
                }
                let e: Expr = expr.copy();
                let l: String = label.clone();
                let ghost x = (l@, e@);
                push_column(&mut cols, &mut es, l, e, Ghost(xs));
                proof {
                    assert(xs + seq![x] =~= xs.push(x));
                    xs = xs.push(x);
                }
            },
        }
        i = i + 1;
    }
    proof {
        assert(iv.take(i as int) =~= iv);
        assert(words(cols@).len() == labels(xs).len());
        lemma_trees(es@);
        assert(trees(es@).len() == bodies(xs).len());
    }
    Some((cols, es))
}

// ---- order ----

/// The first output column of the name.
pub open spec fn first_label(ls: Seq<Seq<char>>, name: Seq<char>) -> Option<usize>
    decreases ls.len(),
{
    if ls.len() == 0 {
        None
    } else {
        match first_label(ls.drop_last(), name) {
            Some(i) => Some(i),
            None => if ls.last() == name {
                Some((ls.len() - 1) as usize)
            } else {
                None
            },
        }
    }
}

/// The output column that an ORDER BY expression means: one of its name, or one by
/// its number.
pub open spec fn order_column(e: ExprView, ls: Seq<Seq<char>>) -> Option<usize> {
    match e.node {
        NodeView::Column { table: _, name } => first_label(ls, name),
        NodeView::Literal(ValueView::BigInt(n)) => if 1 <= n <= ls.len() {
            Some((n - 1) as usize)
        } else {
            None
        },
        _ => None,
    }
}

pub open spec fn order_views(ks: Seq<OrderKey>) -> Seq<(ExprView, bool)> {
    ks.map_values(|k: OrderKey| (k.expr@, k.asc))
}

pub open spec fn sort_columns(ks: Seq<(ExprView, bool)>, ls: Seq<Seq<char>>) -> Option<
    Seq<(usize, bool)>,
>
    decreases ks.len(),
{
    if ks.len() == 0 {
        Some(Seq::empty())
    } else {
        match (sort_columns(ks.drop_last(), ls), order_column(ks.last().0, ls)) {
            (Some(a), Some(i)) => Some(a.push((i, ks.last().1))),
            _ => None,
        }
    }
}

proof fn lemma_sort_none(ks: Seq<(ExprView, bool)>, ls: Seq<Seq<char>>, i: int)
    requires
        0 <= i <= ks.len(),
        sort_columns(ks.take(i), ls) is None,
    ensures
        sort_columns(ks, ls) is None,
    decreases ks.len(),
{
    if i == ks.len() {
        assert(ks.take(i) =~= ks);
    } else {
        assert(ks.drop_last().take(i) =~= ks.take(i));
        lemma_sort_none(ks.drop_last(), ls, i);
    }
}

proof fn lemma_first_label(ls: Seq<Seq<char>>, name: Seq<char>, i: int)
    requires
        0 <= i < ls.len() <= usize::MAX,
        first_label(ls.take(i), name) is None,
        ls[i] == name,
    ensures
        first_label(ls, name) == Some(i as usize),
    decreases ls.len(),
{
    let init = ls.drop_last();
    if i == ls.len() - 1 {
        assert(ls.take(i) =~= init);
    } else {
        assert(init.take(i) =~= ls.take(i));
        lemma_first_label(init, name, i);
    }
}

fn find_label(cols: &Vec<String>, name: &String) -> (r: Option<usize>)
    ensures
        r == first_label(words(cols@), name@),
        r matches Some(i) ==> i < cols@.len(),
{
    let ghost ls = words(cols@);
    let n: usize = cols.len();
    let mut i: usize = 0;
    assert(ls.take(0) =~= Seq::empty());
    while i < n
        invariant
            i <= n == cols@.len(),
            ls == words(cols@),
            first_label(ls.take(i as int), name@) is None,
        decreases n - i,
    {
        assert(ls[i as int] == cols@[i as int]@);
        if cols[i] == *name {
            proof {
                lemma_first_label(ls, name@, i as int);
            }
            return Some(i);
        }
        proof {
            assert(ls.take(i + 1).drop_last() =~= ls.take(i as int));
            assert(ls.take(i + 1).last() == ls[i as int]);
        }
        i = i + 1;
    }
    assert(ls.take(i as int) =~= ls);
    None
}

fn find_order_column(e: &Expr, cols: &Vec<String>) -> (r: Option<usize>)
    ensures
        r == order_column(e@, words(cols@)),
        r matches Some(i) ==> i < cols@.len(),
{
    match &e.node {
        Node::Column { table: _, name } => find_label(cols, name),
        Node::Literal(Value::BigInt(n)) => {
            let total: usize = cols.len();
            if *n < 1 {
                return None;
            }
            let i: u64 = (*n - 1) as u64;
            if i >= total as u64 {
                None
            } else {
                Some(i as usize)
            }
        },
        _ => None,
    }
}

/// Resolve the ORDER BY keys against the output columns.
pub fn resolve_order(ks: &Vec<OrderKey>, cols: &Vec<String>) -> (r: Option<Vec<(usize, bool)>>)
    ensures
        match r {
            Some(v) => sort_columns(order_views(ks@), words(cols@)) == Some(v@) && forall|i: int|
                0 <= i < v@.len() ==> (#[trigger] v@[i]).0 < cols@.len(),
            None => sort_columns(order_views(ks@), words(cols@)) is None,
        },
{
    let ghost kv = order_views(ks@);
    let ghost ls = words(cols@);
    let mut out: Vec<(usize, bool)> = Vec::new();
    let mut i: usize = 0;
    assert(kv.take(0) =~= Seq::empty());
    while i < ks.len()
        invariant
            i <= ks@.len(),
            kv == order_views(ks@),
            ls == words(cols@),
            sort_columns(kv.take(i as int), ls) == Some(out@),
            forall|j: int| 0 <= j < out@.len() ==> (#[trigger] out@[j]).0 < cols@.len(),
        decreases ks@.len() - i,
    {
        proof {
            assert(kv.take(i + 1).drop_last() =~= kv.take(i as int));
            assert(kv.take(i + 1).last() == (ks@[i as int].expr@, ks@[i as int].asc));
        }
        match find_order_column(&ks[i].expr, cols) {
            Some(c) => {
                out.push((c, ks[i].asc));
            },
            None => {
                proof {
                    lemma_sort_none(kv, ls, i + 1);
                }
                return None;
            },
        }
        i = i + 1;
    }
    assert(kv.take(i as int) =~= kv);
    Some(out)
}

// ---- the tail ----

/// The keys by which rows are sorted.
pub open spec fn sort_keys(rs: Seq<Seq<(ValueView, KeyView)>>, ks: Seq<(usize, bool)>) -> Seq<
    Seq<KeyView>,
> {
    rs.map_values(
        |r: Seq<(ValueView, KeyView)>| ks.map_values(|k: (usize, bool)| r[k.0 as int].1),
    )
}

pub open spec fn directions(ks: Seq<(usize, bool)>) -> Seq<bool> {
    ks.map_values(|k: (usize, bool)| k.1)
}

/// `o` lists the rows as they are to come: sorted, or as they are where nothing is
/// sorted by.
pub open spec fn ordering(
    o: Seq<usize>,
    rs: Seq<Seq<(ValueView, KeyView)>>,
    ks: Seq<(usize, bool)>,
) -> bool {
    if ks.len() == 0 {
        o == Seq::new(rs.len(), |i: int| i as usize)
    } else {
        sorts(o, sort_keys(rs, ks), directions(ks))
    }
}

/// Rows of which no two have the same keys, the first of each.
pub open spec fn unique_rows(rs: Seq<Seq<(ValueView, KeyView)>>) -> Seq<
    Seq<(ValueView, KeyView)>,
> {
    pick(rs, firsts(rs.map_values(|r: Seq<(ValueView, KeyView)>| keys_in(r))))
}

pub open spec fn bare_rows(rs: Seq<Seq<(ValueView, KeyView)>>) -> Seq<Seq<ValueView>> {
    rs.map_values(|r: Seq<(ValueView, KeyView)>| bare(r))
}

/// The first `limit` rows; none where it is negative.
pub open spec fn limited<T>(rs: Seq<T>, limit: Option<i64>) -> Seq<T> {
    match limit {
        None => rs,
        Some(n) => if n <= 0 {
            rs.take(0)
        } else if n < rs.len() {
            rs.take(n as int)
        } else {
            rs
        },
    }
}

/// What ORDER BY and LIMIT make of rows.
pub open spec fn arranged(
    rs: Seq<Seq<(ValueView, KeyView)>>,
    ks: Seq<(usize, bool)>,
    limit: Option<i64>,
    out: Seq<Seq<ValueView>>,
) -> bool {
    exists|o: Seq<usize>| #[trigger]
        ordering(o, rs, ks) && out == limited(bare_rows(pick(rs, o)), limit)
}

/// What DISTINCT, ORDER BY and LIMIT make of rows.
pub open spec fn tail_of(
    rs: Seq<Seq<(ValueView, KeyView)>>,
    distinct: bool,
    ks: Seq<(usize, bool)>,
    limit: Option<i64>,
    out: Seq<Seq<ValueView>>,
) -> bool {
    arranged(
        if distinct {
            unique_rows(rs)
        } else {
            rs
        },
        ks,
        limit,
        out,
    )
}

fn row_keys(r: &Vec<Keyed>) -> (k: Vec<OrdKey>)
    ensures
        key_views(k@) == keys_in(keyed_views(r@)),
{
    let ghost kv = keyed_views(r@);
    let mut k: Vec<OrdKey> = Vec::new();
    let mut i: usize = 0;
    while i < r.len()
        invariant
            i <= r@.len(),
            kv == keyed_views(r@),
            key_views(k@) == keys_in(kv).take(i as int),
        decreases r@.len() - i,
    {
        let ghost was = k@;
        let x: OrdKey = copy_keyed(&r[i]).key;
        k.push(x);
        proof {
            assert(key_views(k@) =~= key_views(was).push(x@));
            assert(keys_in(kv).take(i + 1) =~= keys_in(kv).take(i as int).push(kv[i as int].1));
        }
        i = i + 1;
    }
    assert(keys_in(kv).take(i as int) =~= keys_in(kv));
    k
}

fn row_values(r: &Vec<Keyed>) -> (v: Row)
    ensures
        views(v@) == bare(keyed_views(r@)),
{
    let ghost b = bare(keyed_views(r@));
    let mut v: Row = Vec::new();
    let mut i: usize = 0;
    while i < r.len()
        invariant
            i <= r@.len(),
            b == bare(keyed_views(r@)),
            views(v@) == b.take(i as int),
        decreases r@.len() - i,
    {
        let ghost was = v@;
        let x: Value = r[i].value.clone();
        v.push(x);
        proof {
            assert(views(v@) =~= views(was).push(x@));
            assert(b.take(i + 1) =~= b.take(i as int).push(x@));
        }
        i = i + 1;
    }
    assert(b.take(i as int) =~= b);
    v
}

fn counting(n: usize) -> (v: Vec<usize>)
    ensures
        v@ == Seq::new(n as nat, |i: int| i as usize),
{
    let mut v: Vec<usize> = Vec::new();
    let mut i: usize = 0;
    while i < n
        invariant
            i <= n,
            v@ == Seq::new(i as nat, |j: int| j as usize),
        decreases n - i,
    {
        v.push(i);
        i = i + 1;
        assert(v@ =~= Seq::new(i as nat, |j: int| j as usize));
    }
    v
}

/// The numbers of the rows that stay.
fn staying(rs: &Vec<Vec<Keyed>>, distinct: bool) -> (sel: Vec<usize>)
    ensures
        forall|i: int| 0 <= i < sel@.len() ==> (#[trigger] sel@[i]) < rs@.len(),
        pick(keyed_rows(rs@), sel@) == if distinct {
            unique_rows(keyed_rows(rs@))
        } else {
            keyed_rows(rs@)
        },
{
    let ghost kr = keyed_rows(rs@);
    let n: usize = rs.len();
    if !distinct {
        let sel: Vec<usize> = counting(n);
        assert(pick(kr, sel@) =~= kr);
        return sel;
    }
    let ghost g = |r: Seq<(ValueView, KeyView)>| keys_in(r);
    let mut keys: Vec<Vec<OrdKey>> = Vec::new();
    let mut i: usize = 0;
    while i < n
        invariant
            i <= n == rs@.len(),
            kr == keyed_rows(rs@),
            g == (|r: Seq<(ValueView, KeyView)>| keys_in(r)),
            rows_of(keys@) == kr.map_values(g).take(i as int),
        decreases n - i,
    {
        let ghost was = keys@;
        let k: Vec<OrdKey> = row_keys(&rs[i]);
        keys.push(k);
        proof {
            assert(rows_of(keys@) =~= rows_of(was).push(key_views(k@)));
            assert(kr.map_values(g).take(i + 1) =~= kr.map_values(g).take(i as int).push(
                g(kr[i as int]),
            ));
        }
        i = i + 1;
    }
    assert(kr.map_values(g).take(i as int) =~= kr.map_values(g));
    let sel: Vec<usize> = distinct_rows(&keys);
    proof {
        lemma_firsts(kr.map_values(g));
    }
    sel
}

fn sort_key_of(r: &Vec<Keyed>, ks: &Vec<(usize, bool)>) -> (k: Vec<OrdKey>)
    requires
        forall|j: int| 0 <= j < ks@.len() ==> (#[trigger] ks@[j]).0 < r@.len(),
    ensures
        key_views(k@) == ks@.map_values(
            |x: (usize, bool)| keyed_views(r@)[x.0 as int].1,
        ),
        k@.len() == ks@.len(),
{
    let ghost kv = keyed_views(r@);
    let ghost g = |x: (usize, bool)| kv[x.0 as int].1;
    let mut k: Vec<OrdKey> = Vec::new();
    let mut i: usize = 0;
    while i < ks.len()
        invariant
            i <= ks@.len(),
            kv == keyed_views(r@),
            g == (|x: (usize, bool)| kv[x.0 as int].1),
            forall|j: int| 0 <= j < ks@.len() ==> (#[trigger] ks@[j]).0 < r@.len(),
            k@.len() == i,
            key_views(k@) == ks@.map_values(g).take(i as int),
        decreases ks@.len() - i,
    {
        let ghost was = k@;
        let c: usize = ks[i].0;
        let x: OrdKey = copy_keyed(&r[c]).key;
        k.push(x);
        proof {
            assert(key_views(k@) =~= key_views(was).push(x@));
            assert(ks@.map_values(g).take(i + 1) =~= ks@.map_values(g).take(i as int).push(
                g(ks@[i as int]),
            ));
        }
        i = i + 1;
    }
    assert(ks@.map_values(g).take(i as int) =~= ks@.map_values(g));
    k
}

/// The order in which the rows numbered `sel` come.
fn arrange(
    rs: &Vec<Vec<Keyed>>,
    sel: &Vec<usize>,
    ks: &Vec<(usize, bool)>,
    width: usize,
) -> (o: Vec<usize>)
    requires
        forall|i: int| 0 <= i < sel@.len() ==> (#[trigger] sel@[i]) < rs@.len(),
        forall|i: int| 0 <= i < rs@.len() ==> (#[trigger] rs@[i])@.len() == width,
        forall|j: int| 0 <= j < ks@.len() ==> (#[trigger] ks@[j]).0 < width,
    ensures
        ordering(o@, pick(keyed_rows(rs@), sel@), ks@),
        forall|i: int| 0 <= i < o@.len() ==> (#[trigger] o@[i]) < sel@.len(),
        o@.len() == sel@.len(),
{
    let ghost d = pick(keyed_rows(rs@), sel@);
    let n: usize = sel.len();
    if ks.len() == 0 {
        return counting(n);
    }
    let ghost g = |r: Seq<(ValueView, KeyView)>|
        ks@.map_values(|k: (usize, bool)| r[k.0 as int].1);
    let mut keys: Vec<Vec<OrdKey>> = Vec::new();
    let mut i: usize = 0;
    while i < n
        invariant
            i <= n == sel@.len(),
            d == pick(keyed_rows(rs@), sel@),
            g == (|r: Seq<(ValueView, KeyView)>|
                ks@.map_values(|k: (usize, bool)| r[k.0 as int].1)),
            forall|i: int| 0 <= i < sel@.len() ==> (#[trigger] sel@[i]) < rs@.len(),
            forall|i: int| 0 <= i < rs@.len() ==> (#[trigger] rs@[i])@.len() == width,
            forall|j: int| 0 <= j < ks@.len() ==> (#[trigger] ks@[j]).0 < width,
            keys@.len() == i,
            forall|j: int| 0 <= j < i ==> (#[trigger] keys@[j])@.len() == ks@.len(),
            rows_of(keys@) == d.map_values(g).take(i as int),
        decreases n - i,
    {
        let ghost was = keys@;
        let at: usize = sel[i];
        let k: Vec<OrdKey> = sort_key_of(&rs[at], ks);
        proof {
            assert(d[i as int] == keyed_views(rs@[at as int]@));
            assert(g(d[i as int]) =~= key_views(k@));
        }
        keys.push(k);
        proof {
            assert(rows_of(keys@) =~= rows_of(was).push(key_views(k@)));
            assert(d.map_values(g).take(i + 1) =~= d.map_values(g).take(i as int).push(
                g(d[i as int]),
            ));
        }
        i = i + 1;
    }
    proof {
        assert(d.map_values(g).take(i as int) =~= d.map_values(g));
        assert(sort_keys(d, ks@) =~= d.map_values(g));
    }
    let mut asc: Vec<bool> = Vec::new();
    let mut j: usize = 0;
    while j < ks.len()
        invariant
            j <= ks@.len(),
            asc@ == directions(ks@).take(j as int),
        decreases ks@.len() - j,
    {
        asc.push(ks[j].1);
        j = j + 1;
        assert(asc@ =~= directions(ks@).take(j as int));
    }
    assert(directions(ks@).take(j as int) =~= directions(ks@));
    sort_rows(&keys, &asc)
}

/// DISTINCT, ORDER BY and LIMIT.
pub fn finish_rows(
    rs: &Vec<Vec<Keyed>>,
    width: usize,
    distinct: bool,
    ks: &Vec<(usize, bool)>,
    limit: Option<i64>,
) -> (out: Vec<Row>)
    requires
        forall|i: int| 0 <= i < rs@.len() ==> (#[trigger] rs@[i])@.len() == width,
        forall|j: int| 0 <= j < ks@.len() ==> (#[trigger] ks@[j]).0 < width,
    ensures
        tail_of(keyed_rows(rs@), distinct, ks@, limit, row_views(out@)),
{
    let sel: Vec<usize> = staying(rs, distinct);
    let o: Vec<usize> = arrange(rs, &sel, ks, width);
    let ghost d = pick(keyed_rows(rs@), sel@);
    let ghost all = bare_rows(pick(d, o@));
    let total: usize = o.len();
    let n: usize = match limit {
        None => total,
        Some(l) => {
            if l <= 0 {
                0
            } else if (l as u64) < total as u64 {
                l as usize
            } else {
                total
            }
        },
    };
    let mut out: Vec<Row> = Vec::new();
    let mut i: usize = 0;
    assert(row_views(out@) =~= all.take(0));
    while i < n
        invariant
            i <= n <= o@.len(),
            d == pick(keyed_rows(rs@), sel@),
            all == bare_rows(pick(d, o@)),
            forall|i: int| 0 <= i < sel@.len() ==> (#[trigger] sel@[i]) < rs@.len(),
            forall|i: int| 0 <= i < o@.len() ==> (#[trigger] o@[i]) < sel@.len(),
            row_views(out@) == all.take(i as int),
        decreases n - i,
    {
        let ghost was = out@;
        let k: usize = o[i];
        let r: Row = row_values(&rs[sel[k]]);
        out.push(r);
        proof {
            assert(all[i as int] == views(r@));
            assert(row_views(out@) =~= row_views(was).push(views(r@)));
            assert(all.take(i + 1) =~= all.take(i as int).push(all[i as int]));
        }
        i = i + 1;
    }
    proof {
        assert(all.len() == total);
        assert(all.take(all.len() as int) =~= all);
        assert(ordering(o@, d, ks@) && row_views(out@) == limited(all, limit));
        assert(arranged(d, ks@, limit, row_views(out@)));
    }
    out
}

// ---- the whole query ----

/// Whether the query gives grouped or aggregated output.
pub open spec fn aggregates(q: Select) -> bool {
    q.group_by@.len() > 0 || q.having is Some || exists|i: int|
        0 <= i < q.items@.len() && item_aggregates(#[trigger] q.items@[i])
}

pub open spec fn item_aggregates(item: SelectItem) -> bool {
    item matches SelectItem::Expr { expr, label } && has_agg(expr@)
}

pub fn is_aggregate(q: &Select) -> (r: bool)
    ensures
        r == aggregates(*q),
{
    if q.group_by.len() > 0 || q.having.is_some() {
        return true;
    }
    let mut i: usize = 0;
    while i < q.items.len()
        invariant
            i <= q.items@.len(),
            forall|j: int| 0 <= j < i ==> !item_aggregates(#[trigger] q.items@[j]),
        decreases q.items@.len() - i,
    {
        if let SelectItem::Expr { expr, label: _ } = &q.items[i] {
            if contains_agg(expr) {
                assert(item_aggregates(q.items@[i as int]));
                return true;
            }
        }
        i = i + 1;
    }
    false
}

pub open spec fn opt_plain(e: Option<Expr>) -> bool {
    e matches Some(x) ==> plain(x@)
}

/// No clause holds a subquery.
pub open spec fn clauses_plain(q: Select) -> bool {
    opt_plain(q.filter) && opt_plain(q.having) && all_plain(trees(q.group_by@))
}

fn option_plain(e: &Option<Expr>) -> (r: bool)
    ensures
        r == opt_plain(*e),
{
    match e {
        Some(x) => is_subquery_free(x),
        None => true,
    }
}

fn list_plain(es: &Vec<Expr>) -> (r: bool)
    ensures
        r == all_plain(trees(es@)),
{
    let mut all: bool = true;
    let mut i: usize = 0;
    while i < es.len()
        invariant
            i <= es@.len(),
            all == all_plain(trees(es@.take(i as int))),
        decreases es@.len() - i,
    {
        proof {
            let t = es@.take(i + 1);
            assert(t.drop_last() =~= es@.take(i as int));
            assert(trees(t).drop_last() =~= trees(es@.take(i as int)));
        }
        if !is_subquery_free(&es[i]) {
            all = false;
        }
        i = i + 1;
    }
    assert(es@.take(i as int) =~= es@);
    all
}

/// How many rows have to be looked at: none where the limit asks for none, and where
/// nothing is sorted or made unique, no more than it asks for.
pub open spec fn wanted(distinct: bool, ks: Seq<(usize, bool)>, limit: Option<i64>) -> int {
    match limit {
        Some(n) => if n <= 0 {
            0
        } else if !distinct && ks.len() == 0 {
            n as int
        } else {
            -1
        },
        None => -1,
    }
}

/// What a query gives over rows; `None` where it is not one of those that are run
/// here.
pub open spec fn finished<
    E: Fn(&Expr, &Sch, &Row) -> Result<Keyed, ExecError>,
    A: Fn(bool, &Vec<Value>) -> Value,
>(
    f: E,
    a: A,
    q: Select,
    s: Cols,
    rows: Seq<Seq<ValueView>>,
    o: Option<Result<ResultSet, ExecError>>,
) -> bool {
    let cols = output_columns(item_views(q.items@), s);
    let ks = sort_columns(order_views(q.order_by@), labels(cols->0));
    if !clauses_plain(q) || cols is None || ks is None {
        o is None
    } else {
        let es = bodies(cols->0);
        let body = if aggregates(q) {
            aggregated(
                f,
                a,
                opt_tree(q.filter),
                trees(q.group_by@),
                opt_tree(q.having),
                es,
                s,
                rows,
            )
        } else {
            streamed(f, opt_tree(q.filter), es, s, rows, wanted(q.distinct, ks->0, q.limit))
        };
        match o {
            None => false,
            Some(Err(e)) => body == Err::<Seq<Seq<(ValueView, KeyView)>>, _>(e.text@),
            Some(Ok(set)) => {
                &&& body is Ok
                &&& words(set.columns@) == labels(cols->0)
                &&& tail_of(body->Ok_0, q.distinct, ks->0, q.limit, row_views(set.rows@))
            },
        }
    }
}

/// The shared tail: expand the items, filter, project or aggregate, then make unique,
/// sort and cut off. `None` if any item or clause is not eligible.
pub fn finish<
    E: Fn(&Expr, &Sch, &Row) -> Result<Keyed, ExecError>,
    A: Fn(bool, &Vec<Value>) -> Value,
>(f: &E, a: &A, q: &Select, s: &Sch, rows: &Vec<Row>) -> (o: Option<Result<ResultSet, ExecError>>)
    requires
        steady_eval(*f),
        steady_floats(*a),
    ensures
        finished(*f, *a, *q, sch_view(s@), row_views(rows@), o),
{
    if !option_plain(&q.filter) || !option_plain(&q.having) || !list_plain(&q.group_by) {
        return None;
    }
    let (columns, es): (Vec<String>, Vec<Expr>) = match expand_items(&q.items, s) {
        Some(p) => p,
        None => {
            return None;
        },
    };
    let ks: Vec<(usize, bool)> = match resolve_order(&q.order_by, &columns) {
        Some(k) => k,
        None => {
            return None;
        },
    };
    let body: Result<Vec<Vec<Keyed>>, ExecError> = if is_aggregate(q) {
        run_aggregate(f, a, &q.filter, &q.group_by, &q.having, &es, s, rows)
    } else {
        let want: Option<usize> = match q.limit {
            Some(n) => {
                if n <= 0 {
                    Some(0)
                } else if !q.distinct && ks.len() == 0 {
                    let total: usize = rows.len();
                    if (n as u64) < total as u64 {
                        Some(n as usize)
                    } else {
                        None
                    }
                } else {
                    None
                }
            },
            None => None,
        };
        proof {
            let w = wanted(q.distinct, ks@, q.limit);
            if w > 0 && want is None {
                lemma_enough(
                    *f,
                    opt_tree(q.filter),
                    trees(es@),
                    sch_view(s@),
                    row_views(rows@),
                    w,
                );
            }
        }
        stream(f, &q.filter, &es, s, rows, want)
    };
    match body {
        Ok(rs) => {
            let width: usize = es.len();
            let out: Vec<Row> = finish_rows(&rs, width, q.distinct, &ks, q.limit);
            Some(Ok(ResultSet { columns, rows: out }))
        },
        Err(e) => Some(Err(e)),
    }
}

/// Asking for as many rows as there are is asking for all.
proof fn lemma_enough<E: Fn(&Expr, &Sch, &Row) -> Result<Keyed, ExecError>>(
    f: E,
    pred: Option<ExprView>,
    es: Seq<ExprView>,
    s: Cols,
    rows: Seq<Seq<ValueView>>,
    want: int,
)
    requires
        want >= rows.len(),
    ensures
        streamed(f, pred, es, s, rows, want) == streamed(f, pred, es, s, rows, -1),
{
    lemma_any_want(f, pred, es, s, rows, want, -1);
}

proof fn lemma_any_want<E: Fn(&Expr, &Sch, &Row) -> Result<Keyed, ExecError>>(
    f: E,
    pred: Option<ExprView>,
    es: Seq<ExprView>,
    s: Cols,
    rows: Seq<Seq<ValueView>>,
    want: int,
    w: int,
)
    requires
        want >= rows.len(),
        w < 0,
    ensures
        streamed(f, pred, es, s, rows, want) == streamed(f, pred, es, s, rows, w),
    decreases rows.len(),
{
    if rows.len() > 0 {
        lemma_any_want(f, pred, es, s, rows.drop_first(), want, w);
        lemma_any_want(f, pred, es, s, rows.drop_first(), want - 1, w - 1);
    }
}

// ---- from tables ----

/// The columns of a table under an alias.
pub open spec fn table_cols(alias: Seq<char>, schema: Schema) -> Cols {
    Seq::new(schema.columns@.len(), |i: int| (alias, schema.columns@[i].name@))
}

/// A query over one table.
pub fn try_stream<
    E: Fn(&Expr, &Sch, &Row) -> Result<Keyed, ExecError>,
    A: Fn(bool, &Vec<Value>) -> Value,
>(
    f: &E,
    a: &A,
    q: &Select,
    alias: &String,
    schema: &Schema,
    rows: &Vec<Row>,
) -> (o: Option<Result<ResultSet, ExecError>>)
    requires
        steady_eval(*f),
        steady_floats(*a),
    ensures
        finished(*f, *a, *q, table_cols(alias@, *schema), row_views(rows@), o),
{
    let s: Sch = bindings(alias, schema);
    assert(sch_view(s@) =~= table_cols(alias@, *schema));
    finish(f, a, q, &s, rows)
}

/// The joined tables: in the order `order` where the joins can be reordered and every
/// table of it is connected to those before, else as they are written.
pub open spec fn joined_tables<E: Fn(&Expr, &Sch, &Row) -> Result<Keyed, ExecError>>(
    f: E,
    kinds: Seq<JoinKind>,
    ons: Seq<ExprView>,
    schs: Seq<Cols>,
    tables: Seq<Seq<Seq<ValueView>>>,
    order: Option<Seq<usize>>,
    r: Option<(Cols, Seq<Seq<ValueView>>)>,
) -> bool {
    ||| exists|es: Seq<EdgeView>, steps: Seq<StepView>|
        order is Some && #[trigger] edges_of(kinds, ons, schs, Some(es)) && #[trigger] steps_for(
            order->0,
            es,
            Some(steps),
        ) && r == refolded(f, steps, schs, tables, steps.len() - 1)
    ||| {
        &&& order is Some ==> forall|es: Seq<EdgeView>, steps: Seq<StepView>|
            #[trigger] edges_of(kinds, ons, schs, Some(es)) ==> !(#[trigger] steps_for(
                order->0,
                es,
                Some(steps),
            ))
        &&& r == folded(f, kinds, ons, schs, tables, ons.len() as int)
    }
}

pub open spec fn order_of(o: Option<Vec<usize>>) -> Option<Seq<usize>> {
    match o {
        Some(v) => Some(v@),
        None => None,
    }
}

/// Join the tables of a query.
pub fn join_tables<E: Fn(&Expr, &Sch, &Row) -> Result<Keyed, ExecError>>(
    f: &E,
    kinds: &Vec<JoinKind>,
    ons: &Vec<Expr>,
    schs: &Vec<Sch>,
    tables: &Vec<Vec<Row>>,
    order: &Option<Vec<usize>>,
) -> (o: Option<(Sch, Vec<Row>)>)
    requires
        steady_eval(*f),
        kinds@.len() == ons@.len(),
        schs@.len() == ons@.len() + 1,
        tables@.len() == ons@.len() + 1,
        *order matches Some(v) ==> v@.len() > 0 && forall|i: int|
            0 <= i < v@.len() ==> (#[trigger] v@[i]) < tables@.len(),
    ensures
        joined_tables(
            *f,
            kinds@,
            expr_views(ons@),
            schemas(schs@),
            group_views(tables@),
            order_of(*order),
            joined_view(o),
        ),
{
    let ghost os = expr_views(ons@);
    let ghost ss = schemas(schs@);
    if let Some(v) = order {
        let edges: Option<Vec<Edge>> = join_edges(kinds, ons, schs);
        match edges {
            Some(es) => {
                let ghost ev = edge_views(es@);
                match build_steps(v, &es) {
                    Some(steps) => {
                        let ghost sv = step_views(steps@);
                        proof {
                            assert(opt_steps(Some(steps)) == Some(sv));
                            assert forall|i: int| 0 <= i < steps@.len() implies (
                            #[trigger] steps@[i]).table < tables@.len() && (i >= 1
                                ==> steps@[i].key is Some) by {
                                assert(sv[i] == steps@[i]@);
                                assert(v@[i] < tables@.len());
                            }
                            assert(edges_of(kinds@, os, ss, Some(ev)));
                            assert(steps_for(v@, ev, Some(sv)));
                        }
                        return fold_reordered(f, &steps, schs, tables);
                    },
                    None => {
                        proof {
                            assert forall|e2: Seq<EdgeView>, steps: Seq<StepView>|
                                #[trigger] edges_of(kinds@, os, ss, Some(e2)) implies !(
                            #[trigger] steps_for(v@, e2, Some(steps))) by {
                                assert(e2 =~= ev);
                            }
                        }
                    },
                }
            },
            None => {},
        }
    }
    fold_from_order(f, kinds, ons, schs, tables)
}

/// What streaming a query over joined tables came to: `None` unless there is a condition for
/// every table behind the first and the tables can be joined and the rest be streamed.
pub open spec fn join_streamed<
    E: Fn(&Expr, &Sch, &Row) -> Result<Keyed, ExecError>,
    A: Fn(bool, &Vec<Value>) -> Value,
>(
    f: E,
    a: A,
    q: Select,
    kinds: Seq<JoinKind>,
    ons: Seq<ExprView>,
    schs: Seq<Cols>,
    tables: Seq<Seq<Seq<ValueView>>>,
    order: Option<Seq<usize>>,
    o: Option<Result<ResultSet, ExecError>>,
) -> bool {
    &&& ons.len() == 0 || ons.len() + 1 != tables.len() ==> o is None
    &&& ons.len() > 0 && ons.len() + 1 == tables.len() ==> exists|
        r: Option<(Cols, Seq<Seq<ValueView>>)>,
    | #[trigger]
        joined_tables(f, kinds, ons, schs, tables, order, r) && match r {
            None => o is None,
            Some((c, rows)) => finished(f, a, q, c, rows, o),
        }
}

/// A query over joined tables. `order` is the table order that the cost model chose,
/// if it chose one.
pub fn try_stream_join<
    E: Fn(&Expr, &Sch, &Row) -> Result<Keyed, ExecError>,
    A: Fn(bool, &Vec<Value>) -> Value,
>(
    f: &E,
    a: &A,
    q: &Select,
    kinds: &Vec<JoinKind>,
    ons: &Vec<Expr>,
    schs: &Vec<Sch>,
    tables: &Vec<Vec<Row>>,
    order: &Option<Vec<usize>>,
) -> (o: Option<Result<ResultSet, ExecError>>)
    requires
        steady_eval(*f),
        steady_floats(*a),
        kinds@.len() == ons@.len(),
        schs@.len() == tables@.len(),
        *order matches Some(v) ==> v@.len() > 0 && forall|i: int|
            0 <= i < v@.len() ==> (#[trigger] v@[i]) < tables@.len(),
    ensures
        join_streamed(
            *f,
            *a,
            *q,
            kinds@,
            expr_views(ons@),
            schemas(schs@),
            group_views(tables@),
            order_of(*order),
            o,
        ),
{
    let m: usize = ons.len();
    if m == 0 || tables.len() == 0 || tables.len() - 1 != m {
        return None;
    }
    let joined: Option<(Sch, Vec<Row>)> = join_tables(f, kinds, ons, schs, tables, order);
    let ghost r = joined_view(joined);
    assert(joined_tables(
        *f,
        kinds@,
        expr_views(ons@),
        schemas(schs@),
        group_views(tables@),
        order_of(*order),
        r,
    ));
    match joined {
        Some((s, rows)) => finish(f, a, q, &s, &rows),
        None => None,
    }
}

} // verus!
