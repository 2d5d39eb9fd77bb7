//! Planning rules: what an expression contains and where its columns are bound,
//! which predicates an index can serve, and how tables are joined.

use vstd::prelude::*;

use crate::db::ast::{lemma_trees, text_view, trees, BinOp, Expr, ExprView, Node, NodeView};
use crate::db::catalog::{flip_op, flipped, IndexMeta, Schema};
use crate::types::{ColumnType, Value, ValueView};

verus! {

/// The columns a row has: the table each comes from and its name.
pub type Sch = Vec<(String, String)>;

pub open spec fn sch_view(s: Seq<(String, String)>) -> Seq<(Seq<char>, Seq<char>)> {
    s.map_values(|c: (String, String)| (c.0@, c.1@))
}

/// The columns of a table scanned under `alias`.
pub fn bindings(alias: &String, schema: &Schema) -> (s: Sch)
    ensures
        s@.len() == schema.columns@.len(),
        forall|i: int|
            0 <= i < s@.len() ==> (#[trigger] sch_view(s@)[i]) == (
                alias@,
                schema.columns@[i].name@,
            ),
{
    let mut s: Sch = Vec::new();
    let mut i: usize = 0;
    while i < schema.columns.len()
        invariant
            i <= schema.columns@.len(),
            s@.len() == i,
            forall|j: int|
                0 <= j < i ==> (#[trigger] s@[j]).0@ == alias@ && s@[j].1@
                    == schema.columns@[j].name@,
        decreases schema.columns@.len() - i,
    {
        s.push((alias.clone(), schema.columns[i].name.clone()));
        i = i + 1;
    }
    s
}

// ---- what an expression contains ----

/// A node whose operands are looked into.
pub open spec fn inner(n: NodeView) -> bool {
    n is Binary || n is Unary || n is IsNull || n is InList || n is Case
}

/// An aggregate occurs.
pub open spec fn has_agg(e: ExprView) -> bool
    decreases e, 1int,
{
    e.node is Aggregate || inner(e.node) && any_agg(e.kids)
}

pub open spec fn any_agg(es: Seq<ExprView>) -> bool
    decreases es, 0int,
{
    if es.len() == 0 {
        false
    } else {
        any_agg(es.drop_last()) || has_agg(es.last())
    }
}

fn node_is_inner(n: &Node) -> (r: bool)
    ensures
        r == inner(n@),
{
    match n {
        Node::Binary(_) | Node::Unary(_) | Node::IsNull { .. } | Node::InList { .. }
        | Node::Case { .. } => true,
        _ => false,
    }
}

pub fn contains_agg(e: &Expr) -> (r: bool)
    ensures
        r == has_agg(e@),
    decreases e,
{
    if let Node::Aggregate { .. } = &e.node {
        return true;
    }
    if !node_is_inner(&e.node) {
        return false;
    }
    let n: usize = e.kids.len();
    let mut any: bool = false;
    let mut i: usize = 0;
    while i < n
        invariant
            i <= n == e.kids@.len(),
            any == any_agg(trees(e.kids@.take(i as int))),
        decreases n - i,
    {
        proof {
            assert(decreases_to!(e => e.kids@[i as int]));
            let t = e.kids@.take(i + 1);
            assert(t.drop_last() =~= e.kids@.take(i as int));
            assert(trees(t).drop_last() =~= trees(e.kids@.take(i as int)));
        }
        if contains_agg(&e.kids[i]) {
            any = true;
        }
        i = i + 1;
    }
    assert(e.kids@.take(i as int) =~= e.kids@);
    any
}

/// No subquery occurs.
pub open spec fn plain(e: ExprView) -> bool
    decreases e, 1int,
{
    !(e.node is Subquery) && all_plain(e.kids)
}

pub open spec fn all_plain(es: Seq<ExprView>) -> bool
    decreases es, 0int,
{
    if es.len() == 0 {
        true
    } else {
        all_plain(es.drop_last()) && plain(es.last())
    }
}

pub fn is_subquery_free(e: &Expr) -> (r: bool)
    ensures
        r == plain(e@),
    decreases e,
{
    if let Node::Subquery(_) = &e.node {
        return false;
    }
    let n: usize = e.kids.len();
    let mut all: bool = true;
    let mut i: usize = 0;
    while i < n
        invariant
            i <= n == e.kids@.len(),
            all == all_plain(trees(e.kids@.take(i as int))),
        decreases n - i,
    {
        proof {
            assert(decreases_to!(e => e.kids@[i as int]));
            let t = e.kids@.take(i + 1);
            assert(t.drop_last() =~= e.kids@.take(i as int));
            assert(trees(t).drop_last() =~= trees(e.kids@.take(i as int)));
        }
        if !is_subquery_free(&e.kids[i]) {
            all = false;
        }
        i = i + 1;
    }
    assert(e.kids@.take(i as int) =~= e.kids@);
    all
}

// ---- where columns are bound ----

/// How many columns a reference could mean.
pub open spec fn candidates(
    sch: Seq<(Seq<char>, Seq<char>)>,
    table: Option<Seq<char>>,
    name: Seq<char>,
) -> nat
    decreases sch.len(),
{
    if sch.len() == 0 {
        0
    } else {
        candidates(sch.drop_last(), table, name) + if sch.last().1 == name && (table is None
            || table == Some(sch.last().0)) {
            1nat
        } else {
            0nat
        }
    }
}

/// Every column of `e` is found, without doubt, in `sch`.
pub open spec fn binds(e: ExprView, sch: Seq<(Seq<char>, Seq<char>)>) -> bool
    decreases e, 1int,
{
    match e.node {
        NodeView::Column { table, name } => candidates(sch, table, name) == 1,
        NodeView::Literal(_) => true,
        NodeView::Binary(_) | NodeView::Unary(_) | NodeView::IsNull { .. } => all_bind(e.kids, sch),
        _ => false,
    }
}

pub open spec fn all_bind(es: Seq<ExprView>, sch: Seq<(Seq<char>, Seq<char>)>) -> bool
    decreases es, 0int,
{
    if es.len() == 0 {
        true
    } else {
        all_bind(es.drop_last(), sch) && binds(es.last(), sch)
    }
}

fn count_candidates(sch: &Sch, table: &Option<String>, name: &String) -> (n: usize)
    ensures
        n == candidates(sch_view(sch@), text_view(*table), name@),
{
    let ghost sv = sch_view(sch@);
    let mut n: usize = 0;
    let mut i: usize = 0;
    while i < sch.len()
        invariant
            n <= i <= sch@.len(),
            sv == sch_view(sch@),
            n == candidates(sv.take(i as int), text_view(*table), name@),
        decreases sch@.len() - i,
    {
        proof {
            let t = sv.take(i + 1);
            assert(t.drop_last() =~= sv.take(i as int));
            assert(t.last() == (sch@[i as int].0@, sch@[i as int].1@));
        }
        let here: bool = match table {
            Some(t) => *t == sch[i].0,
            None => true,
        };
        if here && sch[i].1 == *name {
            n = n + 1;
        }
        i = i + 1;
    }
    assert(sv.take(i as int) =~= sv);
    n
}

/// Does every column referenced by `e` resolve (unambiguously) in `sch`?
pub fn binds_in(e: &Expr, sch: &Sch) -> (r: bool)
    ensures
        r == binds(e@, sch_view(sch@)),
    decreases e,
{
    match &e.node {
        Node::Column { table, name } => {
            return count_candidates(sch, table, name) == 1;
        },
        Node::Literal(_) => {
            return true;
        },
        Node::Binary(_) | Node::Unary(_) | Node::IsNull { .. } => {},
        _ => {
            return false;
        },
    }
    let n: usize = e.kids.len();
    let mut all: bool = true;
    let mut i: usize = 0;
    while i < n
        invariant
            i <= n == e.kids@.len(),
            all == all_bind(trees(e.kids@.take(i as int)), sch_view(sch@)),
        decreases n - i,
    {
        proof {
            assert(decreases_to!(e => e.kids@[i as int]));
            let t = e.kids@.take(i + 1);
            assert(t.drop_last() =~= e.kids@.take(i as int));
            assert(trees(t).drop_last() =~= trees(e.kids@.take(i as int)));
        }
        if !binds_in(&e.kids[i], sch) {
            all = false;
        }
        i = i + 1;
    }
    assert(e.kids@.take(i as int) =~= e.kids@);
    all
}

// ---- predicates that an index serves ----

/// The predicates that all have to hold.
pub open spec fn conjuncts(e: ExprView) -> Seq<ExprView>
    decreases e,
{
    if e.node == NodeView::Binary(BinOp::And) && e.kids.len() == 2 {
        conjuncts(e.kids[0]) + conjuncts(e.kids[1])
    } else {
        seq![e]
    }
}

pub open spec fn seen(es: Seq<&Expr>) -> Seq<ExprView> {
    es.map_values(|e: &Expr| e@)
}

pub fn collect_conjuncts<'a>(e: &'a Expr, out: &mut Vec<&'a Expr>)
    ensures
        seen(final(out)@) == seen(old(out)@) + conjuncts(e@),
    decreases e,
{
    proof {
        lemma_trees(e.kids@);
    }
    let both: bool = match &e.node {
        Node::Binary(BinOp::And) => e.kids.len() == 2,
        _ => false,
    };
    if both {
        proof {
            assert(decreases_to!(e => e.kids@[0]));
            assert(decreases_to!(e => e.kids@[1]));
        }
        collect_conjuncts(&e.kids[0], out);
        collect_conjuncts(&e.kids[1], out);
        assert(seen(out@) =~= seen(old(out)@) + conjuncts(e@));
    } else {
        out.push(e);
        assert(seen(out@) =~= seen(old(out)@) + conjuncts(e@));
    }
}

pub open spec fn comparison(op: BinOp) -> bool {
    op is Eq || op is Lt || op is Le || op is Gt || op is Ge
}

/// A comparison of a column with a literal, written column first.
pub open spec fn column_test(e: ExprView) -> Option<(Seq<char>, BinOp, ValueView)> {
    match e.node {
        NodeView::Binary(op) => if comparison(op) && e.kids.len() == 2 {
            match (e.kids[0].node, e.kids[1].node) {
                (NodeView::Column { table: _, name }, NodeView::Literal(v)) => Some((name, op, v)),
                (NodeView::Literal(v), NodeView::Column { table: _, name }) => Some(
                    (name, flipped(op), v),
                ),
                _ => None,
            }
        } else {
            None
        },
        _ => None,
    }
}

pub fn cmp_col_lit(e: &Expr) -> (r: Option<(String, BinOp, Value)>)
    ensures
        match r {
            Some((name, op, v)) => column_test(e@) == Some((name@, op, v@)),
            None => column_test(e@) is None,
        },
{
    proof {
        lemma_trees(e.kids@);
    }
    let op: BinOp = match &e.node {
        Node::Binary(op) => *op,
        _ => {
            return None;
        },
    };
    let fits: bool = match op {
        BinOp::Eq | BinOp::Lt | BinOp::Le | BinOp::Gt | BinOp::Ge => true,
        _ => false,
    };
    if !fits || e.kids.len() != 2 {
        return None;
    }
    match (&e.kids[0].node, &e.kids[1].node) {
        (Node::Column { table: _, name }, Node::Literal(v)) => Some((name.clone(), op, v.clone())),
        (Node::Literal(v), Node::Column { table: _, name }) => Some(
            (name.clone(), flip_op(op), v.clone()),
        ),
        _ => None,
    }
}

/// The column of the name, if there is one.
pub open spec fn column_named(schema: &Schema, name: Seq<char>, i: int) -> bool {
    &&& 0 <= i < schema.columns@.len()
    &&& schema.columns@[i].name@ == name
    &&& forall|j: int| 0 <= j < i ==> (#[trigger] schema.columns@[j]).name@ != name
}

/// The first index on the column.
pub open spec fn index_on(idxs: Seq<IndexMeta>, tid: u16, col: int, k: int) -> bool {
    &&& 0 <= k < idxs.len()
    &&& idxs[k].table_id == tid && idxs[k].col_index == col
    &&& forall|j: int|
        0 <= j < k ==> !((#[trigger] idxs[j]).table_id == tid && idxs[j].col_index == col)
}

/// A predicate that index `index` could serve.
pub struct Probe {
    pub index: usize,
    pub op: BinOp,
    pub value: Value,
}

/// `p` is how an index serves predicate `e`.
pub open spec fn serves(
    p: Probe,
    e: ExprView,
    schema: &Schema,
    idxs: Seq<IndexMeta>,
    tid: u16,
) -> bool {
    match column_test(e) {
        Some((name, op, v)) => {
            &&& v != ValueView::Null
            &&& p.op == op
            &&& p.value@ == v
            &&& exists|i: int|
                column_named(schema, name, i) && #[trigger] index_on(idxs, tid, i, p.index as int)
        },
        None => false,
    }
}

/// No index serves predicate `e`.
pub open spec fn unserved(e: ExprView, schema: &Schema, idxs: Seq<IndexMeta>, tid: u16) -> bool {
    match column_test(e) {
        Some((name, op, v)) => v == ValueView::Null || forall|i: int, k: int|
            column_named(schema, name, i) ==> !(#[trigger] index_on(idxs, tid, i, k)),
        None => true,
    }
}

fn find_index(idxs: &Vec<IndexMeta>, tid: u16, col: usize) -> (r: Option<usize>)
    ensures
        match r {
            Some(k) => index_on(idxs@, tid, col as int, k as int),
            None => forall|k: int| !(#[trigger] index_on(idxs@, tid, col as int, k)),
        },
{
    let mut k: usize = 0;
    while k < idxs.len()
        invariant
            k <= idxs@.len(),
            forall|j: int|
                0 <= j < k ==> !((#[trigger] idxs@[j]).table_id == tid && idxs@[j].col_index == col),
        decreases idxs@.len() - k,
    {
        if idxs[k].table_id == tid && idxs[k].col_index == col {
            return Some(k);
        }
        k = k + 1;
    }
    None
}

proof fn lemma_one_column(schema: &Schema, name: Seq<char>, col: usize)
    requires
        column_named(schema, name, col as int),
    ensures
        forall|i: int| column_named(schema, name, i) ==> i == col,
{
    assert forall|i: int| column_named(schema, name, i) implies i == col by {
        if i < col {
            assert(schema.columns@[i].name@ != name);
        } else if col < i {
            assert(schema.columns@[col as int].name@ != name);
        }
    }
}

/// The probe for one predicate.
pub fn probe_for(e: &Expr, schema: &Schema, idxs: &Vec<IndexMeta>, tid: u16) -> (r: Option<Probe>)
    ensures
        match r {
            Some(p) => serves(p, e@, schema, idxs@, tid),
            None => unserved(e@, schema, idxs@, tid),
        },
{
    let (name, op, value): (String, BinOp, Value) = match cmp_col_lit(e) {
        Some(t) => t,
        None => {
            return None;
        },
    };
    if value.is_null() {
        return None;
    }
    let col: usize = match schema.column_index(name.as_str()) {
        Some(c) => c,
        None => {
            return None;
        },
    };
    proof {
        lemma_one_column(schema, name@, col);
    }
    match find_index(idxs, tid, col) {
        Some(index) => {
            let p: Probe = Probe { index, op, value };
            proof {
                lemma_serves(p, e@, schema, idxs@, tid, name@, col);
            }
            Some(p)
        },
        None => None,
    }
}

proof fn lemma_serves(
    p: Probe,
    e: ExprView,
    schema: &Schema,
    idxs: Seq<IndexMeta>,
    tid: u16,
    name: Seq<char>,
    col: usize,
)
    requires
        column_test(e) == Some((name, p.op, p.value@)),
        p.value@ != ValueView::Null,
        column_named(schema, name, col as int),
        index_on(idxs, tid, col as int, p.index as int),
    ensures
        serves(p, e, schema, idxs, tid),
{
}

/// `coerce` may make `out` of a value.
pub open spec fn coerced<G: Fn(Value, ColumnType) -> Option<Value>>(
    coerce: G,
    v: Value,
    t: ColumnType,
    out: Option<Value>,
) -> bool {
    coerce.ensures((v, t), out)
}

/// What comes of one predicate: the probe that serves it, with its literal as a value of the
/// column's type, or none.
pub open spec fn probed<G: Fn(Value, ColumnType) -> Option<Value>>(
    out: Option<Probe>,
    e: ExprView,
    schema: &Schema,
    idxs: Seq<IndexMeta>,
    tid: u16,
    coerce: G,
) -> bool {
    match out {
        Some(p) => exists|v: Value| #[trigger]
            coerced(coerce, v, idxs[p.index as int].col_type, Some(p.value)) && serves(
                Probe { value: v, ..p },
                e,
                schema,
                idxs,
                tid,
            ),
        None => unserved(e, schema, idxs, tid) || exists|p: Probe| #[trigger]
            serves(p, e, schema, idxs, tid) && coerced(
                coerce,
                p.value,
                idxs[p.index as int].col_type,
                None,
            ),
    }
}

/// Which probe is used of those that came of `n` predicates: the first equality, at which the
/// search stops, or else the first there is.
pub open spec fn best_probe(outs: Seq<Option<Probe>>, n: int, r: Option<Probe>) -> bool {
    &&& outs.len() <= n
    &&& forall|j: int|
        0 <= j < outs.len() - 1 ==> !((#[trigger] outs[j]) matches Some(p) && p.op is Eq)
    &&& if outs.len() > 0 && outs.last() is Some && outs.last()->0.op is Eq {
        r == outs.last()
    } else {
        &&& outs.len() == n
        &&& match r {
            Some(p) => exists|i: int|
                0 <= i < n && #[trigger] outs[i] == Some(p) && forall|j: int|
                    0 <= j < i ==> (#[trigger] outs[j]) is None,
            None => forall|j: int| 0 <= j < n ==> (#[trigger] outs[j]) is None,
        }
    }
}

/// The probes came of the first predicates of a conjunction.
pub open spec fn all_probed<G: Fn(Value, ColumnType) -> Option<Value>>(
    outs: Seq<Option<Probe>>,
    es: Seq<ExprView>,
    schema: &Schema,
    idxs: Seq<IndexMeta>,
    tid: u16,
    coerce: G,
) -> bool {
    forall|j: int|
        0 <= j < outs.len() ==> probed(#[trigger] outs[j], es[j], schema, idxs, tid, coerce)
}

/// `r` is how an index serves a filter, if one does.
pub open spec fn probe_of<G: Fn(Value, ColumnType) -> Option<Value>>(
    filter: ExprView,
    schema: &Schema,
    idxs: Seq<IndexMeta>,
    tid: u16,
    coerce: G,
    r: Option<Probe>,
) -> bool {
    exists|outs: Seq<Option<Probe>>| #[trigger]
        best_probe(outs, conjuncts(filter).len() as int, r) && all_probed(
            outs,
            conjuncts(filter),
            schema,
            idxs,
            tid,
            coerce,
        )
}

/// The index that serves a filter: that of its first equality with a literal that `coerce`
/// makes a value of the column's type, or else of its first such comparison.
pub fn find_indexed_pred<G: Fn(Value, ColumnType) -> Option<Value>>(
    filter: &Expr,
    schema: &Schema,
    idxs: &Vec<IndexMeta>,
    tid: u16,
    coerce: G,
) -> (r: Option<Probe>)
    requires
        forall|v: Value, t: ColumnType| #[trigger] coerce.requires((v, t)),
    ensures
        probe_of(filter@, schema, idxs@, tid, coerce, r),
{
    let mut conj: Vec<&Expr> = Vec::new();
    collect_conjuncts(filter, &mut conj);
    let ghost es = conjuncts(filter@);
    proof {
        assert(seen(conj@) =~= es);
    }
    let ghost mut outs: Seq<Option<Probe>> = Seq::empty();
    let mut best: Option<Probe> = None;
    let mut i: usize = 0;
    while i < conj.len()
        invariant
            i <= conj@.len(),
            seen(conj@) == es,
            es == conjuncts(filter@),
            outs.len() == i,
            forall|v: Value, t: ColumnType| #[trigger] coerce.requires((v, t)),
            all_probed(outs, es, schema, idxs@, tid, coerce),
            forall|j: int|
                0 <= j < i ==> !((#[trigger] outs[j]) matches Some(p) && p.op is Eq),
            match best {
                Some(p) => exists|k: int|
                    0 <= k < i && #[trigger] outs[k] == Some(p) && forall|j: int|
                        0 <= j < k ==> (#[trigger] outs[j]) is None,
                None => forall|j: int| 0 <= j < i ==> (#[trigger] outs[j]) is None,
            },
        decreases conj@.len() - i,
    {
        let e: &Expr = conj[i];
        assert(seen(conj@)[i as int] == e@);
        let mut out: Option<Probe> = None;
        if let Some(p) = probe_for(e, schema, idxs, tid) {
            let index: usize = p.index;
            let op: BinOp = p.op;
            let ghost was = p;
            assert(index < idxs@.len());
            let made: Option<Value> = coerce(p.value, idxs[index].col_type);
            assert(coerced(coerce, was.value, idxs@[index as int].col_type, made));
            if let Some(v) = made {
                out = Some(Probe { index, op, value: v });
                assert(was == (Probe { value: was.value, ..out->0 }));
            }
        }
        let ghost before = outs;
        proof {
            outs = outs.push(out);
            assert forall|j: int| 0 <= j < outs.len() implies probed(
                #[trigger] outs[j],
                es[j],
                schema,
                idxs@,
                tid,
                coerce,
            ) by {
                if j < before.len() {
                    assert(outs[j] == before[j]);
                }
            }
            assert forall|j: int| 0 <= j < i implies outs[j] == #[trigger] before[j] by {}
        }
        if let Some(p) = out {
            let equal: bool = match p.op {
                BinOp::Eq => true,
                _ => false,
            };
            if equal {
                proof {
                    assert(best_probe(outs, es.len() as int, Some(p)));
                }
                return Some(p);
            }
            if best.is_none() {
                best = Some(p);
                proof {
                    assert(outs[i as int] == Some(p));
                }
            }
        }
        proof {
            if best is Some && before != outs {
                let p = best->0;
                if exists|k: int|
                    0 <= k < i && #[trigger] before[k] == Some(p) && forall|j: int|
                        0 <= j < k ==> (#[trigger] before[j]) is None {
                    let k = choose|k: int|
                        0 <= k < i && #[trigger] before[k] == Some(p) && forall|j: int|
                            0 <= j < k ==> (#[trigger] before[j]) is None;
                    assert(outs[k] == Some(p));
                }
            }
        }
        i = i + 1;
    }
    proof {
        assert(best_probe(outs, es.len() as int, best));
    }
    best
}

} // verus!
