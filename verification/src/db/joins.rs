//! Join planning: which tables an `ON` clause connects, and the steps in which a
//! chosen order folds the tables in.

use vstd::prelude::*;

use crate::db::ast::{binary, lemma_trees, BinOp, Expr, ExprView, Node, NodeView};
use crate::db::plan::{binds, binds_in, sch_view, Sch};

verus! {

#[derive(Clone, Copy, Debug, PartialEq, Eq, Structural)]
pub enum JoinKind {
    Inner,
    Left,
}

/// An equijoin between two tables: `akey` of table `a` equals `bkey` of table `b`.
pub struct Edge {
    pub a: usize,
    pub akey: Expr,
    pub b: usize,
    pub bkey: Expr,
}

pub ghost struct EdgeView {
    pub a: usize,
    pub akey: ExprView,
    pub b: usize,
    pub bkey: ExprView,
}

impl View for Edge {
    type V = EdgeView;

    open spec fn view(&self) -> EdgeView {
        EdgeView { a: self.a, akey: self.akey@, b: self.b, bkey: self.bkey@ }
    }
}

pub open spec fn edge_views(es: Seq<Edge>) -> Seq<EdgeView> {
    es.map_values(|e: Edge| e@)
}

pub open spec fn schemas(ss: Seq<Sch>) -> Seq<Seq<(Seq<char>, Seq<char>)>> {
    ss.map_values(|s: Sch| sch_view(s@))
}

/// Table `i` binds `e`, and no other does.
pub open spec fn only_in(e: ExprView, schs: Seq<Seq<(Seq<char>, Seq<char>)>>, i: int) -> bool {
    &&& 0 <= i < schs.len()
    &&& binds(e, schs[i])
    &&& forall|j: int| 0 <= j < schs.len() && j != i ==> !binds(e, #[trigger] schs[j])
}

/// The table that binds `e`, if there is exactly one.
pub open spec fn sole(e: ExprView, schs: Seq<Seq<(Seq<char>, Seq<char>)>>) -> Option<usize> {
    if exists|i: int| #[trigger] only_in(e, schs, i) && i <= usize::MAX {
        Some((choose|i: int| #[trigger] only_in(e, schs, i) && i <= usize::MAX) as usize)
    } else {
        None
    }
}

proof fn lemma_sole(e: ExprView, schs: Seq<Seq<(Seq<char>, Seq<char>)>>, i: int)
    requires
        only_in(e, schs, i),
        i <= usize::MAX,
    ensures
        sole(e, schs) == Some(i as usize),
{
    let k = choose|k: int| #[trigger] only_in(e, schs, k) && k <= usize::MAX;
    assert(only_in(e, schs, k));
    if k != i {
        assert(!binds(e, schs[k]));
    }
}

/// The unique table whose schema binds every column of `e`.
pub fn sole_table(e: &Expr, schs: &Vec<Sch>) -> (r: Option<usize>)
    ensures
        r == sole(e@, schemas(schs@)),
        r matches Some(i) ==> i < schs@.len(),
{
    let ghost ss = schemas(schs@);
    let mut found: Option<usize> = None;
    let mut i: usize = 0;
    while i < schs.len()
        invariant
            i <= schs@.len(),
            ss == schemas(schs@),
            match found {
                Some(f) => f < i && binds(e@, ss[f as int]) && forall|j: int|
                    0 <= j < i && j != f ==> !binds(e@, #[trigger] ss[j]),
                None => forall|j: int| 0 <= j < i ==> !binds(e@, #[trigger] ss[j]),
            },
        decreases schs@.len() - i,
    {
        assert(ss[i as int] == sch_view(schs@[i as int]@));
        if binds_in(e, &schs[i]) {
            if let Some(f) = found {
                proof {
                    assert forall|k: int| !(#[trigger] only_in(e@, ss, k)) by {
                        if only_in(e@, ss, k) {
                            if k == i {
                                assert(!binds(e@, ss[f as int]));
                            } else {
                                assert(!binds(e@, ss[i as int]));
                            }
                        }
                    }
                }
                return None;
            }
            found = Some(i);
        }
        i = i + 1;
    }
    proof {
        match found {
            Some(f) => {
                assert(only_in(e@, ss, f as int));
                lemma_sole(e@, ss, f as int);
            },
            None => {},
        }
    }
    found
}

pub open spec fn equality(e: ExprView) -> bool {
    e.node == NodeView::Binary(BinOp::Eq) && e.kids.len() == 2
}

fn is_equality(e: &Expr) -> (r: bool)
    ensures
        r == equality(e@),
{
    proof {
        lemma_trees(e.kids@);
    }
    match &e.node {
        Node::Binary(BinOp::Eq) => e.kids.len() == 2,
        _ => false,
    }
}

/// The key of the left side and the key of the right side that an `ON` clause asks
/// to be equal: each side resolves in one schema only.
pub open spec fn equijoin(
    on: ExprView,
    l: Seq<(Seq<char>, Seq<char>)>,
    r: Seq<(Seq<char>, Seq<char>)>,
) -> Option<(ExprView, ExprView)> {
    let x = on.kids[0];
    let y = on.kids[1];
    if !equality(on) {
        None
    } else if binds(x, l) && !binds(x, r) && binds(y, r) && !binds(y, l) {
        Some((x, y))
    } else if binds(y, l) && !binds(y, r) && binds(x, r) && !binds(x, l) {
        Some((y, x))
    } else {
        None
    }
}

pub fn extract_equijoin(on: &Expr, lsch: &Sch, rsch: &Sch) -> (r: Option<(Expr, Expr)>)
    ensures
        match r {
            Some((x, y)) => equijoin(on@, sch_view(lsch@), sch_view(rsch@)) == Some((x@, y@)),
            None => equijoin(on@, sch_view(lsch@), sch_view(rsch@)) is None,
        },
{
    proof {
        lemma_trees(on.kids@);
    }
    if !is_equality(on) {
        return None;
    }
    let x: &Expr = &on.kids[0];
    let y: &Expr = &on.kids[1];
    if binds_in(x, lsch) && !binds_in(x, rsch) && binds_in(y, rsch) && !binds_in(y, lsch) {
        Some((x.copy(), y.copy()))
    } else if binds_in(y, lsch) && !binds_in(y, rsch) && binds_in(x, rsch) && !binds_in(x, lsch) {
        Some((y.copy(), x.copy()))
    } else {
        None
    }
}

// ---- reordering ----

/// The edge an `ON` clause makes: an equality whose sides each belong to one table,
/// and not to the same.
pub open spec fn edge_of(
    on: ExprView,
    schs: Seq<Seq<(Seq<char>, Seq<char>)>>,
) -> Option<EdgeView> {
    let a = sole(on.kids[0], schs);
    let b = sole(on.kids[1], schs);
    if equality(on) && a is Some && b is Some && a != b {
        Some(EdgeView { a: a->0, akey: on.kids[0], b: b->0, bkey: on.kids[1] })
    } else {
        None
    }
}

/// The edges of a query whose joins can be put in any order: all inner, each on a
/// clean equality between two tables, and no more than a dozen tables.
pub open spec fn edges_of(
    kinds: Seq<JoinKind>,
    ons: Seq<ExprView>,
    schs: Seq<Seq<(Seq<char>, Seq<char>)>>,
    r: Option<Seq<EdgeView>>,
) -> bool {
    let fit = schs.len() <= 12 && (forall|i: int|
        0 <= i < kinds.len() ==> #[trigger] kinds[i] is Inner) && (forall|i: int|
        0 <= i < ons.len() ==> edge_of(#[trigger] ons[i], schs) is Some);
    match r {
        Some(es) => {
            &&& fit
            &&& es.len() == ons.len()
            &&& forall|i: int| 0 <= i < ons.len() ==> #[trigger] es[i] == edge_of(ons[i], schs)->0
        },
        None => !fit,
    }
}

pub open spec fn expr_views(es: Seq<Expr>) -> Seq<ExprView> {
    es.map_values(|e: Expr| e@)
}

pub open spec fn opt_edges(r: Option<Vec<Edge>>) -> Option<Seq<EdgeView>> {
    match r {
        Some(v) => Some(edge_views(v@)),
        None => None,
    }
}

fn make_edge(on: &Expr, schs: &Vec<Sch>) -> (r: Option<Edge>)
    ensures
        match r {
            Some(e) => edge_of(on@, schemas(schs@)) == Some(e@) && e.a < schs@.len() && e.b
                < schs@.len(),
            None => edge_of(on@, schemas(schs@)) is None,
        },
{
    proof {
        lemma_trees(on.kids@);
    }
    if !is_equality(on) {
        return None;
    }
    let a: usize = match sole_table(&on.kids[0], schs) {
        Some(a) => a,
        None => {
            return None;
        },
    };
    let b: usize = match sole_table(&on.kids[1], schs) {
        Some(b) => b,
        None => {
            return None;
        },
    };
    if a == b {
        return None;
    }
    Some(Edge { a, akey: on.kids[0].copy(), b, bkey: on.kids[1].copy() })
}

/// The equijoin edges of a query, or `None` where its tables have to be joined as
/// they are written.
pub fn join_edges(kinds: &Vec<JoinKind>, ons: &Vec<Expr>, schs: &Vec<Sch>) -> (r: Option<
    Vec<Edge>,
>)
    ensures
        edges_of(kinds@, expr_views(ons@), schemas(schs@), opt_edges(r)),
        r matches Some(es) ==> forall|i: int|
            0 <= i < es@.len() ==> (#[trigger] es@[i]).a < schs@.len() && es@[i].b < schs@.len(),
{
    let ghost ss = schemas(schs@);
    let ghost os = expr_views(ons@);
    let mut i: usize = 0;
    while i < kinds.len()
        invariant
            i <= kinds@.len(),
            forall|j: int| 0 <= j < i ==> #[trigger] kinds@[j] is Inner,
        decreases kinds@.len() - i,
    {
        match kinds[i] {
            JoinKind::Inner => {},
            _ => {
                return None;
            },
        }
        i = i + 1;
    }
    let mut es: Vec<Edge> = Vec::new();
    let mut k: usize = 0;
    while k < ons.len()
        invariant
            k <= ons@.len(),
            ss == schemas(schs@),
            os == expr_views(ons@),
            es@.len() == k,
            forall|j: int|
                0 <= j < k ==> edge_of(#[trigger] os[j], ss) == Some(es@[j]@),
            forall|j: int|
                0 <= j < k ==> (#[trigger] es@[j]).a < schs@.len() && es@[j].b < schs@.len(),
        decreases ons@.len() - k,
    {
        assert(os[k as int] == ons@[k as int]@);
        match make_edge(&ons[k], schs) {
            Some(e) => {
                es.push(e);
            },
            None => {
                return None;
            },
        }
        k = k + 1;
    }
    if schs.len() > 12 {
        return None;
    }
    assert forall|j: int| 0 <= j < os.len() implies #[trigger] edge_views(es@)[j] == edge_of(
        os[j],
        ss,
    )->0 by {
        assert(edge_of(os[j], ss) == Some(es@[j]@));
    }
    Some(es)
}

/// The edge connects table `t` to one of `joined`.
pub open spec fn touches(e: EdgeView, t: usize, joined: Seq<usize>) -> bool {
    e.a == t && joined.contains(e.b) || e.b == t && joined.contains(e.a)
}

fn has_table(joined: &Vec<usize>, upto: usize, t: usize) -> (r: bool)
    requires
        upto <= joined@.len(),
    ensures
        r == joined@.take(upto as int).contains(t),
{
    let ghost js = joined@.take(upto as int);
    let mut i: usize = 0;
    while i < upto
        invariant
            i <= upto <= joined@.len(),
            js == joined@.take(upto as int),
            forall|j: int| 0 <= j < i ==> #[trigger] js[j] != t,
        decreases upto - i,
    {
        if joined[i] == t {
            assert(js[i as int] == t);
            return true;
        }
        i = i + 1;
    }
    false
}

fn edge_touches(e: &Edge, t: usize, joined: &Vec<usize>, upto: usize) -> (r: bool)
    requires
        upto <= joined@.len(),
    ensures
        r == touches(e@, t, joined@.take(upto as int)),
{
    e.a == t && has_table(joined, upto, e.b) || e.b == t && has_table(joined, upto, e.a)
}

/// An equijoin edge that joins `t` to some table in `joined`, the first there is.
pub fn connecting_edge(t: usize, joined: &Vec<usize>, edges: &Vec<Edge>) -> (r: Option<usize>)
    ensures
        match r {
            Some(k) => k < edges@.len() && touches(edges@[k as int]@, t, joined@) && forall|j: int|
                0 <= j < k ==> !touches((#[trigger] edges@[j])@, t, joined@),
            None => forall|j: int|
                0 <= j < edges@.len() ==> !touches((#[trigger] edges@[j])@, t, joined@),
        },
{
    assert(joined@.take(joined@.len() as int) =~= joined@);
    let n: usize = joined.len();
    let mut k: usize = 0;
    while k < edges.len()
        invariant
            k <= edges@.len(),
            n == joined@.len(),
            joined@.take(n as int) == joined@,
            forall|j: int| 0 <= j < k ==> !touches((#[trigger] edges@[j])@, t, joined@),
        decreases edges@.len() - k,
    {
        if edge_touches(&edges[k], t, joined, n) {
            return Some(k);
        }
        k = k + 1;
    }
    None
}

/// Does `t` have an equijoin edge to any table in `joined`?
pub fn connects(t: usize, joined: &Vec<usize>, edges: &Vec<Edge>) -> (r: bool)
    ensures
        r == exists|j: int| 0 <= j < edges@.len() && touches((#[trigger] edges@[j])@, t, joined@),
{
    match connecting_edge(t, joined, edges) {
        Some(k) => {
            assert(touches(edges@[k as int]@, t, joined@));
            true
        },
        None => false,
    }
}

/// The edges that connect `t` to `joined`, in order.
pub open spec fn connecting(es: Seq<EdgeView>, t: usize, joined: Seq<usize>) -> Seq<EdgeView>
    decreases es.len(),
{
    if es.len() == 0 {
        Seq::empty()
    } else if touches(es.last(), t, joined) {
        connecting(es.drop_last(), t, joined).push(es.last())
    } else {
        connecting(es.drop_last(), t, joined)
    }
}

/// One step of a plan: the table to fold in, the keys that connect it to what is
/// already joined, and further predicates to filter by.
pub struct PlanStep {
    pub table: usize,
    pub key: Option<(Expr, Expr)>,
    pub residuals: Vec<Expr>,
}

pub ghost struct StepView {
    pub table: usize,
    pub key: Option<(ExprView, ExprView)>,
    pub residuals: Seq<ExprView>,
}

impl View for PlanStep {
    type V = StepView;

    open spec fn view(&self) -> StepView {
        StepView {
            table: self.table,
            key: match self.key {
                Some((x, y)) => Some((x@, y@)),
                None => None,
            },
            residuals: expr_views(self.residuals@),
        }
    }
}

/// The step for table `t` behind `joined`: keyed by the first edge, filtered by the
/// others. There is none where no edge connects it.
pub open spec fn step_of(es: Seq<EdgeView>, t: usize, joined: Seq<usize>) -> Option<StepView> {
    let conn = connecting(es, t, joined);
    if conn.len() == 0 {
        None
    } else {
        Some(
            StepView {
                table: t,
                key: Some(
                    if conn[0].a == t {
                        (conn[0].bkey, conn[0].akey)
                    } else {
                        (conn[0].akey, conn[0].bkey)
                    },
                ),
                residuals: conn.skip(1).map_values(
                    |e: EdgeView| binary(BinOp::Eq, e.akey, e.bkey),
                ),
            },
        )
    }
}

fn make_step(t: usize, order: &Vec<usize>, upto: usize, edges: &Vec<Edge>) -> (r: Option<PlanStep>)
    requires
        upto <= order@.len(),
    ensures
        match r {
            Some(s) => step_of(edge_views(edges@), t, order@.take(upto as int)) == Some(s@),
            None => step_of(edge_views(edges@), t, order@.take(upto as int)) is None,
        },
{
    let ghost es = edge_views(edges@);
    let ghost joined = order@.take(upto as int);
    let ghost f = |e: EdgeView| binary(BinOp::Eq, e.akey, e.bkey);
    let mut key: Option<(Expr, Expr)> = None;
    let mut residuals: Vec<Expr> = Vec::new();
    let mut k: usize = 0;
    assert(connecting(es.take(0), t, joined) =~= Seq::empty());
    while k < edges.len()
        invariant
            k <= edges@.len(),
            upto <= order@.len(),
            es == edge_views(edges@),
            joined == order@.take(upto as int),
            f == (|e: EdgeView| binary(BinOp::Eq, e.akey, e.bkey)),
            ({
                let conn = connecting(es.take(k as int), t, joined);
                &&& key is None <==> conn.len() == 0
                &&& key matches Some(p) ==> (p.0@, p.1@) == if conn[0].a == t {
                    (conn[0].bkey, conn[0].akey)
                } else {
                    (conn[0].akey, conn[0].bkey)
                }
                &&& expr_views(residuals@) == if conn.len() == 0 {
                    Seq::<ExprView>::empty()
                } else {
                    conn.skip(1).map_values(f)
                }
            }),
        decreases edges@.len() - k,
    {
        let ghost conn = connecting(es.take(k as int), t, joined);
        let ghost more = connecting(es.take(k + 1), t, joined);
        proof {
            assert(es.take(k + 1).drop_last() =~= es.take(k as int));
            assert(es.take(k + 1).last() == edges@[k as int]@);
        }
        if edge_touches(&edges[k], t, order, upto) {
            let e: &Edge = &edges[k];
            if key.is_none() {
                key = Some(
                    if e.a == t {
                        (e.bkey.copy(), e.akey.copy())
                    } else {
                        (e.akey.copy(), e.bkey.copy())
                    },
                );
                proof {
                    assert(more.len() == 1);
                    assert(more.skip(1).map_values(f) =~= Seq::<ExprView>::empty());
                }
            } else {
                let ghost was = residuals@;
                let x: Expr = Expr::bin(BinOp::Eq, e.akey.copy(), e.bkey.copy());
                residuals.push(x);
                proof {
                    assert(more == conn.push(e@));
                    assert(more.skip(1) =~= conn.skip(1).push(e@));
                    assert(more.skip(1).map_values(f) =~= conn.skip(1).map_values(f).push(x@));
                    assert(expr_views(residuals@) =~= expr_views(was).push(x@));
                }
            }
        }
        k = k + 1;
    }
    assert(es.take(k as int) =~= es);
    match key {
        Some(p) => Some(PlanStep { table: t, key: Some(p), residuals }),
        None => None,
    }
}

/// The fold steps for a table order: each table after the first is keyed by an edge
/// to those before it.
pub open spec fn steps_for(order: Seq<usize>, es: Seq<EdgeView>, r: Option<Seq<StepView>>) -> bool {
    let fit = forall|i: int| #![trigger order[i]]
        1 <= i < order.len() ==> step_of(es, order[i], order.take(i)) is Some;
    match r {
        Some(ss) => {
            &&& fit
            &&& ss.len() == order.len()
            &&& ss[0] == (StepView { table: order[0], key: None, residuals: Seq::empty() })
            &&& forall|i: int|
                1 <= i < order.len() ==> #[trigger] ss[i] == step_of(es, order[i], order.take(i))->0
        },
        None => !fit,
    }
}

pub open spec fn opt_steps(r: Option<Vec<PlanStep>>) -> Option<Seq<StepView>> {
    match r {
        Some(v) => Some(v@.map_values(|s: PlanStep| s@)),
        None => None,
    }
}

/// Turn a chosen table order into fold steps.
pub fn build_steps(order: &Vec<usize>, edges: &Vec<Edge>) -> (r: Option<Vec<PlanStep>>)
    requires
        order@.len() > 0,
    ensures
        steps_for(order@, edge_views(edges@), opt_steps(r)),
{
    let ghost es = edge_views(edges@);
    let first: PlanStep = PlanStep { table: order[0], key: None, residuals: Vec::new() };
    assert(first@.residuals =~= Seq::empty());
    let mut steps: Vec<PlanStep> = Vec::new();
    steps.push(first);
    let mut i: usize = 1;
    while i < order.len()
        invariant
            1 <= i <= order@.len(),
            es == edge_views(edges@),
            steps@.len() == i,
            steps@[0]@ == (StepView { table: order@[0], key: None, residuals: Seq::empty() }),
            forall|j: int| #![trigger order@[j]]
                1 <= j < i ==> step_of(es, order@[j], order@.take(j)) == Some(steps@[j]@),
        decreases order@.len() - i,
    {
        match make_step(order[i], order, i, edges) {
            Some(s) => {
                steps.push(s);
            },
            None => {
                assert(step_of(es, order@[i as int], order@.take(i as int)) is None);
                return None;
            },
        }
        i = i + 1;
    }
    proof {
        let ss = steps@.map_values(|s: PlanStep| s@);
        assert forall|j: int| 1 <= j < order@.len() implies #[trigger] ss[j] == step_of(
            es,
            order@[j],
            order@.take(j),
        )->0 by {
            assert(step_of(es, order@[j], order@.take(j)) == Some(steps@[j]@));
        }
    }
    Some(steps)
}

} // verus!
