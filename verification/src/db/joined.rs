//! What a join answers: the laws of the rows that are put together, of the rows without a
//! partner, and of the clauses that the tables are joined on.

use vstd::prelude::*;

use crate::db::answers::{
    holds_on, law_filtering_keeps_exactly_the_true_rows, lemma_key_rows, the_true_rows, upwards,
};
use crate::db::ast::{BinOp, Expr, ExprView, NodeView};
use crate::db::exec::{value_of, Cols, ExecError, Keyed, Row};
use crate::db::joins::{
    connecting, edge_of, edges_of, equijoin, only_in, sole, step_of, steps_for, touches, EdgeView, JoinKind,
    StepView,
};
use crate::db::keyed::{
    firsts, law_every_row_with_the_key_is_found, law_partners_have_equal_keys, matching, partners,
    KeyView,
};
use crate::db::plan::{binds, Sch};
use crate::db::query::{
    filtered, folded, hash_joined, joined_row, joined_rows, key_rows, narrowed, refolded,
    value_keys,
};
use crate::db::written::nulls;
use crate::types::ValueView;

verus! {

// ---- two tables ----

/// A left row and its partner on the right, or no partner.
pub type Pair = (int, Option<int>);

/// The evaluator gives the two rows equal keys, neither of them null.
pub open spec fn keys_meet<E: Fn(&Expr, &Sch, &Row) -> Result<Keyed, ExecError>>(
    f: E,
    ls: Cols,
    left: Seq<ValueView>,
    lkey: ExprView,
    rs: Cols,
    right: Seq<ValueView>,
    rkey: ExprView,
) -> bool {
    &&& value_of(f, lkey, ls, left) is Ok
    &&& value_of(f, rkey, rs, right) is Ok
    &&& (value_of(f, lkey, ls, left)->Ok_0).1 == (value_of(f, rkey, rs, right)->Ok_0).1
    &&& (value_of(f, lkey, ls, left)->Ok_0).1 != KeyView::Null
}

/// The row of a pair: the left row followed by its partner, or by nulls.
pub open spec fn row_of_pair(
    p: Pair,
    lrows: Seq<Seq<ValueView>>,
    rrows: Seq<Seq<ValueView>>,
    width: nat,
) -> Seq<ValueView> {
    match p.1 {
        Some(j) => lrows[p.0] + rrows[j],
        None => lrows[p.0] + nulls(width),
    }
}

/// Left rows first, partners next.
pub open spec fn pair_before(p: Pair, q: Pair) -> bool {
    p.0 < q.0 || p.0 == q.0 && p.1 is Some && q.1 is Some && p.1->0 < q.1->0
}

/// The pair belongs in the join: its two rows meet, or it is a left row that a left join keeps
/// though it meets none.
pub open spec fn belongs(kind: JoinKind, meets: spec_fn(int, int) -> bool, l: int, r: int, p: Pair) -> bool {
    &&& 0 <= p.0 < l
    &&& match p.1 {
        Some(j) => 0 <= j < r && meets(p.0, j),
        None => kind is Left && forall|j: int| 0 <= j < r ==> !#[trigger] meets(p.0, j),
    }
}

/// `out` has, in order, the rows of exactly the pairs that belong in the join.
pub open spec fn pairs_up(
    kind: JoinKind,
    meets: spec_fn(int, int) -> bool,
    lrows: Seq<Seq<ValueView>>,
    rrows: Seq<Seq<ValueView>>,
    width: nat,
    pairs: Seq<Pair>,
    out: Seq<Seq<ValueView>>,
) -> bool {
    &&& out.len() == pairs.len()
    &&& forall|i: int|
        0 <= i < pairs.len() ==> belongs(
            kind,
            meets,
            lrows.len() as int,
            rrows.len() as int,
            #[trigger] pairs[i],
        ) && out[i] == row_of_pair(pairs[i], lrows, rrows, width)
    &&& forall|i: int, j: int|
        0 <= i < j < pairs.len() ==> pair_before(#[trigger] pairs[i], #[trigger] pairs[j])
    &&& forall|p: Pair| #[trigger]
        belongs(kind, meets, lrows.len() as int, rrows.len() as int, p) ==> pairs.contains(p)
}

/// The partners of each left row are exactly the right rows that it meets, in order.
spec fn finds(ats: Seq<Seq<usize>>, r: int, meets: spec_fn(int, int) -> bool) -> bool {
    forall|i: int| #![trigger ats[i]]
        0 <= i < ats.len() ==> {
            &&& forall|a: int, b: int| 0 <= a < b < ats[i].len() ==> ats[i][a] < ats[i][b]
            &&& forall|a: int| 0 <= a < ats[i].len() ==> ats[i][a] < r
            &&& forall|j: int| 0 <= j < r ==> (ats[i].contains(j as usize) <==> #[trigger] meets(i, j))
        }
}

proof fn lemma_joined_rows(
    kind: JoinKind,
    left: Seq<Seq<ValueView>>,
    ats: Seq<Seq<usize>>,
    right: Seq<Seq<ValueView>>,
    width: nat,
    meets: spec_fn(int, int) -> bool,
) -> (pairs: Seq<Pair>)
    requires
        ats.len() == left.len(),
        right.len() <= usize::MAX,
        finds(ats, right.len() as int, meets),
    ensures
        pairs_up(kind, meets, left, right, width, pairs, joined_rows(kind, left, ats, right, width)),
    decreases left.len(),
{
    let out = joined_rows(kind, left, ats, right, width);
    let r = right.len() as int;
    if left.len() == 0 {
        Seq::empty()
    } else {
        let n = left.len() - 1;
        let l0 = left.drop_last();
        let a0 = ats.drop_last();
        assert(finds(a0, r, meets)) by {
            assert forall|i: int| #![trigger a0[i]] 0 <= i < a0.len() implies a0[i] == ats[i] by {}
        }
        let was = lemma_joined_rows(kind, l0, a0, right, width, meets);
        let before = joined_rows(kind, l0, a0, right, width);
        let at = ats[n];
        let more = if at.len() > 0 {
            Seq::new(at.len(), |k: int| (n as int, Some(at[k] as int)))
        } else if kind is Left {
            seq![(n as int, None::<int>)]
        } else {
            Seq::<Pair>::empty()
        };
        let pairs = was + more;
        let add = joined_row(kind, left[n], at, right, width);
        assert(out == before + add);
        assert forall|i: int| 0 <= i < more.len() implies belongs(
            kind,
            meets,
            left.len() as int,
            r,
            #[trigger] more[i],
        ) && add[i] == row_of_pair(more[i], left, right, width) by {
            if at.len() > 0 {
                let j = at[i];
                assert(at.contains(j));
                assert(meets(n as int, j as int));
            } else {
                assert forall|j: int| 0 <= j < r implies !#[trigger] meets(n as int, j) by {
                    assert(!at.contains(j as usize));
                }
            }
        }
        assert forall|i: int| 0 <= i < pairs.len() implies belongs(
            kind,
            meets,
            left.len() as int,
            r,
            #[trigger] pairs[i],
        ) && out[i] == row_of_pair(pairs[i], left, right, width) by {
            if i < was.len() {
                assert(pairs[i] == was[i]);
                assert(l0[was[i].0] == left[was[i].0]);
            } else {
                assert(pairs[i] == more[i - was.len()]);
            }
        }
        assert forall|i: int, j: int| 0 <= i < j < pairs.len() implies pair_before(
            #[trigger] pairs[i],
            #[trigger] pairs[j],
        ) by {
            if j < was.len() {
                assert(pair_before(was[i], was[j]));
            } else if i < was.len() {
                assert(pairs[i] == was[i]);
                assert(pairs[j] == more[j - was.len()]);
                assert(was[i].0 < n);
            } else {
                assert(pairs[i] == more[i - was.len()]);
                assert(pairs[j] == more[j - was.len()]);
                assert(at[i - was.len()] < at[j - was.len()]);
            }
        }
        assert forall|p: Pair| #[trigger]
            belongs(kind, meets, left.len() as int, r, p) implies pairs.contains(p) by {
            if p.0 < n {
                assert(belongs(kind, meets, l0.len() as int, r, p));
                assert(was.contains(p));
                let i = was.index_of(p);
                assert(pairs[i] == p);
            } else {
                match p.1 {
                    Some(j) => {
                        assert(meets(n as int, j));
                        assert(at.contains(j as usize));
                        let k = at.index_of(j as usize);
                        assert(more[k] == p);
                        assert(pairs[was.len() + k] == p);
                    },
                    None => {
                        if at.len() > 0 {
                            assert(at.contains(at[0]));
                            assert(meets(n as int, at[0] as int));
                        }
                        assert(more[0] == p);
                        assert(pairs[was.len() as int] == p);
                    },
                }
            }
        }
        pairs
    }
}

/// A join puts together every left row with every right row whose key is equal and not null,
/// and no others, left row by left row, each with its partners in their order. A left join
/// keeps, filled up with nulls, exactly the left rows that have no partner; an inner join
/// keeps none of them.
pub proof fn law_joins_pair_the_rows_of_equal_keys<
    E: Fn(&Expr, &Sch, &Row) -> Result<Keyed, ExecError>,
>(
    f: E,
    kind: JoinKind,
    ls: Cols,
    lrows: Seq<Seq<ValueView>>,
    lkey: ExprView,
    rs: Cols,
    rrows: Seq<Seq<ValueView>>,
    rkey: ExprView,
) -> (pairs: Seq<Pair>)
    requires
        rrows.len() <= usize::MAX,
        hash_joined(f, kind, ls, lrows, lkey, rs, rrows, rkey) is Some,
    ensures
        pairs_up(
            kind,
            |i: int, j: int| keys_meet(f, ls, lrows[i], lkey, rs, rrows[j], rkey),
            lrows,
            rrows,
            rs.len(),
            pairs,
            hash_joined(f, kind, ls, lrows, lkey, rs, rrows, rkey)->0,
        ),
{
    let meets = |i: int, j: int| keys_meet(f, ls, lrows[i], lkey, rs, rrows[j], rkey);
    let lk = key_rows(f, seq![lkey], ls, lrows)->Ok_0;
    let rk = key_rows(f, seq![rkey], rs, rrows)->Ok_0;
    let ats = lk.map_values(|k: Seq<KeyView>| partners(k, rk));
    lemma_key_rows(f, seq![lkey], ls, lrows);
    lemma_key_rows(f, seq![rkey], rs, rrows);
    assert(seq![lkey][0] == lkey);
    assert(seq![rkey][0] == rkey);
    assert forall|i: int| #![trigger ats[i]] 0 <= i < ats.len() implies {
        &&& forall|a: int, b: int| 0 <= a < b < ats[i].len() ==> ats[i][a] < ats[i][b]
        &&& forall|a: int| 0 <= a < ats[i].len() ==> ats[i][a] < rrows.len()
        &&& forall|j: int|
            0 <= j < rrows.len() ==> (ats[i].contains(j as usize) <==> #[trigger] meets(i, j))
    } by {
        law_partners_have_equal_keys(lk[i], rk);
        assert(ats[i] == partners(lk[i], rk));
        assert(lk[i].len() == 1);
        assert forall|j: int| 0 <= j < rrows.len() implies (ats[i].contains(j as usize)
            <==> #[trigger] meets(i, j)) by {
            assert(rk[j].len() == 1);
            assert(partners(lk[i], rk).contains(j as usize) <==> rk[j] == lk[i] && forall|c: int|
                0 <= c < lk[i].len() ==> lk[i][c] != KeyView::Null);
            if meets(i, j) {
                assert(rk[j] =~= lk[i]);
            }
            if rk[j] == lk[i] {
                assert(rk[j][0] == lk[i][0]);
            }
        }
    }
    lemma_joined_rows(kind, lrows, ats, rrows, rs.len(), meets)
}

proof fn lemma_key_rows_fail<E: Fn(&Expr, &Sch, &Row) -> Result<Keyed, ExecError>>(
    f: E,
    e: ExprView,
    s: Cols,
    rows: Seq<Seq<ValueView>>,
)
    ensures
        key_rows(f, seq![e], s, rows) is Ok <==> forall|i: int|
            0 <= i < rows.len() ==> value_of(f, e, s, #[trigger] rows[i]) is Ok,
    decreases rows.len(),
{
    if rows.len() > 0 {
        let init = rows.drop_last();
        lemma_key_rows_fail(f, e, s, init);
        let one = seq![e];
        assert(one.last() == e);
        assert(one.drop_last() =~= Seq::<ExprView>::empty());
        assert(rows[rows.len() - 1] == rows.last());
        assert forall|i: int| 0 <= i < init.len() implies init[i] == #[trigger] rows[i] by {}
        if forall|i: int| 0 <= i < rows.len() ==> value_of(f, e, s, #[trigger] rows[i]) is Ok {
            assert forall|i: int| 0 <= i < init.len() implies value_of(
                f,
                e,
                s,
                #[trigger] init[i],
            ) is Ok by {
                assert(init[i] == rows[i]);
            }
        }
        if key_rows(f, one, s, rows) is Ok {
            assert forall|i: int| 0 <= i < rows.len() implies value_of(
                f,
                e,
                s,
                #[trigger] rows[i],
            ) is Ok by {
                if i < init.len() {
                    assert(init[i] == rows[i]);
                }
            }
        }
        reveal_with_fuel(crate::db::exec::all_values, 2);
    }
}

/// Two tables can be joined by their keys exactly where the keys have values on all rows.
pub proof fn law_joins_fail_with_their_keys<E: Fn(&Expr, &Sch, &Row) -> Result<Keyed, ExecError>>(
    f: E,
    kind: JoinKind,
    ls: Cols,
    lrows: Seq<Seq<ValueView>>,
    lkey: ExprView,
    rs: Cols,
    rrows: Seq<Seq<ValueView>>,
    rkey: ExprView,
)
    ensures
        hash_joined(f, kind, ls, lrows, lkey, rs, rrows, rkey) is Some <==> (forall|i: int|
            0 <= i < lrows.len() ==> value_of(f, lkey, ls, #[trigger] lrows[i]) is Ok) && (forall|
            i: int,
        |
            0 <= i < rrows.len() ==> value_of(f, rkey, rs, #[trigger] rrows[i]) is Ok),
{
    lemma_key_rows_fail(f, lkey, ls, lrows);
    lemma_key_rows_fail(f, rkey, rs, rrows);
}

// ---- the clauses that tables are joined on ----

/// The two sides of an equality.
pub open spec fn sides_of(on: ExprView, x: ExprView, y: ExprView) -> bool {
    on.node == NodeView::Binary(BinOp::Eq) && (on.kids == seq![x, y] || on.kids == seq![y, x])
}

/// `x` speaks of the one table and not of the other.
pub open spec fn speaks_of(x: ExprView, of: Cols, not: Cols) -> bool {
    binds(x, of) && !binds(x, not)
}

/// A clause joins two tables by their keys exactly where it is an equality of which one side
/// speaks of the left table only and the other of the right table only; the left key is the
/// side that speaks of the left.
pub proof fn law_join_keys_are_the_sides_of_an_equality(on: ExprView, l: Cols, r: Cols)
    ensures
        equijoin(on, l, r) is Some <==> exists|x: ExprView, y: ExprView|
            #![trigger sides_of(on, x, y)]
            sides_of(on, x, y) && speaks_of(x, l, r) && speaks_of(y, r, l),
        equijoin(on, l, r) matches Some((x, y)) ==> sides_of(on, x, y) && speaks_of(x, l, r)
            && speaks_of(y, r, l),
{
    let x = on.kids[0];
    let y = on.kids[1];
    if equijoin(on, l, r) is Some {
        assert(on.kids =~= seq![x, y]);
        let (a, b) = equijoin(on, l, r)->0;
        assert(sides_of(on, a, b));
    }
    if exists|x: ExprView, y: ExprView|
        #![trigger sides_of(on, x, y)]
        sides_of(on, x, y) && speaks_of(x, l, r) && speaks_of(y, r, l) {
        let (a, b) = choose|x: ExprView, y: ExprView|
            #![trigger sides_of(on, x, y)]
            sides_of(on, x, y) && speaks_of(x, l, r) && speaks_of(y, r, l);
        assert(seq![a, b][0] == a && seq![a, b][1] == b);
        assert(seq![b, a][0] == b && seq![b, a][1] == a);
    }
}

/// An edge joins two different tables by the sides of its clause: each side speaks of its own
/// table and of no other.
pub proof fn law_edges_join_two_tables(on: ExprView, schs: Seq<Cols>)
    ensures
        edge_of(on, schs) matches Some(e) ==> {
            &&& sides_of(on, e.akey, e.bkey)
            &&& e.a != e.b
            &&& only_in(e.akey, schs, e.a as int)
            &&& only_in(e.bkey, schs, e.b as int)
        },
        forall|x: ExprView, y: ExprView, i: usize, j: usize| #[trigger]
            sides_of(on, x, y) && i != j && #[trigger] only_in(x, schs, i as int) && #[trigger]
            only_in(y, schs, j as int) ==> edge_of(on, schs) is Some,
{
    if edge_of(on, schs) is Some {
        let e = edge_of(on, schs)->0;
        assert(on.kids =~= seq![e.akey, e.bkey]);
        lemma_sole(e.akey, schs);
        lemma_sole(e.bkey, schs);
    }
    assert forall|x: ExprView, y: ExprView, i: usize, j: usize| #[trigger]
        sides_of(on, x, y) && i != j && #[trigger] only_in(x, schs, i as int) && #[trigger]
        only_in(y, schs, j as int) implies edge_of(on, schs) is Some by {
        assert(seq![x, y][0] == x && seq![x, y][1] == y);
        assert(seq![y, x][0] == y && seq![y, x][1] == x);
        lemma_sole(x, schs);
        lemma_sole(y, schs);
        assert(only_in(x, schs, i as int) && i as int <= usize::MAX);
        assert(only_in(y, schs, j as int) && j as int <= usize::MAX);
        assert(sole(x, schs) == Some(i));
        assert(sole(y, schs) == Some(j));
    }
}

proof fn lemma_sole(e: ExprView, schs: Seq<Cols>)
    ensures
        sole(e, schs) matches Some(i) ==> only_in(e, schs, i as int),
        forall|i: int| #[trigger]
            only_in(e, schs, i) && i <= usize::MAX ==> sole(e, schs) == Some(i as usize),
{
    if exists|i: int| #[trigger] only_in(e, schs, i) && i <= usize::MAX {
        let k = choose|i: int| #[trigger] only_in(e, schs, i) && i <= usize::MAX;
        assert forall|i: int| #[trigger] only_in(e, schs, i) implies i == k by {
            if i != k {
                assert(!binds(e, schs[i]));
            }
        }
    }
}

// ---- many tables ----

proof fn lemma_connecting(es: Seq<EdgeView>, t: usize, joined: Seq<usize>)
    ensures
        forall|e: EdgeView| #[trigger]
            connecting(es, t, joined).contains(e) <==> es.contains(e) && touches(e, t, joined),
    decreases es.len(),
{
    if es.len() > 0 {
        let init = es.drop_last();
        let was = connecting(init, t, joined);
        let conn = connecting(es, t, joined);
        lemma_connecting(init, t, joined);
        assert forall|e: EdgeView| #[trigger] conn.contains(e) <==> es.contains(e) && touches(
            e,
            t,
            joined,
        ) by {
            assert(was.contains(e) <==> init.contains(e) && touches(e, t, joined));
            if conn.contains(e) {
                let i = conn.index_of(e);
                if i < was.len() {
                    assert(was[i] == e);
                    let k = init.index_of(e);
                    assert(es[k] == e);
                } else {
                    assert(es[es.len() - 1] == e);
                }
            }
            if es.contains(e) && touches(e, t, joined) {
                let k = es.index_of(e);
                if k < init.len() {
                    assert(init[k] == e);
                    let i = was.index_of(e);
                    assert(conn[i] == e);
                } else {
                    assert(conn[conn.len() - 1] == e);
                }
            }
        }
    }
}

/// The step joins table `t` by the edge: on its own key and on the key of the table that is
/// there already.
pub open spec fn keyed_by(st: StepView, e: EdgeView, t: usize) -> bool {
    st.key == Some(
        if e.a == t {
            (e.bkey, e.akey)
        } else {
            (e.akey, e.bkey)
        },
    )
}

/// The step keeps only rows on which the two keys of the edge are equal.
pub open spec fn kept_by(st: StepView, e: EdgeView) -> bool {
    exists|k: int|
        0 <= k < st.residuals.len() && (#[trigger] st.residuals[k]).node == NodeView::Binary(
            BinOp::Eq,
        ) && st.residuals[k].kids == seq![e.akey, e.bkey]
}

/// A table is joined to those before it by all the edges between them: by one of them as the
/// key, and by the others as conditions. There is no step for a table without such an edge.
pub proof fn law_steps_use_every_edge(es: Seq<EdgeView>, t: usize, joined: Seq<usize>)
    ensures
        step_of(es, t, joined) is Some <==> exists|k: int|
            0 <= k < es.len() && touches(#[trigger] es[k], t, joined),
        step_of(es, t, joined) matches Some(st) ==> {
            &&& st.table == t
            &&& forall|k: int|
                0 <= k < es.len() && touches(#[trigger] es[k], t, joined) ==> keyed_by(st, es[k], t)
                    || kept_by(st, es[k])
            &&& exists|k: int|
                0 <= k < es.len() && touches(#[trigger] es[k], t, joined) && keyed_by(st, es[k], t)
        },
{
    let conn = connecting(es, t, joined);
    lemma_connecting(es, t, joined);
    if conn.len() > 0 {
        assert(conn.contains(conn[0]));
        let k = es.index_of(conn[0]);
        assert(es[k] == conn[0]);
        assert(touches(es[k], t, joined));
        let st = step_of(es, t, joined)->0;
        assert(keyed_by(st, es[k], t));
        assert forall|k: int|
            0 <= k < es.len() && touches(#[trigger] es[k], t, joined) implies keyed_by(st, es[k], t)
            || kept_by(st, es[k]) by {
            assert(conn.contains(es[k]));
            let x = conn.index_of(es[k]);
            if x > 0 {
                assert(conn.skip(1)[x - 1] == es[k]);
                assert(st.residuals[x - 1].kids =~= seq![es[k].akey, es[k].bkey]);
            }
        }
    }
    if exists|k: int| 0 <= k < es.len() && touches(#[trigger] es[k], t, joined) {
        let k = choose|k: int| 0 <= k < es.len() && touches(#[trigger] es[k], t, joined);
        assert(conn.contains(es[k]));
    }
}

/// A plan joins the tables of its order, one after the other, and every edge between two of
/// them is used in one of its steps.
pub proof fn law_plans_use_every_edge(
    order: Seq<usize>,
    es: Seq<EdgeView>,
    ss: Seq<StepView>,
    k: int,
    i: int,
    j: int,
)
    requires
        order.len() > 0,
        steps_for(order, es, Some(ss)),
        0 <= k < es.len(),
        0 <= i < j < order.len(),
        es[k].a == order[i] && es[k].b == order[j] || es[k].a == order[j] && es[k].b == order[i],
    ensures
        ss.len() == order.len(),
        forall|x: int| 0 <= x < order.len() ==> (#[trigger] ss[x]).table == order[x],
        keyed_by(ss[j], es[k], order[j]) || kept_by(ss[j], es[k]),
{
    let joined = order.take(j);
    assert(joined[i] == order[i]);
    assert(joined.contains(order[i]));
    assert(touches(es[k], order[j], joined));
    law_steps_use_every_edge(es, order[j], joined);
    assert(order[j] == order[j]);
    assert(ss[j] == step_of(es, order[j], joined)->0);
    assert forall|x: int| 0 <= x < order.len() implies (#[trigger] ss[x]).table == order[x] by {
        if x >= 1 {
            law_steps_use_every_edge(es, order[x], order.take(x));
        }
    }
}

/// `at` numbers, upwards, exactly the rows of which all the conditions are true.
pub open spec fn all_hold<E: Fn(&Expr, &Sch, &Row) -> Result<Keyed, ExecError>>(
    f: E,
    conds: Seq<ExprView>,
    s: Cols,
    r: Seq<ValueView>,
) -> bool {
    forall|c: int| 0 <= c < conds.len() ==> holds_on(f, Some(#[trigger] conds[c]), s, r)
}

/// Conditions that come with a join keep exactly the rows of which all of them are true, in
/// their order.
pub proof fn law_conditions_keep_exactly_the_true_rows<
    E: Fn(&Expr, &Sch, &Row) -> Result<Keyed, ExecError>,
>(f: E, conds: Seq<ExprView>, s: Cols, rows: Seq<Seq<ValueView>>) -> (at: Seq<int>)
    requires
        narrowed(f, conds, s, rows) is Some,
    ensures
        upwards(at),
        forall|i: int| 0 <= i < at.len() ==> 0 <= #[trigger] at[i] < rows.len(),
        forall|k: int|
            0 <= k < rows.len() ==> (#[trigger] at.contains(k) <==> all_hold(f, conds, s, rows[k])),
        narrowed(f, conds, s, rows)->0 == at.map_values(|i: int| rows[i]),
    decreases conds.len(),
{
    if conds.len() == 0 {
        let at = Seq::new(rows.len(), |i: int| i);
        assert forall|k: int| 0 <= k < rows.len() implies #[trigger] at.contains(k) by {
            assert(at[k] == k);
        }
        assert(at.map_values(|i: int| rows[i]) =~= rows);
        at
    } else {
        let init = conds.drop_last();
        let c = conds.last();
        let was = law_conditions_keep_exactly_the_true_rows(f, init, s, rows);
        let kept = narrowed(f, init, s, rows)->0;
        let inner = law_filtering_keeps_exactly_the_true_rows(f, Some(c), s, kept);
        let at = inner.map_values(|i: int| was[i]);
        let out = narrowed(f, conds, s, rows)->0;
        assert(out == filtered(f, Some(c), s, kept)->Ok_0);
        assert(the_true_rows(f, Some(c), s, kept, inner));
        assert forall|i: int| 0 <= i < at.len() implies 0 <= #[trigger] at[i] < rows.len() && at[i]
            == was[inner[i]] && 0 <= inner[i] < was.len() by {
            assert(0 <= inner[i] < kept.len());
            assert(0 <= was[inner[i]] < rows.len());
        }
        assert forall|i: int, j: int| 0 <= i < j < at.len() implies #[trigger] at[i]
            < #[trigger] at[j] by {
            assert(inner[i] < inner[j]);
            assert(was[inner[i]] < was[inner[j]]);
        }
        assert forall|i: int| 0 <= i < at.len() implies out[i] == rows[at[i]] by {
            assert(out[i] == kept[inner[i]]);
            assert(kept[inner[i]] == rows[was[inner[i]]]);
        }
        assert(out =~= at.map_values(|i: int| rows[i]));
        assert forall|k: int| 0 <= k < rows.len() implies (#[trigger] at.contains(k) <==> all_hold(
            f,
            conds,
            s,
            rows[k],
        )) by {
            assert(was.contains(k) <==> all_hold(f, init, s, rows[k]));
            if at.contains(k) {
                let i = at.index_of(k);
                assert(was.contains(was[inner[i]]));
                assert(inner.contains(inner[i]));
                assert(holds_on(f, Some(c), s, kept[inner[i]]));
                assert forall|x: int| 0 <= x < conds.len() implies holds_on(
                    f,
                    Some(#[trigger] conds[x]),
                    s,
                    rows[k],
                ) by {
                    if x < init.len() {
                        assert(init[x] == conds[x]);
                    }
                }
            }
            if all_hold(f, conds, s, rows[k]) {
                assert forall|x: int| 0 <= x < init.len() implies holds_on(
                    f,
                    Some(#[trigger] init[x]),
                    s,
                    rows[k],
                ) by {
                    assert(init[x] == conds[x]);
                }
                let w = was.index_of(k);
                assert(kept[w] == rows[k]);
                assert(conds[conds.len() - 1] == c);
                assert(inner.contains(w));
                let i = inner.index_of(w);
                assert(at[i] == k);
            }
        }
        at
    }
}

// ---- statistics ----

proof fn lemma_distinct(ks: Seq<Seq<KeyView>>)
    requires
        ks.len() <= usize::MAX,
    ensures
        firsts(ks).len() == ks.to_set().len(),
        ks.to_set().finite(),
    decreases ks.len(),
{
    vstd::seq_lib::seq_to_set_is_finite(ks);
    if ks.len() == 0 {
        assert(ks.to_set() =~= Set::<Seq<KeyView>>::empty());
    } else {
        let init = ks.drop_last();
        let last = ks.last();
        lemma_distinct(init);
        law_every_row_with_the_key_is_found(init, last);
        assert(ks.to_set() =~= init.to_set().insert(last)) by {
            assert forall|k: Seq<KeyView>| #[trigger] ks.to_set().contains(k)
                <==> init.to_set().insert(last).contains(k) by {
                if ks.contains(k) {
                    let i = ks.index_of(k);
                    if i < init.len() {
                        assert(init[i] == k);
                    }
                }
                if init.contains(k) {
                    let i = init.index_of(k);
                    assert(ks[i] == k);
                }
                assert(ks[ks.len() - 1] == last);
            }
        }
        let m = matching(init, last);
        if init.contains(last) {
            let i = init.index_of(last);
            assert(m.contains(i as usize));
            assert(init.to_set().insert(last) =~= init.to_set());
        } else if m.len() > 0 {
            let r = m[0] as int;
            assert(m[0] < init.len());
            assert(m.contains(r as usize));
            assert(init[r] == last);
        }
    }
}

/// A key is that of a row on which the expression has a value that is not null.
pub open spec fn is_value_key<E: Fn(&Expr, &Sch, &Row) -> Result<Keyed, ExecError>>(
    f: E,
    e: ExprView,
    s: Cols,
    rows: Seq<Seq<ValueView>>,
    k: KeyView,
) -> bool {
    exists|i: int|
        0 <= i < rows.len() && (value_of(f, e, s, #[trigger] rows[i]) matches Ok(v) && v.0
            != ValueView::Null && v.1 == k)
}

/// The number of distinct values that a plan goes by is that of the keys of all values on the
/// rows, nulls and failures left out.
pub proof fn law_statistics_count_the_distinct_values<
    E: Fn(&Expr, &Sch, &Row) -> Result<Keyed, ExecError>,
>(f: E, e: ExprView, s: Cols, rows: Seq<Seq<ValueView>>)
    requires
        rows.len() <= usize::MAX,
    ensures
        firsts(value_keys(f, e, s, rows)).len() == Set::new(
            |k: Seq<KeyView>| k.len() == 1 && is_value_key(f, e, s, rows, k[0]),
        ).len(),
{
    let ks = value_keys(f, e, s, rows);
    lemma_value_keys(f, e, s, rows);
    lemma_distinct(ks);
    let all = Set::new(|k: Seq<KeyView>| k.len() == 1 && is_value_key(f, e, s, rows, k[0]));
    assert(ks.to_set() =~= all) by {
        assert forall|k: Seq<KeyView>| #[trigger] ks.to_set().contains(k) <==> all.contains(k) by {
            assert(ks.contains(k) <==> k.len() == 1 && is_value_key(f, e, s, rows, k[0]));
        }
    }
}

proof fn lemma_value_keys<E: Fn(&Expr, &Sch, &Row) -> Result<Keyed, ExecError>>(
    f: E,
    e: ExprView,
    s: Cols,
    rows: Seq<Seq<ValueView>>,
)
    ensures
        value_keys(f, e, s, rows).len() <= rows.len(),
        forall|k: Seq<KeyView>| #[trigger]
            value_keys(f, e, s, rows).contains(k) <==> k.len() == 1 && is_value_key(
                f,
                e,
                s,
                rows,
                k[0],
            ),
    decreases rows.len(),
{
    if rows.len() > 0 {
        let init = rows.drop_last();
        let n = rows.len() - 1;
        lemma_value_keys(f, e, s, init);
        let was = value_keys(f, e, s, init);
        let ks = value_keys(f, e, s, rows);
        assert forall|k: Seq<KeyView>| #[trigger] ks.contains(k) <==> k.len() == 1 && is_value_key(
            f,
            e,
            s,
            rows,
            k[0],
        ) by {
            assert(was.contains(k) <==> k.len() == 1 && is_value_key(f, e, s, init, k[0]));
            if ks.contains(k) {
                let i = ks.index_of(k);
                if i < was.len() {
                    assert(was[i] == k);
                    let j = choose|j: int|
                        0 <= j < init.len() && (value_of(f, e, s, #[trigger] init[j]) matches Ok(v)
                            && v.0 != ValueView::Null && v.1 == k[0]);
                    assert(rows[j] == init[j]);
                } else {
                    assert(rows[n] == rows.last());
                    assert(is_value_key(f, e, s, rows, k[0]));
                }
            }
            if k.len() == 1 && is_value_key(f, e, s, rows, k[0]) {
                let j = choose|j: int|
                    0 <= j < rows.len() && (value_of(f, e, s, #[trigger] rows[j]) matches Ok(v)
                        && v.0 != ValueView::Null && v.1 == k[0]);
                if j < n {
                    assert(init[j] == rows[j]);
                    assert(was.contains(k));
                    let i = was.index_of(k);
                    assert(ks[i] == k);
                } else {
                    assert(ks.last() =~= k);
                    assert(ks[ks.len() - 1] == k);
                }
            }
        }
    }
}

// ---- tables one after the other ----

/// Tables joined as they are written are joined one after the other: what has been joined so
/// far meets the next table by the two sides of its clause, as an inner or a left join.
pub proof fn law_tables_are_joined_as_written<
    E: Fn(&Expr, &Sch, &Row) -> Result<Keyed, ExecError>,
>(
    f: E,
    kinds: Seq<JoinKind>,
    ons: Seq<ExprView>,
    schs: Seq<Cols>,
    tables: Seq<Seq<Seq<ValueView>>>,
    n: int,
) -> (w: (ExprView, ExprView, Seq<Pair>))
    requires
        1 <= n <= ons.len(),
        tables.len() == ons.len() + 1,
        schs.len() == tables.len(),
        tables[n].len() <= usize::MAX,
        folded(f, kinds, ons, schs, tables, n) is Some,
    ensures
        folded(f, kinds, ons, schs, tables, 0) == Some((schs[0], tables[0])),
        folded(f, kinds, ons, schs, tables, n - 1) is Some,
        ({
            let (c, rows) = folded(f, kinds, ons, schs, tables, n - 1)->0;
            let (d, out) = folded(f, kinds, ons, schs, tables, n)->0;
            &&& sides_of(ons[n - 1], w.0, w.1)
            &&& speaks_of(w.0, c, schs[n])
            &&& speaks_of(w.1, schs[n], c)
            &&& d == c + schs[n]
            &&& pairs_up(
                kinds[n - 1],
                |i: int, j: int| keys_meet(f, c, rows[i], w.0, schs[n], tables[n][j], w.1),
                rows,
                tables[n],
                schs[n].len(),
                w.2,
                out,
            )
        }),
{
    let (c, rows) = folded(f, kinds, ons, schs, tables, n - 1)->0;
    let (lk, rk) = equijoin(ons[n - 1], c, schs[n])->0;
    law_join_keys_are_the_sides_of_an_equality(ons[n - 1], c, schs[n]);
    let pairs = law_joins_pair_the_rows_of_equal_keys(
        f,
        kinds[n - 1],
        c,
        rows,
        lk,
        schs[n],
        tables[n],
        rk,
    );
    (lk, rk, pairs)
}

/// Tables joined by a plan are joined in its order: what has been joined so far meets the next
/// table by the key of its step, and of those rows stay the ones on which all conditions of
/// the step are true.
pub proof fn law_tables_are_joined_as_planned<
    E: Fn(&Expr, &Sch, &Row) -> Result<Keyed, ExecError>,
>(
    f: E,
    steps: Seq<StepView>,
    schs: Seq<Cols>,
    tables: Seq<Seq<Seq<ValueView>>>,
    n: int,
) -> (w: (Seq<Pair>, Seq<Seq<ValueView>>, Seq<int>))
    requires
        1 <= n < steps.len(),
        tables[steps[n].table as int].len() <= usize::MAX,
        refolded(f, steps, schs, tables, n) is Some,
    ensures
        refolded(f, steps, schs, tables, 0) == Some(
            (schs[steps[0].table as int], tables[steps[0].table as int]),
        ),
        refolded(f, steps, schs, tables, n - 1) is Some,
        ({
            let t = steps[n].table as int;
            let (lk, rk) = steps[n].key->0;
            let (c, rows) = refolded(f, steps, schs, tables, n - 1)->0;
            let (d, out) = refolded(f, steps, schs, tables, n)->0;
            let (pairs, met, at) = w;
            &&& d == c + schs[t]
            &&& pairs_up(
                JoinKind::Inner,
                |i: int, j: int| keys_meet(f, c, rows[i], lk, schs[t], tables[t][j], rk),
                rows,
                tables[t],
                schs[t].len(),
                pairs,
                met,
            )
            &&& upwards(at)
            &&& forall|i: int| 0 <= i < at.len() ==> 0 <= #[trigger] at[i] < met.len()
            &&& forall|k: int|
                0 <= k < met.len() ==> (#[trigger] at.contains(k) <==> all_hold(
                    f,
                    steps[n].residuals,
                    d,
                    met[k],
                ))
            &&& out == at.map_values(|i: int| met[i])
        }),
{
    let t = steps[n].table as int;
    let (lk, rk) = steps[n].key->0;
    let (c, rows) = refolded(f, steps, schs, tables, n - 1)->0;
    let met = hash_joined(f, JoinKind::Inner, c, rows, lk, schs[t], tables[t], rk)->0;
    let pairs = law_joins_pair_the_rows_of_equal_keys(
        f,
        JoinKind::Inner,
        c,
        rows,
        lk,
        schs[t],
        tables[t],
        rk,
    );
    let at = law_conditions_keep_exactly_the_true_rows(f, steps[n].residuals, c + schs[t], met);
    (pairs, met, at)
}

/// Joins are put in another order only if all of them are inner joins, no more than a dozen
/// tables take part, and every clause is an equality between two of them; and wherever that is
/// so they can be. Each edge stands for its clause.
pub proof fn law_only_inner_equijoins_are_reordered(
    kinds: Seq<JoinKind>,
    ons: Seq<ExprView>,
    schs: Seq<Cols>,
    r: Option<Seq<EdgeView>>,
)
    requires
        edges_of(kinds, ons, schs, r),
    ensures
        match r {
            Some(es) => {
                &&& schs.len() <= 12
                &&& forall|i: int| 0 <= i < kinds.len() ==> !(#[trigger] kinds[i] is Left)
                &&& es.len() == ons.len()
                &&& forall|i: int|
                    0 <= i < es.len() ==> {
                        let e = #[trigger] es[i];
                        &&& sides_of(ons[i], e.akey, e.bkey)
                        &&& e.a != e.b
                        &&& only_in(e.akey, schs, e.a as int)
                        &&& only_in(e.bkey, schs, e.b as int)
                    }
            },
            None => {
                ||| schs.len() > 12
                ||| exists|i: int| 0 <= i < kinds.len() && #[trigger] kinds[i] is Left
                ||| exists|i: int| 0 <= i < ons.len() && edge_of(#[trigger] ons[i], schs) is None
            },
        },
{
    match r {
        Some(es) => {
            assert forall|i: int| 0 <= i < es.len() implies {
                let e = #[trigger] es[i];
                &&& sides_of(ons[i], e.akey, e.bkey)
                &&& e.a != e.b
                &&& only_in(e.akey, schs, e.a as int)
                &&& only_in(e.bkey, schs, e.b as int)
            } by {
                assert(edge_of(ons[i], schs) is Some);
                assert(es[i] == edge_of(ons[i], schs)->0);
                law_edges_join_two_tables(ons[i], schs);
            }
        },
        None => {
            if schs.len() <= 12 && forall|i: int|
                0 <= i < ons.len() ==> edge_of(#[trigger] ons[i], schs) is Some {
                let i = choose|i: int| 0 <= i < kinds.len() && !(#[trigger] kinds[i] is Inner);
                assert(kinds[i] is Left);
            }
        },
    }
}

} // verus!
