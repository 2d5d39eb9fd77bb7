//! What a query answers: the laws of WHERE, of projection, DISTINCT, ORDER BY and LIMIT, and of
//! GROUP BY, over the evaluator's answers on the rows.

use vstd::prelude::*;

use crate::db::ast::{Expr, ExprView};
use crate::db::exec::{
    all_values, bare, passes, streamed, value_of, Cols, ExecError, Keyed, Row,
};
use crate::db::keyed::{
    firsts, goes_first_at, groups_of, in_some_group, law_groups_part_the_rows_by_key,
    law_sorted_rows_are_in_order, law_the_first_of_equal_rows_is_kept,
    lemma_firsts, rising, KeyView,
};
use crate::db::plan::Sch;
use crate::db::query::{aggregated, filtered, grouped, key_rows, keys_in, pick};
use crate::db::select::{
    bare_rows, directions, limited, ordering, sort_keys, tail_of, unique_rows,
};
use crate::types::{Value, ValueView};

verus! {

// ---- WHERE ----

/// The condition is exactly true of the row, or there is none.
pub open spec fn holds_on<E: Fn(&Expr, &Sch, &Row) -> Result<Keyed, ExecError>>(
    f: E,
    cond: Option<ExprView>,
    s: Cols,
    r: Seq<ValueView>,
) -> bool {
    cond matches Some(p) ==> (value_of(f, p, s, r) matches Ok(v) && v.0 == ValueView::Bool(true))
}

/// `out` holds the evaluator's answers to the expressions on the row.
pub open spec fn shows<E: Fn(&Expr, &Sch, &Row) -> Result<Keyed, ExecError>>(
    f: E,
    es: Seq<ExprView>,
    s: Cols,
    r: Seq<ValueView>,
    out: Seq<(ValueView, KeyView)>,
) -> bool {
    &&& out.len() == es.len()
    &&& forall|c: int|
        0 <= c < es.len() ==> value_of(f, #[trigger] es[c], s, r) == Ok::<_, Seq<char>>(out[c])
}

/// Numbers that go up.
pub open spec fn upwards(at: Seq<int>) -> bool {
    forall|i: int, j: int| 0 <= i < j < at.len() ==> #[trigger] at[i] < #[trigger] at[j]
}

/// `at` numbers, upwards, the rows of which the condition is true, all of them or, where no
/// more than `want` are asked for, the first so many; `out` has what each of them shows.
pub open spec fn keeps_the_true<E: Fn(&Expr, &Sch, &Row) -> Result<Keyed, ExecError>>(
    f: E,
    cond: Option<ExprView>,
    es: Seq<ExprView>,
    s: Cols,
    rows: Seq<Seq<ValueView>>,
    want: int,
    at: Seq<int>,
    out: Seq<Seq<(ValueView, KeyView)>>,
) -> bool {
    &&& at.len() == out.len()
    &&& upwards(at)
    &&& forall|i: int|
        0 <= i < at.len() ==> 0 <= #[trigger] at[i] < rows.len() && holds_on(
            f,
            cond,
            s,
            rows[at[i]],
        ) && shows(f, es, s, rows[at[i]], out[i])
    &&& 0 <= want ==> at.len() <= want
    &&& forall|k: int|
        0 <= k < rows.len() && holds_on(f, cond, s, #[trigger] rows[k]) ==> at.contains(k) || 0
            <= want == at.len() && forall|i: int| 0 <= i < at.len() ==> at[i] < k
}

proof fn lemma_all_values<E: Fn(&Expr, &Sch, &Row) -> Result<Keyed, ExecError>>(
    f: E,
    es: Seq<ExprView>,
    s: Cols,
    r: Seq<ValueView>,
)
    requires
        all_values(f, es, s, r) is Ok,
    ensures
        shows(f, es, s, r, all_values(f, es, s, r)->Ok_0),
    decreases es.len(),
{
    if es.len() > 0 {
        let init = es.drop_last();
        lemma_all_values(f, init, s, r);
        let vs = all_values(f, es, s, r)->Ok_0;
        let ws = all_values(f, init, s, r)->Ok_0;
        assert forall|c: int| 0 <= c < es.len() implies value_of(f, #[trigger] es[c], s, r) == Ok::<
            _,
            Seq<char>,
        >(vs[c]) by {
            if c < init.len() {
                assert(init[c] == es[c]);
                assert(vs[c] == ws[c]);
            }
        }
    }
}

/// A filtered and projected query gives a row for every row of which the condition is exactly
/// true, in their order, and none for any other: not where it is false, null or anything else.
pub proof fn law_where_keeps_exactly_the_true_rows<
    E: Fn(&Expr, &Sch, &Row) -> Result<Keyed, ExecError>,
>(
    f: E,
    cond: Option<ExprView>,
    es: Seq<ExprView>,
    s: Cols,
    rows: Seq<Seq<ValueView>>,
    want: int,
) -> (at: Seq<int>)
    requires
        streamed(f, cond, es, s, rows, want) is Ok,
    ensures
        keeps_the_true(
            f,
            cond,
            es,
            s,
            rows,
            want,
            at,
            streamed(f, cond, es, s, rows, want)->Ok_0,
        ),
    decreases rows.len(),
{
    let out = streamed(f, cond, es, s, rows, want)->Ok_0;
    if rows.len() == 0 || want == 0 {
        Seq::empty()
    } else {
        let rest = rows.drop_first();
        let keep = passes(f, cond, s, rows[0])->Ok_0;
        let left = if keep {
            want - 1
        } else {
            want
        };
        let more = law_where_keeps_exactly_the_true_rows(f, cond, es, s, rest, left);
        let shifted = Seq::new(more.len(), |i: int| more[i] + 1);
        let at = if keep {
            seq![0int] + shifted
        } else {
            shifted
        };
        let first = if keep {
            1int
        } else {
            0
        };
        let tail = streamed(f, cond, es, s, rest, left)->Ok_0;
        if keep {
            lemma_all_values(f, es, s, rows[0]);
        }
        assert forall|i: int| first <= i < at.len() implies #[trigger] at[i] == more[i - first] + 1
            && out[i] == tail[i - first] && rows[at[i]] == rest[more[i - first]] by {
            assert(0 <= more[i - first] < rest.len());
        }
        assert forall|i: int| 0 <= i < at.len() implies 0 <= #[trigger] at[i] < rows.len()
            && holds_on(f, cond, s, rows[at[i]]) && shows(f, es, s, rows[at[i]], out[i]) by {
            if i >= first {
                assert(0 <= more[i - first] < rest.len());
            }
        }
        assert(upwards(at)) by {
            assert forall|i: int, j: int| 0 <= i < j < at.len() implies #[trigger] at[i]
                < #[trigger] at[j] by {
                assert(at[j] == more[j - first] + 1);
                assert(0 <= more[j - first]);
                if i >= first {
                    assert(more[i - first] < more[j - first]);
                }
            }
        }
        assert forall|k: int|
            0 <= k < rows.len() && holds_on(f, cond, s, #[trigger] rows[k]) implies at.contains(k)
            || 0 <= want == at.len() && forall|i: int| 0 <= i < at.len() ==> at[i] < k by {
            if k == 0 {
                assert(at[0] == 0);
            } else {
                assert(rest[k - 1] == rows[k]);
                if more.contains(k - 1) {
                    let i = more.index_of(k - 1);
                    assert(at[i + first] == k);
                } else {
                    assert forall|i: int| 0 <= i < at.len() implies at[i] < k by {
                        if i >= first {
                            assert(at[i] == more[i - first] + 1);
                        }
                    }
                }
            }
        }
        at
    }
}

/// `at` numbers, upwards, exactly the rows of which the condition is true.
pub open spec fn the_true_rows<E: Fn(&Expr, &Sch, &Row) -> Result<Keyed, ExecError>>(
    f: E,
    cond: Option<ExprView>,
    s: Cols,
    rows: Seq<Seq<ValueView>>,
    at: Seq<int>,
) -> bool {
    &&& upwards(at)
    &&& forall|i: int| 0 <= i < at.len() ==> 0 <= #[trigger] at[i] < rows.len()
    &&& forall|k: int|
        0 <= k < rows.len() ==> (#[trigger] at.contains(k) <==> holds_on(f, cond, s, rows[k]))
}

/// The rows that an aggregated query or a join goes on with are exactly those of which the
/// condition is true, in their order.
pub proof fn law_filtering_keeps_exactly_the_true_rows<
    E: Fn(&Expr, &Sch, &Row) -> Result<Keyed, ExecError>,
>(f: E, cond: Option<ExprView>, s: Cols, rows: Seq<Seq<ValueView>>) -> (at: Seq<int>)
    requires
        filtered(f, cond, s, rows) is Ok,
    ensures
        the_true_rows(f, cond, s, rows, at),
        filtered(f, cond, s, rows)->Ok_0 == at.map_values(|i: int| rows[i]),
    decreases rows.len(),
{
    let out = filtered(f, cond, s, rows)->Ok_0;
    if rows.len() == 0 {
        let at = Seq::<int>::empty();
        assert(out =~= at.map_values(|i: int| rows[i]));
        at
    } else {
        let init = rows.drop_last();
        let n = rows.len() - 1;
        let before = law_filtering_keeps_exactly_the_true_rows(f, cond, s, init);
        let keep = passes(f, cond, s, rows.last())->Ok_0;
        let at = if keep {
            before.push(n)
        } else {
            before
        };
        assert(before.map_values(|i: int| init[i]) =~= before.map_values(|i: int| rows[i]));
        assert(out =~= at.map_values(|i: int| rows[i]));
        assert forall|i: int, j: int| 0 <= i < j < at.len() implies #[trigger] at[i]
            < #[trigger] at[j] by {
            assert(at[i] == before[i]);
            if j < before.len() {
                assert(at[j] == before[j]);
            }
        }
        assert forall|k: int| 0 <= k < rows.len() implies (#[trigger] at.contains(k) <==> holds_on(
            f,
            cond,
            s,
            rows[k],
        )) by {
            if k < n {
                assert(init[k] == rows[k]);
                assert(before.contains(k) <==> holds_on(f, cond, s, init[k]));
                if before.contains(k) {
                    let i = before.index_of(k);
                    assert(at[i] == k);
                }
                if at.contains(k) {
                    let i = at.index_of(k);
                    assert(before[i] == k);
                }
            } else {
                if keep {
                    assert(at[before.len() as int] == k);
                } else if at.contains(k) {
                    let i = before.index_of(k);
                    assert(before[i] < init.len());
                }
            }
        }
        at
    }
}

// ---- GROUP BY ----

/// The evaluator gives the two rows equal keys for every expression.
pub open spec fn same_keys<E: Fn(&Expr, &Sch, &Row) -> Result<Keyed, ExecError>>(
    f: E,
    es: Seq<ExprView>,
    s: Cols,
    x: Seq<ValueView>,
    y: Seq<ValueView>,
) -> bool {
    forall|c: int|
        0 <= c < es.len() ==> (value_of(f, #[trigger] es[c], s, x)->Ok_0).1 == (value_of(
            f,
            es[c],
            s,
            y,
        )->Ok_0).1
}

pub(crate) proof fn lemma_key_rows<E: Fn(&Expr, &Sch, &Row) -> Result<Keyed, ExecError>>(
    f: E,
    es: Seq<ExprView>,
    s: Cols,
    rows: Seq<Seq<ValueView>>,
)
    requires
        key_rows(f, es, s, rows) is Ok,
    ensures
        key_rows(f, es, s, rows)->Ok_0.len() == rows.len(),
        forall|i: int|
            0 <= i < rows.len() ==> (#[trigger] key_rows(f, es, s, rows)->Ok_0[i]).len()
                == es.len() && forall|c: int|
                0 <= c < es.len() ==> (value_of(f, #[trigger] es[c], s, rows[i]) matches Ok(v)
                    && v.1 == key_rows(f, es, s, rows)->Ok_0[i][c]),
    decreases rows.len(),
{
    if rows.len() > 0 {
        let init = rows.drop_last();
        lemma_key_rows(f, es, s, init);
        lemma_all_values(f, es, s, rows.last());
        let ks = key_rows(f, es, s, rows)->Ok_0;
        let was = key_rows(f, es, s, init)->Ok_0;
        let vs = all_values(f, es, s, rows.last())->Ok_0;
        assert forall|i: int| 0 <= i < rows.len() implies (#[trigger] ks[i]).len() == es.len()
            && forall|c: int|
            0 <= c < es.len() ==> (value_of(f, #[trigger] es[c], s, rows[i]) matches Ok(v) && v.1
                == ks[i][c]) by {
            if i < init.len() {
                assert(ks[i] == was[i]);
                assert(init[i] == rows[i]);
            } else {
                assert(ks[i] == keys_in(vs));
            }
        }
    }
}

/// `gs` says which rows each group has.
pub open spec fn parts<E: Fn(&Expr, &Sch, &Row) -> Result<Keyed, ExecError>>(
    f: E,
    by: Seq<ExprView>,
    s: Cols,
    rows: Seq<Seq<ValueView>>,
    groups: Seq<Seq<Seq<ValueView>>>,
    gs: Seq<Seq<usize>>,
) -> bool {
    &&& groups.len() == gs.len()
    &&& forall|g: int|
        0 <= g < gs.len() ==> {
            &&& (#[trigger] gs[g]).len() > 0
            &&& rising(gs[g])
            &&& groups[g].len() == gs[g].len()
            &&& forall|i: int|
                0 <= i < gs[g].len() ==> (#[trigger] gs[g][i]) < rows.len() && groups[g][i]
                    == rows[gs[g][i] as int]
            &&& forall|r: int|
                0 <= r < rows.len() ==> (#[trigger] gs[g].contains(r as usize) <==> same_keys(
                    f,
                    by,
                    s,
                    rows[r],
                    groups[g][0],
                ))
        }
    &&& forall|g: int, h: int|
        0 <= g < h < gs.len() ==> (#[trigger] gs[g])[0] < (#[trigger] gs[h])[0] && !same_keys(
            f,
            by,
            s,
            groups[g][0],
            groups[h][0],
        )
    &&& forall|r: int| 0 <= r < rows.len() ==> #[trigger] has_group(gs, r)
}

pub open spec fn has_group(gs: Seq<Seq<usize>>, r: int) -> bool {
    exists|g: int| 0 <= g < gs.len() && #[trigger] gs[g].contains(r as usize)
}

/// GROUP BY puts every row in one group, and two rows in the same one exactly where the
/// grouping expressions have equal keys on them; groups come in the order of their first
/// rows, rows of a group as they came. Without GROUP BY all rows are one group, even if there
/// are none.
pub proof fn law_group_by_parts_the_rows<E: Fn(&Expr, &Sch, &Row) -> Result<Keyed, ExecError>>(
    f: E,
    by: Seq<ExprView>,
    s: Cols,
    rows: Seq<Seq<ValueView>>,
) -> (gs: Seq<Seq<usize>>)
    requires
        grouped(f, by, s, rows) is Ok,
        rows.len() <= usize::MAX,
    ensures
        by.len() > 0 ==> parts(f, by, s, rows, grouped(f, by, s, rows)->Ok_0, gs),
        by.len() == 0 ==> grouped(f, by, s, rows)->Ok_0 == seq![rows],
{
    if by.len() == 0 {
        Seq::empty()
    } else {
        let ks = key_rows(f, by, s, rows)->Ok_0;
        let groups = grouped(f, by, s, rows)->Ok_0;
        let gs = groups_of(ks);
        lemma_key_rows(f, by, s, rows);
        assert forall|x: int, y: int| 0 <= x < rows.len() && 0 <= y < rows.len() implies (same_keys(
            f,
            by,
            s,
            #[trigger] rows[x],
            #[trigger] rows[y],
        ) <==> ks[x] == ks[y]) by {
            assert(ks[x].len() == by.len() && ks[y].len() == by.len());
            if same_keys(f, by, s, rows[x], rows[y]) {
                assert forall|c: int| 0 <= c < by.len() implies ks[x][c] == ks[y][c] by {
                    assert(value_of(f, by[c], s, rows[x]) is Ok);
                    assert(value_of(f, by[c], s, rows[y]) is Ok);
                }
                assert(ks[x] =~= ks[y]);
            }
            if ks[x] == ks[y] {
                assert forall|c: int| 0 <= c < by.len() implies (value_of(
                    f,
                    #[trigger] by[c],
                    s,
                    rows[x],
                )->Ok_0).1 == (value_of(f, by[c], s, rows[y])->Ok_0).1 by {}
            }
        }
        assert forall|g: int| 0 <= g < gs.len() implies {
            &&& (#[trigger] gs[g]).len() > 0
            &&& rising(gs[g])
            &&& groups[g].len() == gs[g].len()
            &&& forall|i: int|
                0 <= i < gs[g].len() ==> (#[trigger] gs[g][i]) < rows.len() && groups[g][i]
                    == rows[gs[g][i] as int]
            &&& forall|r: int|
                0 <= r < rows.len() ==> (#[trigger] gs[g].contains(r as usize) <==> same_keys(
                    f,
                    by,
                    s,
                    rows[r],
                    groups[g][0],
                ))
        } by {
            law_groups_part_the_rows_by_key(ks, g, g);
            assert(groups[g] == pick(rows, gs[g]));
            assert(groups[g][0] == rows[gs[g][0] as int]);
        }
        assert forall|g: int, h: int| 0 <= g < h < gs.len() implies (#[trigger] gs[g])[0] < (
        #[trigger] gs[h])[0] && !same_keys(f, by, s, groups[g][0], groups[h][0]) by {
            law_groups_part_the_rows_by_key(ks, g, h);
            assert(gs[g].len() > 0 && gs[h].len() > 0);
            assert(groups[g][0] == rows[gs[g][0] as int]);
            assert(groups[h][0] == rows[gs[h][0] as int]);
        }
        assert forall|r: int| 0 <= r < rows.len() implies #[trigger] has_group(gs, r) by {
            if gs.len() > 0 {
                law_groups_part_the_rows_by_key(ks, 0, 0);
                assert(in_some_group(ks, r));
                let x = choose|x: int|
                    0 <= x < groups_of(ks).len() && #[trigger] groups_of(ks)[x].contains(
                        r as usize,
                    );
                assert(gs[x].contains(r as usize));
            } else {
                law_the_first_of_equal_rows_is_kept(ks);
                assert(firsts(ks).len() == gs.len());
                assert(firsts(ks).contains(0int as usize));
            }
        }
        gs
    }
}

/// An aggregated query groups exactly the rows of which WHERE is true.
pub proof fn law_aggregated_queries_group_the_true_rows<
    E: Fn(&Expr, &Sch, &Row) -> Result<Keyed, ExecError>,
    A: Fn(bool, &Vec<Value>) -> Value,
>(
    f: E,
    a: A,
    cond: Option<ExprView>,
    by: Seq<ExprView>,
    having: Option<ExprView>,
    es: Seq<ExprView>,
    s: Cols,
    rows: Seq<Seq<ValueView>>,
) -> (at: Seq<int>)
    requires
        aggregated(f, a, cond, by, having, es, s, rows) is Ok,
    ensures
        the_true_rows(f, cond, s, rows, at),
        grouped(f, by, s, at.map_values(|i: int| rows[i])) is Ok,
        crate::db::exec::group_rows_out(
            f,
            a,
            having,
            es,
            s,
            grouped(f, by, s, at.map_values(|i: int| rows[i]))->Ok_0,
        ) == aggregated(f, a, cond, by, having, es, s, rows),
{
    law_filtering_keeps_exactly_the_true_rows(f, cond, s, rows)
}

// ---- DISTINCT, ORDER BY, LIMIT ----

/// No row before `x` has the same keys.
pub open spec fn is_new(rs: Seq<Seq<(ValueView, KeyView)>>, x: int) -> bool {
    forall|y: int| 0 <= y < x ==> keys_of(#[trigger] rs[y]) != keys_of(rs[x])
}

/// The keys of a row.
pub open spec fn keys_of(r: Seq<(ValueView, KeyView)>) -> Seq<KeyView> {
    Seq::new(r.len(), |c: int| r[c].1)
}

/// The keys of a row that it is sorted by.
pub open spec fn sorting(r: Seq<(ValueView, KeyView)>, ks: Seq<(usize, bool)>) -> Seq<KeyView> {
    Seq::new(ks.len(), |c: int| r[ks[c].0 as int].1)
}

/// Which way each column is sorted.
pub open spec fn ways(ks: Seq<(usize, bool)>) -> Seq<bool> {
    Seq::new(ks.len(), |c: int| ks[c].1)
}

/// Row `x` comes before row `y`: the first sorting column in which they differ says so, or
/// they differ in none and `x` came first.
pub open spec fn comes_first(
    rs: Seq<Seq<(ValueView, KeyView)>>,
    ks: Seq<(usize, bool)>,
    x: int,
    y: int,
) -> bool {
    ||| exists|c: int| #[trigger] goes_first_at(sorting(rs[x], ks), sorting(rs[y], ks), ways(ks), c)
    ||| x < y && forall|c: int|
        0 <= c < ks.len() ==> #[trigger] sorting(rs[x], ks)[c] == sorting(rs[y], ks)[c]
}

/// A row that counts: with DISTINCT the first with its keys, else every row.
pub open spec fn counts(rs: Seq<Seq<(ValueView, KeyView)>>, distinct: bool, x: int) -> bool {
    0 <= x < rs.len() && (distinct ==> is_new(rs, x))
}

/// `o` numbers the rows that come out: rows that count, each once, in order. A row that counts
/// and does not come out is behind all that do, and as many come out as LIMIT allows.
pub open spec fn comes_out(
    rs: Seq<Seq<(ValueView, KeyView)>>,
    distinct: bool,
    ks: Seq<(usize, bool)>,
    limit: Option<i64>,
    o: Seq<int>,
    out: Seq<Seq<ValueView>>,
) -> bool {
    &&& o.len() == out.len()
    &&& o.no_duplicates()
    &&& forall|i: int|
        0 <= i < o.len() ==> counts(rs, distinct, #[trigger] o[i]) && out[i] == Seq::new(
            rs[o[i]].len(),
            |c: int| rs[o[i]][c].0,
        )
    &&& forall|i: int, j: int|
        0 <= i < j < o.len() ==> comes_first(rs, ks, #[trigger] o[i], #[trigger] o[j])
    &&& limit matches Some(n) ==> out.len() <= if n < 0 {
        0
    } else {
        n as int
    }
    &&& forall|x: int| #[trigger]
        counts(rs, distinct, x) && !o.contains(x) ==> limit is Some && out.len() >= limit->0
            && forall|i: int| 0 <= i < o.len() ==> comes_first(rs, ks, #[trigger] o[i], x)
}

proof fn lemma_sort_keys(rs: Seq<Seq<(ValueView, KeyView)>>, ks: Seq<(usize, bool)>, x: int)
    requires
        0 <= x < rs.len(),
    ensures
        sort_keys(rs, ks).len() == rs.len(),
        sort_keys(rs, ks)[x] == sorting(rs[x], ks),
        directions(ks) == ways(ks),
{
    assert(sort_keys(rs, ks)[x] =~= sorting(rs[x], ks));
    assert(directions(ks) =~= ways(ks));
}

/// DISTINCT leaves the first of the rows with equal keys, ORDER BY puts the rows in order by
/// the first column in which they differ and leaves equal ones as they came, and LIMIT takes
/// so many from the front.
#[verifier::rlimit(60)]
#[verifier::spinoff_prover]
pub proof fn law_rows_come_out_in_order(
    rs: Seq<Seq<(ValueView, KeyView)>>,
    distinct: bool,
    ks: Seq<(usize, bool)>,
    limit: Option<i64>,
    out: Seq<Seq<ValueView>>,
) -> (o: Seq<int>)
    requires
        tail_of(rs, distinct, ks, limit, out),
        rs.len() <= usize::MAX,
    ensures
        comes_out(rs, distinct, ks, limit, o, out),
{
    let kk = rs.map_values(|r: Seq<(ValueView, KeyView)>| keys_in(r));
    assert forall|x: int| 0 <= x < rs.len() implies kk[x] == keys_of(#[trigger] rs[x]) by {
        assert(kk[x] =~= keys_of(rs[x]));
    }
    let sel: Seq<usize> = if distinct {
        firsts(kk)
    } else {
        Seq::new(rs.len(), |i: int| i as usize)
    };
    law_the_first_of_equal_rows_is_kept(kk);
    lemma_firsts(kk);
    let us = if distinct {
        unique_rows(rs)
    } else {
        rs
    };
    assert(us =~= pick(rs, sel));
    assert forall|x: int| 0 <= x < rs.len() implies (counts(rs, distinct, x) <==> #[trigger] sel.contains(
        x as usize,
    )) by {
        if distinct {
            if is_new(rs, x) {
                assert forall|q: int| 0 <= q < x implies kk[q] != kk[x] by {
                    assert(keys_of(rs[q]) != keys_of(rs[x]));
                }
            }
            if sel.contains(x as usize) {
                assert forall|y: int| 0 <= y < x implies keys_of(#[trigger] rs[y]) != keys_of(
                    rs[x],
                ) by {
                    assert(kk[y] != kk[x]);
                }
            }
        } else {
            assert(sel[x] == x as usize);
        }
    }
    assert(rising(sel)) by {
        if !distinct {
            assert forall|i: int, j: int| 0 <= i < j < sel.len() implies #[trigger] sel[i]
                < #[trigger] sel[j] by {}
        }
    }
    let p = choose|p: Seq<usize>| #[trigger]
        ordering(p, us, ks) && out == limited(bare_rows(pick(us, p)), limit);
    let n = us.len() as int;
    assert(p.len() == n && forall|i: int| 0 <= i < p.len() ==> (#[trigger] p[i]) < n) by {
        if ks.len() > 0 {
            assert(sort_keys(us, ks).len() == n);
        }
    }
    assert forall|i: int, j: int| 0 <= i < j < p.len() implies comes_first(
        us,
        ks,
        (#[trigger] p[i]) as int,
        (#[trigger] p[j]) as int,
    ) && p[i] != p[j] by {
        if ks.len() > 0 {
            lemma_sort_keys(us, ks, p[i] as int);
            lemma_sort_keys(us, ks, p[j] as int);
            law_sorted_rows_are_in_order(p, sort_keys(us, ks), directions(ks), i, j, 0);
        }
    }
    assert forall|u: int| 0 <= u < n implies #[trigger] p.contains(u as usize) by {
        if ks.len() > 0 {
            assert(sort_keys(us, ks).len() == n);
            if p.len() > 1 {
                law_sorted_rows_are_in_order(p, sort_keys(us, ks), directions(ks), 0, 1, u);
            } else {
                assert(p[0] == 0usize);
            }
        } else {
            assert(p[u] == u as usize);
        }
    }
    let o = Seq::new(out.len(), |i: int| sel[p[i] as int] as int);
    assert(out.len() <= n);
    assert forall|i: int, j: int| 0 <= i < n && 0 <= j < n && i != j implies comes_first(
        us,
        ks,
        i,
        j,
    ) == #[trigger] comes_first(rs, ks, sel[i] as int, sel[j] as int) by {
        assert(us[i] == rs[sel[i] as int] && us[j] == rs[sel[j] as int]);
        if i < j {
            assert(sel[i] < sel[j]);
        } else {
            assert(sel[j] < sel[i]);
        }
    }
    assert forall|i: int| 0 <= i < o.len() implies counts(rs, distinct, #[trigger] o[i]) && out[i]
        == Seq::new(rs[o[i]].len(), |c: int| rs[o[i]][c].0) by {
        let u = p[i] as int;
        assert(sel.contains(sel[u]));
        assert(sel.contains(o[i] as usize));
        assert(out[i] == bare_rows(pick(us, p))[i]);
        assert(out[i] == bare(us[u]));
        assert(us[u] == rs[o[i]]);
        assert(bare(rs[o[i]]) =~= Seq::new(rs[o[i]].len(), |c: int| rs[o[i]][c].0));
    }
    assert forall|i: int, j: int| 0 <= i < j < o.len() implies comes_first(
        rs,
        ks,
        #[trigger] o[i],
        #[trigger] o[j],
    ) by {
        assert(comes_first(us, ks, p[i] as int, p[j] as int) && p[i] != p[j]);
        assert(comes_first(rs, ks, sel[p[i] as int] as int, sel[p[j] as int] as int));
    }
    assert(o.no_duplicates()) by {
        assert forall|i: int, j: int| 0 <= i < j < o.len() implies o[i] != o[j] by {
            assert(p[i] != p[j]);
            if p[i] < p[j] {
                assert(sel[p[i] as int] < sel[p[j] as int]);
            } else {
                assert(sel[p[j] as int] < sel[p[i] as int]);
            }
        }
    }
    assert forall|x: int| #[trigger] counts(rs, distinct, x) && !o.contains(x) implies limit is Some
        && out.len() >= limit->0 && forall|i: int|
        0 <= i < o.len() ==> comes_first(rs, ks, #[trigger] o[i], x) by {
        assert(sel.contains(x as usize));
        let u = sel.index_of(x as usize);
        assert(p.contains(u as usize));
        let k = p.index_of(u as usize);
        if k < out.len() {
            assert(o[k] == x);
        }
        assert(limited(bare_rows(pick(us, p)), limit).len() < n);
        assert forall|i: int| 0 <= i < o.len() implies comes_first(rs, ks, #[trigger] o[i], x) by {
            assert(comes_first(us, ks, p[i] as int, p[k] as int) && p[i] != p[k]);
            assert(comes_first(rs, ks, sel[p[i] as int] as int, sel[p[k] as int] as int));
        }
    }
    o
}

} // verus!
