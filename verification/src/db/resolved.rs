//! What names mean in a query: the laws of the SELECT list, of ORDER BY, of column references,
//! and of what occurs inside an expression.

use vstd::prelude::*;

use crate::db::ast::{ExprView, NodeView};
use crate::db::catalog::{IndexMeta, Schema};
use crate::db::exec::Cols;
use crate::db::plan::{
    all_bind, all_plain, any_agg, binds, candidates, column_named, has_agg, index_on, plain,
};
use crate::db::select::{
    columns_of, first_label, order_column, output_columns, sort_columns, table_cols, ItemView,
};
use crate::types::ValueView;

verus! {

// ---- the SELECT list ----

/// The output column `x` is column `c` of the table: its name, and a reference to it.
pub open spec fn is_column(x: (Seq<char>, ExprView), c: (Seq<char>, Seq<char>)) -> bool {
    &&& x.0 == c.1
    &&& x.1.node == NodeView::Column { table: Some(c.0), name: c.1 }
    &&& x.1.kids.len() == 0
}

/// `at` numbers, upwards, exactly the columns of the table, or all where none is named.
pub open spec fn names_columns(s: Cols, t: Option<Seq<char>>, at: Seq<int>) -> bool {
    &&& forall|i: int, j: int| 0 <= i < j < at.len() ==> #[trigger] at[i] < #[trigger] at[j]
    &&& forall|i: int| 0 <= i < at.len() ==> 0 <= #[trigger] at[i] < s.len()
    &&& forall|k: int|
        0 <= k < s.len() ==> (#[trigger] at.contains(k) <==> (t matches Some(name) ==> s[k].0
            == name))
}

/// `*` stands for all columns in their order, and `t.*` for those of table `t`.
pub proof fn law_wildcards_stand_for_the_columns(s: Cols, t: Option<Seq<char>>) -> (at: Seq<int>)
    ensures
        names_columns(s, t, at),
        columns_of(s, t).len() == at.len(),
        forall|i: int|
            0 <= i < at.len() ==> is_column(#[trigger] columns_of(s, t)[i], s[at[i]]),
    decreases s.len(),
{
    if s.len() == 0 {
        Seq::empty()
    } else {
        let init = s.drop_last();
        let n = s.len() - 1;
        let was = law_wildcards_stand_for_the_columns(init, t);
        let keep = t is None || t == Some(s[n].0);
        let at = if keep {
            was.push(n)
        } else {
            was
        };
        let out = columns_of(s, t);
        assert forall|i: int| 0 <= i < was.len() implies at[i] == #[trigger] was[i] && s[at[i]]
            == init[was[i]] by {}
        assert forall|i: int| 0 <= i < at.len() implies is_column(#[trigger] out[i], s[at[i]]) by {
            if i < was.len() {
                assert(out[i] == columns_of(init, t)[i]);
                assert(was[i] == at[i]);
            }
        }
        assert forall|i: int, j: int| 0 <= i < j < at.len() implies #[trigger] at[i]
            < #[trigger] at[j] by {
            assert(was[i] == at[i]);
            if j < was.len() {
                assert(was[j] == at[j]);
            }
        }
        assert forall|i: int| 0 <= i < at.len() implies 0 <= #[trigger] at[i] < s.len() by {
            if i < was.len() {
                assert(was[i] == at[i]);
            }
        }
        assert forall|k: int| 0 <= k < s.len() implies (#[trigger] at.contains(k) <==> (
        t matches Some(name) ==> s[k].0 == name)) by {
            if k < n {
                assert(was.contains(k) <==> (t matches Some(name) ==> init[k].0 == name));
                if was.contains(k) {
                    let i = was.index_of(k);
                    assert(at[i] == k);
                }
                if at.contains(k) {
                    let i = at.index_of(k);
                    assert(was[i] == k);
                }
            } else {
                if keep {
                    assert(at[was.len() as int] == k);
                } else if at.contains(k) {
                    let i = was.index_of(k);
                    assert(was[i] < init.len());
                }
            }
        }
        at
    }
}

/// The items of a SELECT list stand side by side: what two lists give is what the one gives
/// followed by what the other gives.
pub proof fn law_items_stand_side_by_side(xs: Seq<ItemView>, ys: Seq<ItemView>, s: Cols)
    ensures
        output_columns(xs + ys, s) is Some <==> output_columns(xs, s) is Some && output_columns(
            ys,
            s,
        ) is Some,
        output_columns(xs + ys, s) is Some ==> output_columns(xs + ys, s)->0 == output_columns(
            xs,
            s,
        )->0 + output_columns(ys, s)->0,
    decreases ys.len(),
{
    if ys.len() == 0 {
        assert(xs + ys =~= xs);
        if output_columns(xs, s) is Some {
            assert(output_columns(xs, s)->0 + Seq::<(Seq<char>, ExprView)>::empty()
                =~= output_columns(xs, s)->0);
        }
    } else {
        law_items_stand_side_by_side(xs, ys.drop_last(), s);
        assert((xs + ys).drop_last() =~= xs + ys.drop_last());
        assert((xs + ys).last() == ys.last());
        if output_columns(xs + ys, s) is Some {
            let a = output_columns(xs, s)->0;
            let b = output_columns(ys.drop_last(), s)->0;
            let c = output_columns(ys, s)->0;
            assert(output_columns(xs + ys, s)->0 =~= a + c);
        }
    }
}

/// An expression stands for itself under its label, unless it asks another query; `*` stands
/// for all columns; `t.*` stands for the columns of `t`, of which there has to be one.
pub proof fn law_what_an_item_stands_for(item: ItemView, s: Cols)
    ensures
        item matches ItemView::Expr { expr, label } ==> {
            &&& plain(expr) ==> output_columns(seq![item], s) == Some(seq![(label, expr)])
            &&& !plain(expr) ==> output_columns(seq![item], s) is None
        },
        item is Wildcard ==> output_columns(seq![item], s) == Some(columns_of(s, None)),
        item matches ItemView::QualifiedWildcard(t) ==> {
            &&& (exists|k: int| 0 <= k < s.len() && (#[trigger] s[k]).0 == t) ==> output_columns(
                seq![item],
                s,
            ) == Some(columns_of(s, Some(t)))
            &&& (forall|k: int| 0 <= k < s.len() ==> (#[trigger] s[k]).0 != t) ==> output_columns(
                seq![item],
                s,
            ) is None
        },
{
    let one = seq![item];
    assert(one.drop_last() =~= Seq::<ItemView>::empty());
    assert(one.last() == item);
    reveal_with_fuel(output_columns, 2);
    let none = Seq::<(Seq<char>, ExprView)>::empty();
    match item {
        ItemView::Wildcard => {
            assert(none + columns_of(s, None) =~= columns_of(s, None));
        },
        ItemView::QualifiedWildcard(t) => {
            let at = law_wildcards_stand_for_the_columns(s, Some(t));
            if exists|k: int| 0 <= k < s.len() && (#[trigger] s[k]).0 == t {
                let k = choose|k: int| 0 <= k < s.len() && (#[trigger] s[k]).0 == t;
                assert(at.contains(k));
            } else if at.len() > 0 {
                assert(at.contains(at[0]));
                assert(s[at[0]].0 == t);
            }
            assert(none + columns_of(s, Some(t)) =~= columns_of(s, Some(t)));
        },
        ItemView::Expr { expr, label } => {
            assert(none + seq![(label, expr)] =~= seq![(label, expr)]);
        },
    }
}

// ---- ORDER BY ----

proof fn lemma_first_label(ls: Seq<Seq<char>>, name: Seq<char>)
    requires
        ls.len() <= usize::MAX,
    ensures
        match first_label(ls, name) {
            Some(i) => i < ls.len() && ls[i as int] == name && forall|j: int|
                0 <= j < i ==> #[trigger] ls[j] != name,
            None => forall|j: int| 0 <= j < ls.len() ==> #[trigger] ls[j] != name,
        },
    decreases ls.len(),
{
    if ls.len() > 0 {
        let init = ls.drop_last();
        lemma_first_label(init, name);
        assert forall|j: int| 0 <= j < init.len() implies init[j] == #[trigger] ls[j] by {}
    }
}

/// A name in ORDER BY means the first output column of that name, and a number `n` means output
/// column `n`, counted from one. Nothing else means a column.
pub proof fn law_what_order_by_means(e: ExprView, ls: Seq<Seq<char>>, i: usize)
    requires
        ls.len() <= usize::MAX,
    ensures
        order_column(e, ls) == Some(i) <==> i < ls.len() && match e.node {
            NodeView::Column { table, name } => ls[i as int] == name && forall|j: int|
                0 <= j < i ==> #[trigger] ls[j] != name,
            NodeView::Literal(ValueView::BigInt(n)) => n == i + 1,
            _ => false,
        },
{
    match e.node {
        NodeView::Column { table, name } => {
            lemma_first_label(ls, name);
            match first_label(ls, name) {
                Some(k) => {
                    if i < ls.len() && ls[i as int] == name && k != i {
                        if k < i {
                            assert(ls[k as int] == name);
                        } else {
                            assert(ls[i as int] != name);
                        }
                    }
                },
                None => {
                    if i < ls.len() {
                        assert(ls[i as int] != name);
                    }
                },
            }
        },
        _ => {},
    }
}

/// The keys of ORDER BY mean a column each, with the direction that each is given; where one
/// means none they mean nothing.
pub proof fn law_order_keys_mean_a_column_each(ks: Seq<(ExprView, bool)>, ls: Seq<Seq<char>>)
    ensures
        sort_columns(ks, ls) is Some <==> forall|i: int|
            0 <= i < ks.len() ==> order_column((#[trigger] ks[i]).0, ls) is Some,
        sort_columns(ks, ls) matches Some(cs) ==> cs.len() == ks.len() && forall|i: int|
            0 <= i < ks.len() ==> order_column((#[trigger] ks[i]).0, ls) == Some(cs[i].0) && cs[i].1
                == ks[i].1,
    decreases ks.len(),
{
    if ks.len() > 0 {
        let init = ks.drop_last();
        let n = ks.len() - 1;
        law_order_keys_mean_a_column_each(init, ls);
        assert forall|i: int| 0 <= i < init.len() implies init[i] == #[trigger] ks[i] by {}
        if forall|i: int| 0 <= i < ks.len() ==> order_column((#[trigger] ks[i]).0, ls) is Some {
            assert forall|i: int| 0 <= i < init.len() implies order_column(
                (#[trigger] init[i]).0,
                ls,
            ) is Some by {
                assert(init[i] == ks[i]);
            }
            assert(order_column(ks[n].0, ls) is Some);
        }
        if sort_columns(ks, ls) is Some {
            let cs = sort_columns(ks, ls)->0;
            assert forall|i: int| 0 <= i < ks.len() implies order_column((#[trigger] ks[i]).0, ls)
                == Some(cs[i].0) && cs[i].1 == ks[i].1 by {
                if i < n {
                    assert(init[i] == ks[i]);
                }
            }
        }
    }
}

// ---- inside an expression ----

/// The part of an expression that a path of operand numbers leads to.
pub open spec fn part_at(e: ExprView, path: Seq<int>) -> Option<ExprView>
    decreases path.len(),
{
    if path.len() == 0 {
        Some(e)
    } else if 0 <= path[0] < e.kids.len() {
        part_at(e.kids[path[0]], path.drop_first())
    } else {
        None
    }
}

/// A literal, a column or a subquery: nothing is looked for inside it.
pub open spec fn is_leaf(n: NodeView) -> bool {
    n is Literal || n is Column || n is Subquery
}

/// The node that a path of operand numbers leads to, not through a literal, a column or a
/// subquery.
pub open spec fn node_at(e: ExprView, path: Seq<int>) -> Option<NodeView>
    decreases path.len(),
{
    if path.len() == 0 {
        Some(e.node)
    } else if !is_leaf(e.node) && 0 <= path[0] < e.kids.len() {
        node_at(e.kids[path[0]], path.drop_first())
    } else {
        None
    }
}

proof fn lemma_step<T>(k: T, path: Seq<T>)
    ensures
        (seq![k] + path).len() == path.len() + 1,
        (seq![k] + path)[0] == k,
        (seq![k] + path).drop_first() == path,
{
    assert((seq![k] + path).drop_first() =~= path);
}

proof fn lemma_any_agg(es: Seq<ExprView>)
    ensures
        any_agg(es) <==> exists|k: int| 0 <= k < es.len() && has_agg(#[trigger] es[k]),
    decreases es.len(),
{
    if es.len() > 0 {
        let init = es.drop_last();
        lemma_any_agg(init);
        assert forall|k: int| 0 <= k < init.len() implies init[k] == #[trigger] es[k] by {}
        if any_agg(init) {
            let k = choose|k: int| 0 <= k < init.len() && has_agg(#[trigger] init[k]);
            assert(has_agg(es[k]));
        }
        if has_agg(es.last()) {
            assert(has_agg(es[es.len() - 1]));
        }
        if exists|k: int| 0 <= k < es.len() && has_agg(#[trigger] es[k]) {
            let k = choose|k: int| 0 <= k < es.len() && has_agg(#[trigger] es[k]);
            if k < init.len() {
                assert(has_agg(init[k]));
            }
        }
    }
}

/// A path leads to an aggregate.
pub open spec fn is_aggregate_at(e: ExprView, path: Seq<int>) -> bool {
    node_at(e, path) matches Some(n) && n is Aggregate
}

/// An expression has an aggregate exactly where a path leads to one.
pub proof fn law_aggregates_are_found_anywhere(e: ExprView)
    ensures
        has_agg(e) <==> exists|path: Seq<int>| #[trigger] is_aggregate_at(e, path),
    decreases e,
{
    lemma_any_agg(e.kids);
    if has_agg(e) {
        if e.node is Aggregate {
            assert(is_aggregate_at(e, Seq::empty()));
        } else {
            let k = choose|k: int| 0 <= k < e.kids.len() && has_agg(#[trigger] e.kids[k]);
            law_aggregates_are_found_anywhere(e.kids[k]);
            let path = choose|path: Seq<int>| #[trigger] is_aggregate_at(e.kids[k], path);
            lemma_step(k, path);
            assert(is_aggregate_at(e, seq![k] + path));
        }
    }
    if exists|path: Seq<int>| #[trigger] is_aggregate_at(e, path) {
        let path = choose|path: Seq<int>| #[trigger] is_aggregate_at(e, path);
        if path.len() > 0 {
            let k = path[0];
            law_aggregates_are_found_anywhere(e.kids[k]);
            assert(is_aggregate_at(e.kids[k], path.drop_first()));
            assert(has_agg(e.kids[k]));
        }
    }
}

pub(crate) proof fn lemma_all_plain(es: Seq<ExprView>)
    ensures
        all_plain(es) <==> forall|k: int| 0 <= k < es.len() ==> plain(#[trigger] es[k]),
    decreases es.len(),
{
    if es.len() > 0 {
        let init = es.drop_last();
        lemma_all_plain(init);
        assert forall|k: int| 0 <= k < init.len() implies init[k] == #[trigger] es[k] by {}
        if all_plain(es) {
            assert forall|k: int| 0 <= k < es.len() implies plain(#[trigger] es[k]) by {
                if k < init.len() {
                    assert(plain(init[k]));
                }
            }
        }
        if forall|k: int| 0 <= k < es.len() ==> plain(#[trigger] es[k]) {
            assert forall|k: int| 0 <= k < init.len() implies plain(#[trigger] init[k]) by {
                assert(init[k] == es[k]);
            }
            assert(plain(es[es.len() - 1]));
        }
    }
}

/// A path leads to a subquery.
pub open spec fn is_subquery_at(e: ExprView, path: Seq<int>) -> bool {
    part_at(e, path) matches Some(x) && x.node is Subquery
}

/// An expression asks another query exactly where a path leads to one.
pub proof fn law_subqueries_are_found_anywhere(e: ExprView)
    ensures
        plain(e) <==> forall|path: Seq<int>| !#[trigger] is_subquery_at(e, path),
    decreases e,
{
    lemma_all_plain(e.kids);
    if !plain(e) {
        if e.node is Subquery {
            assert(is_subquery_at(e, Seq::empty()));
        } else {
            let k = choose|k: int| 0 <= k < e.kids.len() && !plain(#[trigger] e.kids[k]);
            law_subqueries_are_found_anywhere(e.kids[k]);
            let path = choose|path: Seq<int>| #[trigger] is_subquery_at(e.kids[k], path);
            lemma_step(k, path);
            assert(is_subquery_at(e, seq![k] + path));
        }
    } else {
        assert forall|path: Seq<int>| !#[trigger] is_subquery_at(e, path) by {
            if is_subquery_at(e, path) && path.len() > 0 {
                let k = path[0];
                law_subqueries_are_found_anywhere(e.kids[k]);
                assert(plain(e.kids[k]));
                assert(is_subquery_at(e.kids[k], path.drop_first()));
            }
        }
    }
}

// ---- column references ----

/// A reference to `name`, of `table` where one is given, can mean column `i`.
pub open spec fn can_mean(s: Cols, table: Option<Seq<char>>, name: Seq<char>, i: int) -> bool {
    &&& 0 <= i < s.len()
    &&& s[i].1 == name
    &&& table matches Some(t) ==> s[i].0 == t
}

/// A reference means exactly one column.
pub open spec fn means_one(s: Cols, table: Option<Seq<char>>, name: Seq<char>) -> bool {
    exists|i: int| #[trigger]
        can_mean(s, table, name, i) && forall|j: int| #[trigger] can_mean(s, table, name, j) ==> j == i
}

/// A reference is counted once for every column that it can mean: it is counted none exactly
/// where it can mean none, and once exactly where it means one and no other.
pub proof fn law_references_are_counted(s: Cols, table: Option<Seq<char>>, name: Seq<char>)
    ensures
        candidates(s, table, name) == 0 <==> forall|i: int| !#[trigger] can_mean(s, table, name, i),
        candidates(s, table, name) == 1 <==> means_one(s, table, name),
    decreases s.len(),
{
    if s.len() > 0 {
        let init = s.drop_last();
        let n = s.len() - 1;
        law_references_are_counted(init, table, name);
        assert forall|i: int| i != n implies #[trigger] can_mean(s, table, name, i) == can_mean(
            init,
            table,
            name,
            i,
        ) by {}
        assert(!can_mean(init, table, name, n));
        let was = candidates(init, table, name);
        if can_mean(s, table, name, n) {
            if was == 0 {
                assert forall|j: int| #[trigger] can_mean(s, table, name, j) implies j == n by {
                    assert(!can_mean(init, table, name, j));
                }
                assert(means_one(s, table, name));
            } else {
                let j = choose|j: int| #[trigger] can_mean(init, table, name, j);
                assert(can_mean(s, table, name, j) && j != n);
                assert(!means_one(s, table, name));
            }
        } else {
            assert forall|i: int| #[trigger] can_mean(s, table, name, i) == can_mean(
                init,
                table,
                name,
                i,
            ) by {}
            if means_one(init, table, name) {
                let i = choose|i: int| #[trigger]
                    can_mean(init, table, name, i) && forall|j: int| #[trigger]
                        can_mean(init, table, name, j) ==> j == i;
                assert(can_mean(s, table, name, i));
                assert(means_one(s, table, name));
            }
            if means_one(s, table, name) {
                let i = choose|i: int| #[trigger]
                    can_mean(s, table, name, i) && forall|j: int| #[trigger]
                        can_mean(s, table, name, j) ==> j == i;
                assert(can_mean(init, table, name, i));
                assert forall|j: int| #[trigger] can_mean(init, table, name, j) implies j == i by {
                    assert(can_mean(s, table, name, j));
                }
                assert(means_one(init, table, name));
            }
            if was == 0 {
                assert forall|i: int| !#[trigger] can_mean(s, table, name, i) by {
                    assert(!can_mean(init, table, name, i));
                }
            } else {
                let j = choose|j: int| #[trigger] can_mean(init, table, name, j);
                assert(can_mean(s, table, name, j));
            }
        }
    }
}

proof fn lemma_all_bind(es: Seq<ExprView>, s: Cols)
    ensures
        all_bind(es, s) <==> forall|k: int| 0 <= k < es.len() ==> binds(#[trigger] es[k], s),
    decreases es.len(),
{
    if es.len() > 0 {
        let init = es.drop_last();
        lemma_all_bind(init, s);
        assert forall|k: int| 0 <= k < init.len() implies init[k] == #[trigger] es[k] by {}
        if all_bind(es, s) {
            assert forall|k: int| 0 <= k < es.len() implies binds(#[trigger] es[k], s) by {
                if k < init.len() {
                    assert(binds(init[k], s));
                }
            }
        }
        if forall|k: int| 0 <= k < es.len() ==> binds(#[trigger] es[k], s) {
            assert forall|k: int| 0 <= k < init.len() implies binds(#[trigger] init[k], s) by {
                assert(init[k] == es[k]);
            }
            assert(binds(es[es.len() - 1], s));
        }
    }
}

/// The node can be evaluated on rows of these columns alone: a literal, a reference that means
/// one of them, or an operator that is no list, case, aggregate or subquery.
pub open spec fn is_settled(n: NodeView, s: Cols) -> bool {
    match n {
        NodeView::Column { table, name } => means_one(s, table, name),
        _ => !(n is InList || n is Case || n is Aggregate || n is Subquery),
    }
}

/// What a path leads to, if anything, is settled.
pub open spec fn settled_at(e: ExprView, s: Cols, path: Seq<int>) -> bool {
    node_at(e, path) matches Some(n) ==> is_settled(n, s)
}

/// An expression belongs to a table exactly where every column in it means one column of the
/// table and nothing else in it asks for more.
pub proof fn law_expressions_belong_to_their_tables(e: ExprView, s: Cols)
    ensures
        binds(e, s) <==> forall|path: Seq<int>| #[trigger] settled_at(e, s, path),
    decreases e,
{
    lemma_all_bind(e.kids, s);
    if let NodeView::Column { table, name } = e.node {
        law_references_are_counted(s, table, name);
    }
    if binds(e, s) {
        assert forall|path: Seq<int>| #[trigger] settled_at(e, s, path) by {
            if path.len() > 0 && node_at(e, path) is Some {
                let k = path[0];
                assert(binds(e.kids[k], s));
                law_expressions_belong_to_their_tables(e.kids[k], s);
                assert(settled_at(e.kids[k], s, path.drop_first()));
            }
        }
    } else {
        if is_settled(e.node, s) {
            let k = choose|k: int| 0 <= k < e.kids.len() && !binds(#[trigger] e.kids[k], s);
            law_expressions_belong_to_their_tables(e.kids[k], s);
            let path = choose|path: Seq<int>| !#[trigger] settled_at(e.kids[k], s, path);
            lemma_step(k, path);
            assert(!settled_at(e, s, seq![k] + path));
        } else {
            assert(!settled_at(e, s, Seq::empty()));
        }
    }
}

// ---- columns and indexes of a table ----

/// What a name means in a table, and which index serves a column, does not change when columns
/// or indexes are put behind those that are there: the first of the name, and the first on the
/// column, is meant.
pub proof fn law_the_first_is_meant(
    a: &Schema,
    b: &Schema,
    name: Seq<char>,
    i: int,
    idxs: Seq<IndexMeta>,
    more: Seq<IndexMeta>,
    tid: u16,
    k: int,
)
    requires
        a.columns@.is_prefix_of(b.columns@),
    ensures
        column_named(a, name, i) ==> column_named(b, name, i),
        index_on(idxs, tid, i, k) ==> index_on(idxs + more, tid, i, k),
        forall|x: int, y: int| #[trigger]
            column_named(a, name, x) && #[trigger] column_named(a, name, y) ==> x == y,
{
    if column_named(a, name, i) {
        assert forall|j: int| 0 <= j < i implies (#[trigger] b.columns@[j]).name@ != name by {
            assert(a.columns@[j] == b.columns@[j]);
        }
        assert(a.columns@[i] == b.columns@[i]);
    }
    if index_on(idxs, tid, i, k) {
        let all = idxs + more;
        assert forall|j: int| 0 <= j < k implies !((#[trigger] all[j]).table_id == tid
            && all[j].col_index == i) by {
            assert(all[j] == idxs[j]);
        }
        assert(all[k] == idxs[k]);
    }
    assert forall|x: int, y: int| #[trigger]
        column_named(a, name, x) && #[trigger] column_named(a, name, y) implies x == y by {
        if x < y {
            assert(a.columns@[x].name@ != name);
        }
        if y < x {
            assert(a.columns@[y].name@ != name);
        }
    }
}

/// A table under an alias has its columns in their order, and a reference to one of them by the
/// alias can mean it.
pub proof fn law_tables_have_their_columns(alias: Seq<char>, schema: Schema, i: int)
    requires
        0 <= i < schema.columns@.len(),
    ensures
        table_cols(alias, schema).len() == schema.columns@.len(),
        can_mean(table_cols(alias, schema), Some(alias), schema.columns@[i].name@, i),
        can_mean(table_cols(alias, schema), None, schema.columns@[i].name@, i),
{
}

} // verus!
