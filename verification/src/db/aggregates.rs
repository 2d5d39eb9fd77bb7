//! What aggregates amount to: the laws of COUNT, SUM, AVG, MIN and MAX, of DISTINCT, of groups
//! and of HAVING.

use vstd::prelude::*;

use crate::db::ast::{leaf, AggFunc, Expr, ExprView, NodeView};
use crate::db::exec::{
    aggregate, any_double, bare, column_of, deduplicated, float_of, greatest, group_row,
    group_rows_out, group_value, group_values, integer_sum, least, present, reduced,
    representative, single_keys, subst, subst_all, sum_of, value_of, Cols, ExecError, Keyed, Row,
};
use crate::db::keyed::{
    firsts, key_lt, law_keys_are_in_order, law_the_first_of_equal_rows_is_kept, rising, KeyView,
};
use crate::db::plan::{any_agg, has_agg, inner, Sch};
use crate::types::{Value, ValueView};

verus! {

/// The evaluator's answers to `e` on the rows of a group.
pub open spec fn answers<E: Fn(&Expr, &Sch, &Row) -> Result<Keyed, ExecError>>(
    f: E,
    e: ExprView,
    s: Cols,
    group: Seq<Seq<ValueView>>,
    vs: Seq<(ValueView, KeyView)>,
) -> bool {
    &&& vs.len() == group.len()
    &&& forall|i: int|
        0 <= i < vs.len() ==> value_of(f, e, s, group[i]) == Ok::<_, Seq<char>>(#[trigger] vs[i])
}

/// A value that is there.
pub open spec fn is_value() -> spec_fn((ValueView, KeyView)) -> bool {
    |v: (ValueView, KeyView)| v.0 != ValueView::Null
}

proof fn lemma_column_is<E: Fn(&Expr, &Sch, &Row) -> Result<Keyed, ExecError>>(
    f: E,
    e: ExprView,
    s: Cols,
    group: Seq<Seq<ValueView>>,
    vs: Seq<(ValueView, KeyView)>,
)
    requires
        answers(f, e, s, group, vs),
    ensures
        column_of(f, e, s, group) == Ok::<_, Seq<char>>(vs),
    decreases vs.len(),
{
    if vs.len() > 0 {
        let init = vs.drop_last();
        assert forall|i: int| 0 <= i < init.len() implies value_of(
            f,
            e,
            s,
            group.drop_last()[i],
        ) == Ok::<_, Seq<char>>(#[trigger] init[i]) by {
            assert(vs[i] == init[i]);
        }
        lemma_column_is(f, e, s, group.drop_last(), init);
        assert(value_of(f, e, s, group[vs.len() - 1]) == Ok::<_, Seq<char>>(vs[vs.len() - 1]));
        assert(init.push(vs.last()) =~= vs);
    } else {
        assert(vs =~= Seq::empty());
    }
}

proof fn lemma_present_is_filter(vs: Seq<(ValueView, KeyView)>)
    ensures
        present(vs) == vs.filter(is_value()),
    decreases vs.len(),
{
    reveal(Seq::filter);
    if vs.len() > 0 {
        lemma_present_is_filter(vs.drop_last());
    } else {
        assert(present(vs) =~= vs);
    }
}

/// An aggregate is taken over the values that are not null: over all of them, or with
/// DISTINCT over the first with each key. Without an argument COUNT counts rows.
pub proof fn law_aggregates_see_the_values_that_are_there<
    E: Fn(&Expr, &Sch, &Row) -> Result<Keyed, ExecError>,
    A: Fn(bool, &Vec<Value>) -> Value,
>(
    f: E,
    a: A,
    func: AggFunc,
    e: ExprView,
    s: Cols,
    group: Seq<Seq<ValueView>>,
    vs: Seq<(ValueView, KeyView)>,
)
    requires
        answers(f, e, s, group, vs),
        vs.len() <= usize::MAX,
    ensures
        reduced(f, a, func, Some(e), false, s, group) == Ok::<_, Seq<char>>(
            aggregate(a, func, vs.filter(is_value())),
        ),
        exists|at: Seq<usize>| #[trigger]
            picks_one_of_each(at, vs.filter(is_value())) && reduced(
                f,
                a,
                func,
                Some(e),
                true,
                s,
                group,
            ) == Ok::<_, Seq<char>>(
                aggregate(a, func, at.map_values(|i: usize| vs.filter(is_value())[i as int])),
            ),
        group.len() <= i64::MAX ==> reduced(f, a, AggFunc::Count, None, false, s, group) == Ok::<
            _,
            Seq<char>,
        >(ValueView::BigInt(group.len() as i64)),
{
    lemma_column_is(f, e, s, group, vs);
    lemma_present_is_filter(vs);
    let p = vs.filter(is_value());
    vs.lemma_filter_len(is_value());
    let ks = single_keys(p);
    let at = firsts(ks);
    law_the_first_of_equal_rows_is_kept(ks);
    assert forall|i: int| 0 <= i < p.len() implies (#[trigger] at.contains(i as usize)
        <==> forall|q: int| 0 <= q < i ==> p[q].1 != p[i].1) by {
        if at.contains(i as usize) {
            assert forall|q: int| 0 <= q < i implies p[q].1 != p[i].1 by {
                assert(ks[q] != ks[i]);
                if p[q].1 == p[i].1 {
                    assert(ks[q] =~= ks[i]);
                }
            }
        }
        if forall|q: int| 0 <= q < i ==> p[q].1 != p[i].1 {
            assert forall|q: int| 0 <= q < i implies ks[q] != ks[i] by {
                assert(ks[q][0] == p[q].1 && ks[i][0] == p[i].1);
            }
        }
    }
    assert(picks_one_of_each(at, p));
    assert(deduplicated(p) =~= at.map_values(|i: usize| vs.filter(is_value())[i as int]));
}

/// `at` numbers, upwards, the first of the values with each key.
pub open spec fn picks_one_of_each(at: Seq<usize>, vs: Seq<(ValueView, KeyView)>) -> bool {
    &&& rising(at)
    &&& forall|i: int| 0 <= i < at.len() ==> (#[trigger] at[i]) < vs.len()
    &&& forall|i: int|
        0 <= i < vs.len() ==> (#[trigger] at.contains(i as usize) <==> forall|q: int|
            0 <= q < i ==> vs[q].1 != vs[i].1)
}

/// An aggregate fails where its argument has no value on a row, and says what the evaluator
/// said of the first such row.
pub proof fn law_aggregates_fail_with_their_argument<
    E: Fn(&Expr, &Sch, &Row) -> Result<Keyed, ExecError>,
    A: Fn(bool, &Vec<Value>) -> Value,
>(
    f: E,
    a: A,
    func: AggFunc,
    e: ExprView,
    distinct: bool,
    s: Cols,
    group: Seq<Seq<ValueView>>,
    k: int,
)
    requires
        0 <= k < group.len(),
        value_of(f, e, s, group[k]) is Err,
        forall|i: int| 0 <= i < k ==> value_of(f, e, s, #[trigger] group[i]) is Ok,
    ensures
        reduced(f, a, func, Some(e), distinct, s, group) == Err::<ValueView, Seq<char>>(
            value_of(f, e, s, group[k])->Err_0,
        ),
{
    lemma_column_fails(f, e, s, group, k);
}

proof fn lemma_column_fails<E: Fn(&Expr, &Sch, &Row) -> Result<Keyed, ExecError>>(
    f: E,
    e: ExprView,
    s: Cols,
    group: Seq<Seq<ValueView>>,
    k: int,
)
    requires
        0 <= k < group.len(),
        value_of(f, e, s, group[k]) is Err,
        forall|i: int| 0 <= i < k ==> value_of(f, e, s, #[trigger] group[i]) is Ok,
    ensures
        column_of(f, e, s, group) == Err::<Seq<(ValueView, KeyView)>, Seq<char>>(
            value_of(f, e, s, group[k])->Err_0,
        ),
    decreases group.len(),
{
    let init = group.drop_last();
    if k < init.len() {
        assert forall|i: int| 0 <= i < k implies value_of(f, e, s, #[trigger] init[i]) is Ok by {
            assert(init[i] == group[i]);
        }
        lemma_column_fails(f, e, s, init, k);
    } else {
        let vs = Seq::new(init.len(), |i: int| value_of(f, e, s, group[i])->Ok_0);
        assert(answers(f, e, s, init, vs)) by {
            assert forall|i: int| 0 <= i < vs.len() implies value_of(f, e, s, init[i]) == Ok::<
                _,
                Seq<char>,
            >(#[trigger] vs[i]) by {
                assert(init[i] == group[i]);
            }
        }
        lemma_column_is(f, e, s, init, vs);
    }
}

// ---- COUNT, AVG ----

/// COUNT is how many values there are, AVG their average and SUM their sum as the float
/// arithmetic has them; over no values COUNT is zero and every other aggregate is null.
pub proof fn law_counts_and_averages<A: Fn(bool, &Vec<Value>) -> Value>(
    a: A,
    vs: Seq<(ValueView, KeyView)>,
    func: AggFunc,
)
    ensures
        vs.len() <= i64::MAX ==> (aggregate(a, AggFunc::Count, vs) matches ValueView::BigInt(n)
            && n == vs.len()),
        vs.len() == 0 && !(func is Count) ==> aggregate(a, func, vs) == ValueView::Null,
        vs.len() > 0 ==> aggregate(a, AggFunc::Avg, vs) == float_of(
            a,
            true,
            vs.map_values(|v: (ValueView, KeyView)| v.0),
        ),
        (exists|i: int| 0 <= i < vs.len() && (#[trigger] vs[i]).0 is Double) ==> aggregate(
            a,
            AggFunc::Sum,
            vs,
        ) == float_of(a, false, vs.map_values(|v: (ValueView, KeyView)| v.0)),
{
    let b = vs.map_values(|v: (ValueView, KeyView)| v.0);
    assert(bare(vs) =~= b);
    if exists|i: int| 0 <= i < vs.len() && (#[trigger] vs[i]).0 is Double {
        let i = choose|i: int| 0 <= i < vs.len() && (#[trigger] vs[i]).0 is Double;
        assert(b[i] is Double);
    }
}

// ---- SUM ----

/// The integer that a value of an integer type stands for.
pub open spec fn number_of(v: ValueView) -> int {
    match v {
        ValueView::Int(i) => i as int,
        ValueView::BigInt(i) => i as int,
        _ => 0,
    }
}

pub open spec fn is_integer(v: ValueView) -> bool {
    v is Int || v is BigInt
}

/// The numbers added up.
pub open spec fn total(vs: Seq<ValueView>) -> int {
    vs.fold_left(0int, |t: int, v: ValueView| t + number_of(v))
}

/// The two numbers differ by a multiple of 2 to the power of 64.
pub open spec fn same_in_64_bits(a: int, b: int) -> bool {
    (a - b) % 0x1_0000_0000_0000_0000 == 0
}

proof fn lemma_integer_sum(vs: Seq<ValueView>) -> (k: int)
    requires
        forall|i: int| 0 <= i < vs.len() ==> is_integer(#[trigger] vs[i]),
    ensures
        integer_sum(vs) == total(vs) + k * 0x1_0000_0000_0000_0000,
    decreases vs.len(),
{
    reveal(Seq::fold_left);
    if vs.len() == 0 {
        0
    } else {
        let init = vs.drop_last();
        assert forall|i: int| 0 <= i < init.len() implies is_integer(#[trigger] init[i]) by {
            assert(init[i] == vs[i]);
        }
        let k = lemma_integer_sum(init);
        assert(is_integer(vs[vs.len() - 1]));
        let n = number_of(vs.last());
        let a = integer_sum(init) as int;
        assert(total(vs) == total(init) + n);
        if a + n > i64::MAX {
            k - 1
        } else if a + n < i64::MIN {
            k + 1
        } else {
            k
        }
    }
}

/// SUM over integers is an integer: the sum of the numbers that the values stand for, up to
/// what 64 bits cannot tell apart, and exactly that sum where it fits.
pub proof fn law_sum_adds_up<A: Fn(bool, &Vec<Value>) -> Value>(a: A, vs: Seq<ValueView>)
    requires
        forall|i: int| 0 <= i < vs.len() ==> is_integer(#[trigger] vs[i]),
    ensures
        sum_of(a, vs) matches ValueView::BigInt(n) && same_in_64_bits(n as int, total(vs)) && (
        i64::MIN <= total(vs) <= i64::MAX ==> n == total(vs)),
{
    let k = lemma_integer_sum(vs);
    assert forall|i: int| 0 <= i < vs.len() implies !(#[trigger] vs[i] is Double) by {
        assert(is_integer(vs[i]));
    }
    assert(!any_double(vs));
    let n = integer_sum(vs) as int;
    assert((k * 0x1_0000_0000_0000_0000) % 0x1_0000_0000_0000_0000 == 0) by (nonlinear_arith);
    assert(n - total(vs) == k * 0x1_0000_0000_0000_0000);
}

/// The same of the aggregate: SUM over at least one value, all of them integers.
pub proof fn law_sum_of_a_group_adds_up<A: Fn(bool, &Vec<Value>) -> Value>(
    a: A,
    vs: Seq<(ValueView, KeyView)>,
)
    requires
        vs.len() > 0,
        forall|i: int| 0 <= i < vs.len() ==> is_integer((#[trigger] vs[i]).0),
    ensures
        ({
            let t = total(vs.map_values(|v: (ValueView, KeyView)| v.0));
            aggregate(a, AggFunc::Sum, vs) matches ValueView::BigInt(n) && same_in_64_bits(
                n as int,
                t,
            ) && (i64::MIN <= t <= i64::MAX ==> n == t)
        }),
{
    let b = vs.map_values(|v: (ValueView, KeyView)| v.0);
    assert(bare(vs) =~= b);
    assert forall|i: int| 0 <= i < b.len() implies is_integer(#[trigger] b[i]) by {
        assert(b[i] == vs[i].0);
    }
    law_sum_adds_up(a, b);
}

/// SUM does not depend on how the values are cut in two: the sums of the parts add up to the
/// sum of the whole, up to what 64 bits cannot tell apart.
pub proof fn law_sums_of_parts_add_up<A: Fn(bool, &Vec<Value>) -> Value>(
    a: A,
    xs: Seq<ValueView>,
    ys: Seq<ValueView>,
)
    requires
        forall|i: int| 0 <= i < xs.len() ==> is_integer(#[trigger] xs[i]),
        forall|i: int| 0 <= i < ys.len() ==> is_integer(#[trigger] ys[i]),
    ensures
        total(xs + ys) == total(xs) + total(ys),
        sum_of(a, xs + ys) is BigInt,
        same_in_64_bits(
            sum_of(a, xs + ys)->BigInt_0 as int,
            sum_of(a, xs)->BigInt_0 + sum_of(a, ys)->BigInt_0,
        ),
{
    let all = xs + ys;
    assert forall|i: int| 0 <= i < all.len() implies is_integer(#[trigger] all[i]) by {
        if i < xs.len() {
            assert(all[i] == xs[i]);
        } else {
            assert(all[i] == ys[i - xs.len()]);
        }
    }
    law_sum_adds_up(a, all);
    law_sum_adds_up(a, xs);
    law_sum_adds_up(a, ys);
    lemma_total_parts(xs, ys);
    let p = lemma_integer_sum(all);
    let q = lemma_integer_sum(xs);
    let r = lemma_integer_sum(ys);
    let d = p - q - r;
    assert((d * 0x1_0000_0000_0000_0000) % 0x1_0000_0000_0000_0000 == 0) by (nonlinear_arith);
    assert(p * 0x1_0000_0000_0000_0000 - q * 0x1_0000_0000_0000_0000 - r
        * 0x1_0000_0000_0000_0000 == d * 0x1_0000_0000_0000_0000) by (nonlinear_arith)
        requires
            d == p - q - r,
    ;
}

proof fn lemma_total_parts(xs: Seq<ValueView>, ys: Seq<ValueView>)
    ensures
        total(xs + ys) == total(xs) + total(ys),
    decreases ys.len(),
{
    reveal(Seq::fold_left);
    if ys.len() > 0 {
        lemma_total_parts(xs, ys.drop_last());
        assert((xs + ys).drop_last() =~= xs + ys.drop_last());
        assert((xs + ys).last() == ys.last());
    } else {
        assert(xs + ys =~= xs);
    }
}

// ---- MIN and MAX ----

proof fn lemma_least(vs: Seq<(ValueView, KeyView)>) -> (k: int)
    requires
        vs.len() > 0,
    ensures
        0 <= k < vs.len(),
        vs[k] == least(vs),
        forall|j: int| 0 <= j < vs.len() ==> !key_lt((#[trigger] vs[j]).1, vs[k].1),
        forall|j: int| 0 <= j < k ==> key_lt(vs[k].1, (#[trigger] vs[j]).1),
    decreases vs.len(),
{
    if vs.len() == 1 {
        law_keys_are_in_order(vs[0].1, vs[0].1, vs[0].1);
        0
    } else {
        let init = vs.drop_last();
        let k = lemma_least(init);
        let n = vs.len() - 1;
        assert forall|j: int| 0 <= j < init.len() implies !key_lt((#[trigger] vs[j]).1, vs[k].1)
            by {
            assert(init[j] == vs[j]);
        }
        if key_lt(vs[n].1, vs[k].1) {
            assert forall|j: int| 0 <= j < n implies key_lt(vs[n].1, (#[trigger] vs[j]).1) by {
                law_keys_are_in_order(vs[n].1, vs[k].1, vs[j].1);
                law_keys_are_in_order(vs[k].1, vs[j].1, vs[k].1);
            }
            assert forall|j: int| 0 <= j < vs.len() implies !key_lt((#[trigger] vs[j]).1, vs[n].1)
                by {
                law_keys_are_in_order(vs[n].1, vs[j].1, vs[n].1);
            }
            n
        } else {
            assert forall|j: int| 0 <= j < k implies key_lt(vs[k].1, (#[trigger] vs[j]).1) by {
                assert(init[j] == vs[j]);
            }
            k
        }
    }
}

proof fn lemma_greatest(vs: Seq<(ValueView, KeyView)>) -> (k: int)
    requires
        vs.len() > 0,
    ensures
        0 <= k < vs.len(),
        vs[k] == greatest(vs),
        forall|j: int| 0 <= j < vs.len() ==> !key_lt(vs[k].1, (#[trigger] vs[j]).1),
        forall|j: int| k < j < vs.len() ==> key_lt((#[trigger] vs[j]).1, vs[k].1),
    decreases vs.len(),
{
    if vs.len() == 1 {
        law_keys_are_in_order(vs[0].1, vs[0].1, vs[0].1);
        0
    } else {
        let init = vs.drop_last();
        let k = lemma_greatest(init);
        let n = vs.len() - 1;
        assert forall|j: int| 0 <= j < init.len() implies !key_lt(vs[k].1, (#[trigger] vs[j]).1)
            by {
            assert(init[j] == vs[j]);
        }
        if key_lt(vs[n].1, vs[k].1) {
            assert forall|j: int| k < j < vs.len() implies key_lt((#[trigger] vs[j]).1, vs[k].1)
                by {
                if j < n {
                    assert(init[j] == vs[j]);
                }
            }
            law_keys_are_in_order(vs[n].1, vs[k].1, vs[n].1);
            k
        } else {
            assert forall|j: int| 0 <= j < vs.len() implies !key_lt(vs[n].1, (#[trigger] vs[j]).1)
                by {
                law_keys_are_in_order(vs[n].1, vs[j].1, vs[k].1);
                law_keys_are_in_order(vs[k].1, vs[j].1, vs[n].1);
                law_keys_are_in_order(vs[n].1, vs[k].1, vs[j].1);
            }
            n
        }
    }
}

/// MIN is one of the values, and none has a lesser key: the first such. MAX is one of the
/// values, and none has a greater key: the last such.
pub proof fn law_extremes_are_extreme<A: Fn(bool, &Vec<Value>) -> Value>(
    a: A,
    vs: Seq<(ValueView, KeyView)>,
)
    requires
        vs.len() > 0,
    ensures
        exists|k: int|
            0 <= k < vs.len() && (#[trigger] vs[k]).0 == aggregate(a, AggFunc::Min, vs) && (
            forall|j: int| 0 <= j < vs.len() ==> !key_lt((#[trigger] vs[j]).1, vs[k].1)) && (
            forall|j: int| 0 <= j < k ==> (#[trigger] vs[j]).1 != vs[k].1),
        exists|k: int|
            0 <= k < vs.len() && (#[trigger] vs[k]).0 == aggregate(a, AggFunc::Max, vs) && (
            forall|j: int| 0 <= j < vs.len() ==> !key_lt(vs[k].1, (#[trigger] vs[j]).1)) && (
            forall|j: int| k < j < vs.len() ==> (#[trigger] vs[j]).1 != vs[k].1),
{
    let k = lemma_least(vs);
    let m = lemma_greatest(vs);
    assert(vs[k].0 == aggregate(a, AggFunc::Min, vs));
    assert forall|j: int| 0 <= j < k implies (#[trigger] vs[j]).1 != vs[k].1 by {
        law_keys_are_in_order(vs[j].1, vs[k].1, vs[j].1);
    }
    assert(vs[m].0 == aggregate(a, AggFunc::Max, vs));
    assert forall|j: int| m < j < vs.len() implies (#[trigger] vs[j]).1 != vs[m].1 by {
        law_keys_are_in_order(vs[j].1, vs[m].1, vs[j].1);
    }
}

// ---- expressions with aggregates in them ----

/// In an expression over a group every aggregate stands for its value over the group and all
/// else stays as it is: an expression without aggregates is unchanged, and in any other the
/// operands are replaced one by one.
pub proof fn law_aggregates_are_replaced_by_their_values<
    E: Fn(&Expr, &Sch, &Row) -> Result<Keyed, ExecError>,
    A: Fn(bool, &Vec<Value>) -> Value,
>(f: E, a: A, e: ExprView, s: Cols, group: Seq<Seq<ValueView>>)
    ensures
        e.node matches NodeView::Aggregate { func, distinct } ==> subst(f, a, e, s, group) == (
        match reduced(
            f,
            a,
            func,
            if e.kids.len() == 0 {
                None
            } else {
                Some(e.kids[0])
            },
            distinct,
            s,
            group,
        ) {
            Ok(v) => Ok::<_, Seq<char>>(leaf(NodeView::Literal(v))),
            Err(x) => Err(x),
        }),
        !has_agg(e) ==> subst(f, a, e, s, group) == Ok::<_, Seq<char>>(e),
        !(e.node is Aggregate) ==> (subst(f, a, e, s, group) matches Ok(x) ==> x.node == e.node
            && x.kids.len() == e.kids.len() && (inner(e.node) ==> forall|i: int|
            0 <= i < e.kids.len() ==> subst(f, a, #[trigger] e.kids[i], s, group) == Ok::<
                _,
                Seq<char>,
            >(x.kids[i]))),
    decreases e, 1int,
{
    if inner(e.node) {
        lemma_subst_all(f, a, e.kids, s, group);
        if !has_agg(e) {
            assert(subst_all(f, a, e.kids, s, group) == Ok::<_, Seq<char>>(e.kids));
        }
    }
}

proof fn lemma_subst_all<
    E: Fn(&Expr, &Sch, &Row) -> Result<Keyed, ExecError>,
    A: Fn(bool, &Vec<Value>) -> Value,
>(f: E, a: A, es: Seq<ExprView>, s: Cols, group: Seq<Seq<ValueView>>)
    ensures
        !any_agg(es) ==> subst_all(f, a, es, s, group) == Ok::<_, Seq<char>>(es),
        subst_all(f, a, es, s, group) matches Ok(xs) ==> xs.len() == es.len() && forall|i: int|
            0 <= i < es.len() ==> subst(f, a, #[trigger] es[i], s, group) == Ok::<_, Seq<char>>(
                xs[i],
            ),
    decreases es, 0int,
{
    if es.len() > 0 {
        let init = es.drop_last();
        lemma_subst_all(f, a, init, s, group);
        law_aggregates_are_replaced_by_their_values(f, a, es.last(), s, group);
        if subst_all(f, a, es, s, group) is Ok {
            let xs = subst_all(f, a, es, s, group)->Ok_0;
            let ys = subst_all(f, a, init, s, group)->Ok_0;
            assert forall|i: int| 0 <= i < es.len() implies subst(f, a, #[trigger] es[i], s, group)
                == Ok::<_, Seq<char>>(xs[i]) by {
                if i < init.len() {
                    assert(init[i] == es[i]);
                    assert(xs[i] == ys[i]);
                }
            }
        }
        if !any_agg(es) {
            assert(init.push(es.last()) =~= es);
        }
    } else {
        assert(es =~= Seq::empty());
    }
}

// ---- HAVING and the rows of groups ----

/// HAVING lets a group through: there is none, or it is true of the group.
pub open spec fn let_through<
    E: Fn(&Expr, &Sch, &Row) -> Result<Keyed, ExecError>,
    A: Fn(bool, &Vec<Value>) -> Value,
>(f: E, a: A, having: Option<ExprView>, s: Cols, group: Seq<Seq<ValueView>>) -> bool {
    having matches Some(h) ==> (group_value(f, a, h, s, group, representative(s, group)) matches Ok(
        v,
    ) && v.0 == ValueView::Bool(true))
}

/// `row` holds the values of the expressions over the group.
pub open spec fn speaks_for<
    E: Fn(&Expr, &Sch, &Row) -> Result<Keyed, ExecError>,
    A: Fn(bool, &Vec<Value>) -> Value,
>(
    f: E,
    a: A,
    es: Seq<ExprView>,
    s: Cols,
    group: Seq<Seq<ValueView>>,
    row: Seq<(ValueView, KeyView)>,
) -> bool {
    &&& row.len() == es.len()
    &&& forall|j: int|
        0 <= j < es.len() ==> group_value(
            f,
            a,
            #[trigger] es[j],
            s,
            group,
            representative(s, group),
        ) == Ok::<_, Seq<char>>(row[j])
}

proof fn lemma_group_values<
    E: Fn(&Expr, &Sch, &Row) -> Result<Keyed, ExecError>,
    A: Fn(bool, &Vec<Value>) -> Value,
>(f: E, a: A, es: Seq<ExprView>, s: Cols, group: Seq<Seq<ValueView>>, rep: Seq<ValueView>)
    requires
        group_values(f, a, es, s, group, rep) is Ok,
    ensures
        group_values(f, a, es, s, group, rep)->Ok_0.len() == es.len(),
        forall|j: int|
            0 <= j < es.len() ==> group_value(f, a, #[trigger] es[j], s, group, rep) == Ok::<
                _,
                Seq<char>,
            >(group_values(f, a, es, s, group, rep)->Ok_0[j]),
    decreases es.len(),
{
    if es.len() > 0 {
        let init = es.drop_last();
        lemma_group_values(f, a, init, s, group, rep);
        let vs = group_values(f, a, es, s, group, rep)->Ok_0;
        let ws = group_values(f, a, init, s, group, rep)->Ok_0;
        assert forall|j: int| 0 <= j < es.len() implies group_value(
            f,
            a,
            #[trigger] es[j],
            s,
            group,
            rep,
        ) == Ok::<_, Seq<char>>(vs[j]) by {
            if j < init.len() {
                assert(init[j] == es[j]);
                assert(vs[j] == ws[j]);
            }
        }
    }
}

/// `at` numbers, upwards, the groups that HAVING lets through, and `out` has the row of each.
pub open spec fn rows_of_groups<
    E: Fn(&Expr, &Sch, &Row) -> Result<Keyed, ExecError>,
    A: Fn(bool, &Vec<Value>) -> Value,
>(
    f: E,
    a: A,
    having: Option<ExprView>,
    es: Seq<ExprView>,
    s: Cols,
    groups: Seq<Seq<Seq<ValueView>>>,
    at: Seq<int>,
    out: Seq<Seq<(ValueView, KeyView)>>,
) -> bool {
    &&& at.len() == out.len()
    &&& forall|i: int, j: int| 0 <= i < j < at.len() ==> #[trigger] at[i] < #[trigger] at[j]
    &&& forall|i: int|
        0 <= i < at.len() ==> 0 <= #[trigger] at[i] < groups.len() && speaks_for(
            f,
            a,
            es,
            s,
            groups[at[i]],
            out[i],
        )
    &&& forall|g: int|
        0 <= g < groups.len() ==> (#[trigger] at.contains(g) <==> let_through(
            f,
            a,
            having,
            s,
            groups[g],
        ))
}

/// Every group of which HAVING is true gives one row, that of the expressions' values over
/// it, in the order of the groups; no other group gives one.
pub proof fn law_having_chooses_the_groups<
    E: Fn(&Expr, &Sch, &Row) -> Result<Keyed, ExecError>,
    A: Fn(bool, &Vec<Value>) -> Value,
>(
    f: E,
    a: A,
    having: Option<ExprView>,
    es: Seq<ExprView>,
    s: Cols,
    groups: Seq<Seq<Seq<ValueView>>>,
) -> (at: Seq<int>)
    requires
        group_rows_out(f, a, having, es, s, groups) is Ok,
    ensures
        rows_of_groups(
            f,
            a,
            having,
            es,
            s,
            groups,
            at,
            group_rows_out(f, a, having, es, s, groups)->Ok_0,
        ),
    decreases groups.len(),
{
    if groups.len() == 0 {
        Seq::empty()
    } else {
        let init = groups.drop_last();
        let n = groups.len() - 1;
        let before = law_having_chooses_the_groups(f, a, having, es, s, init);
        let was = group_rows_out(f, a, having, es, s, init)->Ok_0;
        let out = group_rows_out(f, a, having, es, s, groups)->Ok_0;
        let g = groups.last();
        let one = group_row(f, a, having, es, s, g)->Ok_0;
        let at = if one is Some {
            before.push(n)
        } else {
            before
        };
        if one is Some {
            lemma_group_values(f, a, es, s, g, representative(s, g));
        }
        assert forall|i: int| 0 <= i < at.len() implies 0 <= #[trigger] at[i] < groups.len()
            && speaks_for(f, a, es, s, groups[at[i]], out[i]) by {
            if i < before.len() {
                assert(at[i] == before[i]);
                assert(out[i] == was[i]);
                assert(init[before[i]] == groups[before[i]]);
            }
        }
        assert forall|i: int, j: int| 0 <= i < j < at.len() implies #[trigger] at[i]
            < #[trigger] at[j] by {
            assert(at[i] == before[i]);
            if j < before.len() {
                assert(at[j] == before[j]);
            }
        }
        assert forall|x: int| 0 <= x < groups.len() implies (#[trigger] at.contains(x)
            <==> let_through(f, a, having, s, groups[x])) by {
            if x < n {
                assert(init[x] == groups[x]);
                assert(before.contains(x) <==> let_through(f, a, having, s, init[x]));
                if before.contains(x) {
                    let i = before.index_of(x);
                    assert(at[i] == x);
                }
                if at.contains(x) {
                    let i = at.index_of(x);
                    assert(i < before.len());
                    assert(before[i] == x);
                }
            } else {
                if one is Some {
                    assert(at[before.len() as int] == n);
                } else if at.contains(x) {
                    let i = before.index_of(x);
                    assert(before[i] < init.len());
                }
            }
        }
        at
    }
}

/// A group is stood for by its first row; the one group of a query that has no rows, by nulls.
pub proof fn law_groups_are_stood_for_by_their_first_rows(
    s: Cols,
    group: Seq<Seq<ValueView>>,
    c: int,
)
    requires
        0 <= c < s.len(),
    ensures
        group.len() > 0 ==> representative(s, group) == group[0],
        group.len() == 0 ==> representative(s, group).len() == s.len() && representative(
            s,
            group,
        )[c] == ValueView::Null,
{
}

} // verus!
