//! The order in which tables are joined.

use vstd::prelude::*;

use crate::db::ast::{Expr, ExprView};
use crate::db::joins::{
    build_steps, connecting, connecting_edge, edge_views, edges_of, expr_views, join_edges,
    opt_steps, schemas, step_of, steps_for, touches, Edge, EdgeView, JoinKind, PlanStep,
};
use crate::db::plan::Sch;

verus! {

/// As many tables as are ordered at most.
pub const MAX_TABLES: usize = 12;

/// Table `t` is one of the set.
pub open spec fn member(mask: u32, t: int) -> bool {
    (mask >> (t as u32)) & 1 == 1
}

/// An equijoin leads from table `t` to one that is joined.
pub open spec fn leads(edges: Seq<EdgeView>, t: usize, joined: Seq<usize>) -> bool {
    exists|j: int| 0 <= j < edges.len() && touches(#[trigger] edges[j], t, joined)
}

/// Each table but the first is joined to one before it.
pub open spec fn joinable(edges: Seq<EdgeView>, order: Seq<usize>) -> bool {
    forall|k: int| #![trigger order[k]]
        1 <= k < order.len() ==> leads(edges, order[k], order.take(k))
}

/// The order names the tables of the set, each once.
pub open spec fn covers(order: Seq<usize>, mask: u32, n: int) -> bool {
    &&& order.no_duplicates()
    &&& forall|k: int| 0 <= k < order.len() ==> (#[trigger] order[k]) < n
    &&& forall|t: usize| t < n ==> (#[trigger] order.contains(t) <==> member(mask, t as int))
}

/// The tables of the set can be joined in this order.
pub open spec fn orders(edges: Seq<EdgeView>, order: Seq<usize>, mask: u32, n: int) -> bool {
    &&& order.len() > 0
    &&& covers(order, mask, n)
    &&& joinable(edges, order)
}

/// All of `n` tables can be joined in this order.
pub open spec fn orders_all(edges: Seq<EdgeView>, order: Seq<usize>, n: int) -> bool {
    &&& order.len() == n
    &&& order.no_duplicates()
    &&& forall|k: int| 0 <= k < order.len() ==> (#[trigger] order[k]) < n
    &&& joinable(edges, order)
}

/// A way to join a set of tables: what it costs, how many rows it gives, and in which
/// order the tables come. Costs and numbers of rows are ordered as their numbers are.
pub struct Way {
    pub cost: u64,
    pub rows: u64,
    pub order: Vec<usize>,
}

pub ghost struct WayView {
    pub cost: u64,
    pub rows: u64,
    pub order: Seq<usize>,
}

impl View for Way {
    type V = WayView;

    open spec fn view(&self) -> WayView {
        WayView { cost: self.cost, rows: self.rows, order: self.order@ }
    }
}

pub open spec fn way_view(w: Option<Way>) -> Option<WayView> {
    match w {
        Some(w) => Some(w@),
        None => None,
    }
}

/// What joining one more table makes of the cost and the number of rows so far: from
/// these two, the table and the equijoin that leads to it.
pub type Estimate = spec_fn(u64, u64, usize, usize) -> (u64, u64);

/// What an estimating function returns.
pub open spec fn estimate<S: Fn(u64, u64, usize, usize) -> (u64, u64)>(step: S) -> Estimate {
    |c: u64, r: u64, t: usize, e: usize| choose|x: (u64, u64)| step.ensures((c, r, t, e), x)
}

/// An estimating function takes all arguments, and gives the same for the same.
pub open spec fn estimates<S: Fn(u64, u64, usize, usize) -> (u64, u64)>(step: S) -> bool {
    &&& forall|c: u64, r: u64, t: usize, e: usize| #[trigger] step.requires((c, r, t, e))
    &&& forall|a: (u64, u64, usize, usize), x: (u64, u64), y: (u64, u64)| #[trigger]
        step.ensures(a, x) && #[trigger] step.ensures(a, y) ==> x == y
}

/// Equijoin `k` is the first that leads from table `t` to one that is joined.
pub open spec fn first_link(edges: Seq<EdgeView>, t: usize, joined: Seq<usize>, k: usize) -> bool {
    &&& k < edges.len()
    &&& touches(edges[k as int], t, joined)
    &&& forall|j: int| 0 <= j < k ==> !touches(#[trigger] edges[j], t, joined)
}

pub open spec fn link(edges: Seq<EdgeView>, t: usize, joined: Seq<usize>) -> usize {
    choose|k: usize| first_link(edges, t, joined, k)
}

/// The way that joins table `t` behind all others.
pub open spec fn extended(edges: Seq<EdgeView>, f: Estimate, p: WayView, t: usize) -> WayView {
    let x = f(p.cost, p.rows, t, link(edges, t, p.order));
    WayView { cost: x.0, rows: x.1, order: p.order.push(t) }
}

pub open spec fn candidate(
    edges: Seq<EdgeView>,
    f: Estimate,
    p: Option<WayView>,
    t: usize,
) -> Option<WayView> {
    if p is Some && leads(edges, t, p->0.order) {
        Some(extended(edges, f, p->0, t))
    } else {
        None
    }
}

/// The cheaper of two ways; the first where they cost the same.
pub open spec fn cheaper_of(a: Option<WayView>, b: Option<WayView>) -> Option<WayView> {
    if a is None || b is Some && b->0.cost < a->0.cost {
        b
    } else {
        a
    }
}

/// The set without table `t`.
pub open spec fn without(mask: u32, t: usize) -> u32 {
    mask & !(1u32 << (t as u32))
}

/// The cheapest of the ways to join the tables of a set in which one of the first `upto`
/// tables comes last, behind the cheapest way to join the others.
pub open spec fn best_upto(
    rows: Seq<u64>,
    edges: Seq<EdgeView>,
    f: Estimate,
    mask: u32,
    upto: nat,
) -> Option<WayView>
    decreases mask, upto,
{
    if upto == 0 {
        None
    } else {
        let t = (upto - 1) as usize;
        let before = best_upto(rows, edges, f, mask, (upto - 1) as nat);
        let prev = without(mask, t);
        if !member(mask, t as int) {
            before
        } else if prev == 0 {
            Some(WayView { cost: 0, rows: rows[t as int], order: seq![t] })
        } else if prev < mask {
            let rest = best_upto(rows, edges, f, prev, rows.len());
            cheaper_of(before, candidate(edges, f, rest, t))
        } else {
            before
        }
    }
}

/// The way to join the tables of a set.
pub open spec fn best(rows: Seq<u64>, edges: Seq<EdgeView>, f: Estimate, mask: u32) -> Option<
    WayView,
> {
    best_upto(rows, edges, f, mask, rows.len())
}

/// The set of the first `n` tables.
pub open spec fn first_tables(n: int) -> u32 {
    ((1u32 << (n as u32)) - 1) as u32
}

/// What joining the tables in this order costs and gives.
pub open spec fn way_of(
    rows: Seq<u64>,
    edges: Seq<EdgeView>,
    f: Estimate,
    order: Seq<usize>,
) -> WayView
    decreases order.len(),
{
    if order.len() <= 1 {
        WayView { cost: 0, rows: rows[order[0] as int], order }
    } else {
        extended(edges, f, way_of(rows, edges, f, order.drop_last()), order.last())
    }
}

/// What is known of one set: a way to join it, where there is one.
pub open spec fn settled(edges: Seq<EdgeView>, w: Option<WayView>, mask: u32, n: int) -> bool {
    match w {
        Some(w) => orders(edges, w.order, mask, n),
        None => forall|o: Seq<usize>| !orders(edges, o, mask, n),
    }
}

/// What the first `upto` tables as the last ones say of one set.
spec fn part_settled(
    edges: Seq<EdgeView>,
    w: Option<WayView>,
    mask: u32,
    n: int,
    upto: int,
) -> bool {
    match w {
        Some(w) => orders(edges, w.order, mask, n),
        None => forall|o: Seq<usize>| #[trigger] orders(edges, o, mask, n) ==> o.last() >= upto,
    }
}

proof fn lemma_bits(mask: u32, t: u32)
    requires
        t < 32,
        (mask >> t) & 1 == 1,
    ensures
        (mask & !(1u32 << t)) < mask,
        ((mask & !(1u32 << t)) >> t) & 1 == 0,
        forall|s: u32|
            s < 32 && s != t ==> #[trigger] ((mask & !(1u32 << t)) >> s) & 1 == (mask >> s) & 1,
{
    assert((mask & !(1u32 << t)) < mask) by (bit_vector)
        requires
            t < 32,
            (mask >> t) & 1 == 1,
    ;
    assert(((mask & !(1u32 << t)) >> t) & 1 == 0) by (bit_vector)
        requires
            t < 32,
    ;
    assert forall|s: u32| s < 32 && s != t implies #[trigger] ((mask & !(1u32 << t)) >> s) & 1 == (
    mask >> s) & 1 by {
        assert(((mask & !(1u32 << t)) >> s) & 1 == (mask >> s) & 1) by (bit_vector)
            requires
                s < 32,
                t < 32,
                s != t,
        ;
    }
}

/// One table is a set of its own.
proof fn lemma_single(t: u32)
    requires
        t < 32,
    ensures
        forall|s: u32| s < 32 ==> (#[trigger] ((1u32 << t) >> s) & 1 == 1 <==> s == t),
        1u32 << t > 0,
{
    assert(1u32 << t > 0) by (bit_vector)
        requires
            t < 32,
    ;
    assert forall|s: u32| s < 32 implies (#[trigger] ((1u32 << t) >> s) & 1 == 1 <==> s == t) by {
        assert(((1u32 << t) >> s) & 1 == 1 <==> s == t) by (bit_vector)
            requires
                s < 32,
                t < 32,
        ;
    }
}

/// Which of two sets holds the same tables does not matter for what leads to them.
proof fn lemma_leads_same(edges: Seq<EdgeView>, t: usize, a: Seq<usize>, b: Seq<usize>)
    requires
        forall|x: usize| #[trigger] a.contains(x) ==> b.contains(x),
        leads(edges, t, a),
    ensures
        leads(edges, t, b),
{
    let j = choose|j: int| 0 <= j < edges.len() && touches(#[trigger] edges[j], t, a);
    assert(touches(edges[j], t, b));
}

/// An order without its last table orders the set without that table.
proof fn lemma_shorter(edges: Seq<EdgeView>, o: Seq<usize>, mask: u32, prev: u32, n: int)
    requires
        orders(edges, o, mask, n),
        o.len() > 1,
        n <= 32,
        prev == mask & !(1u32 << (o.last() as u32)),
    ensures
        member(mask, o.last() as int),
        orders(edges, o.drop_last(), prev, n),
        leads(edges, o.last(), o.drop_last()),
{
    let t = o.last();
    let p = o.drop_last();
    assert(o.contains(t)) by {
        assert(o[o.len() - 1] == t);
    }
    assert(t < n);
    lemma_bits(mask, t as u32);
    assert(o.take(o.len() - 1) =~= p);
    assert(leads(edges, o[o.len() - 1], o.take(o.len() - 1)));
    assert forall|x: usize| x < n implies (#[trigger] p.contains(x) <==> member(prev, x as int)) by {
        if p.contains(x) {
            let j = p.index_of(x);
            assert(o[j] == x);
            assert(o.contains(x));
            assert(x != t);
            assert(((mask & !(1u32 << (t as u32))) >> (x as u32)) & 1 == (mask >> (x as u32)) & 1);
        }
        if member(prev, x as int) {
            assert(x != t);
            assert(((mask & !(1u32 << (t as u32))) >> (x as u32)) & 1 == (mask >> (x as u32)) & 1);
            assert(o.contains(x));
            let j = o.index_of(x);
            assert(j != o.len() - 1);
            assert(p[j] == x);
        }
    }
    assert forall|k: int| 0 <= k < p.len() implies (#[trigger] p[k]) < n by {
        assert(p[k] == o[k]);
    }
    assert forall|k: int| #![trigger p[k]] 1 <= k < p.len() implies leads(
        edges,
        p[k],
        p.take(k),
    ) by {
        assert(p[k] == o[k]);
        assert(p.take(k) =~= o.take(k));
    }
}

/// An order with one more table that it leads to orders the larger set.
proof fn lemma_longer(edges: Seq<EdgeView>, p: Seq<usize>, t: usize, mask: u32, prev: u32, n: int)
    requires
        orders(edges, p, prev, n),
        t < n <= 32,
        member(mask, t as int),
        prev == mask & !(1u32 << (t as u32)),
        leads(edges, t, p),
    ensures
        orders(edges, p.push(t), mask, n),
{
    let o = p.push(t);
    lemma_bits(mask, t as u32);
    assert(!p.contains(t));
    assert forall|x: usize| x < n implies (#[trigger] o.contains(x) <==> member(mask, x as int)) by {
        if x == t {
            assert(o[p.len() as int] == t);
        } else {
            assert(((mask & !(1u32 << (t as u32))) >> (x as u32)) & 1 == (mask >> (x as u32)) & 1);
            if o.contains(x) {
                let j = o.index_of(x);
                assert(p[j] == x);
                assert(p.contains(x));
            }
            if member(mask, x as int) {
                assert(p.contains(x));
                let j = p.index_of(x);
                assert(o[j] == x);
            }
        }
    }
    assert forall|i: int, j: int| 0 <= i < j < o.len() implies o[i] != o[j] by {
        assert(o[i] == p[i]);
        if j < p.len() {
            assert(o[j] == p[j]);
        } else {
            assert(p.contains(p[i]));
        }
    }
    assert forall|k: int| #![trigger o[k]] 1 <= k < o.len() implies leads(
        edges,
        o[k],
        o.take(k),
    ) by {
        if k < p.len() {
            assert(o[k] == p[k]);
            assert(o.take(k) =~= p.take(k));
        } else {
            assert(o.take(k) =~= p);
        }
    }
}

/// Orders of the same set name the same tables.
proof fn lemma_same_tables(edges: Seq<EdgeView>, a: Seq<usize>, b: Seq<usize>, mask: u32, n: int)
    requires
        orders(edges, a, mask, n),
        orders(edges, b, mask, n),
    ensures
        forall|x: usize| #[trigger] a.contains(x) ==> b.contains(x),
{
    assert forall|x: usize| #[trigger] a.contains(x) implies b.contains(x) by {
        let j = a.index_of(x);
        assert(a[j] < n);
    }
}

/// A set of one table, and nothing else, is ordered by that table alone.
proof fn lemma_one(edges: Seq<EdgeView>, t: usize, n: int)
    requires
        t < n <= 32,
    ensures
        orders(edges, seq![t], 1u32 << (t as u32), n),
{
    lemma_single(t as u32);
    let o = seq![t];
    let m = 1u32 << (t as u32);
    assert forall|x: usize| x < n implies (#[trigger] o.contains(x) <==> member(m, x as int)) by {
        assert(((1u32 << (t as u32)) >> (x as u32)) & 1 == 1 <==> x as u32 == t as u32);
        if x == t {
            assert(o[0] == t);
        }
    }
}

/// An order of one table is of the set of that table.
proof fn lemma_only(edges: Seq<EdgeView>, o: Seq<usize>, mask: u32, n: int)
    requires
        orders(edges, o, mask, n),
        o.len() == 1,
        n <= 32,
        forall|s: u32| n <= s < 32 ==> (#[trigger] (mask >> s) & 1) == 0,
    ensures
        mask == 1u32 << (o[0] as u32),
{
    let t = o[0] as u32;
    let m = 1u32 << t;
    assert(o[0] < n);
    lemma_single(t);
    assert forall|s: u32| s < 32 implies (#[trigger] (mask >> s) & 1) == (m >> s) & 1 by {
        assert(((1u32 << t) >> s) & 1 == 1 <==> s == t);
        assert((m >> s) & 1 == 0 || (m >> s) & 1 == 1) by (bit_vector);
        assert((mask >> s) & 1 == 0 || (mask >> s) & 1 == 1) by (bit_vector);
        if s < n {
            assert(o.contains(s as usize) <==> member(mask, s as int));
            if o.contains(s as usize) {
                let j = o.index_of(s as usize);
                assert(j == 0);
            } else {
                assert(o[0] != s as usize);
            }
        }
    }
    lemma_same_mask(mask, m);
}

/// Masks with the same bits are the same.
proof fn lemma_same_mask(a: u32, b: u32)
    requires
        forall|s: u32| s < 32 ==> (#[trigger] (a >> s) & 1) == (b >> s) & 1,
    ensures
        a == b,
{
    if a != b {
        let x = a ^ b;
        assert(x != 0) by (bit_vector)
            requires
                a != b,
                x == a ^ b,
        ;
        lemma_some_bit(x, 32);
        let s = choose|s: u32| s < 32 && #[trigger] ((x >> s) & 1) == 1;
        assert(((a ^ b) >> s) & 1 == ((a >> s) & 1) ^ ((b >> s) & 1)) by (bit_vector);
        assert((a >> s) & 1 == (b >> s) & 1);
        let p = (a >> s) & 1;
        assert(p ^ p == 0) by (bit_vector);
    }
}

proof fn lemma_some_bit(x: u32, k: u32)
    requires
        k <= 32,
        k == 32 || x < (1u32 << k),
        x != 0,
    ensures
        exists|s: u32| s < 32 && #[trigger] ((x >> s) & 1) == 1,
    decreases k,
{
    if k == 0 {
        assert(x == 0) by (bit_vector)
            requires
                x < (1u32 << 0u32),
        ;
    } else {
        let j = (k - 1) as u32;
        if (x >> j) & 1 == 1 {
        } else {
            assert(x < (1u32 << j)) by (bit_vector)
                requires
                    (x >> j) & 1 != 1,
                    j == k - 1,
                    0 < k <= 32,
                    k == 32 || x < (1u32 << k),
            ;
            lemma_some_bit(x, j);
        }
    }
}

/// Every table is one of the full set.
proof fn lemma_full(m: u32, full: u32)
    requires
        1 <= m <= 12,
        full == (1u32 << m) - 1,
    ensures
        forall|s: u32| s < m ==> (#[trigger] (full >> s) & 1) == 1,
{
    assert forall|s: u32| s < m implies (#[trigger] (full >> s) & 1) == 1 by {
        assert((full >> s) & 1 == 1) by (bit_vector)
            requires
                1 <= m <= 12,
                s < m,
                full == (1u32 << m) - 1,
        ;
    }
}

proof fn lemma_full_order(edges: Seq<EdgeView>, o: Seq<usize>, full: u32, n: int)
    requires
        orders(edges, o, full, n),
        0 <= n <= 32,
        forall|s: u32| s < n ==> (#[trigger] (full >> s) & 1) == 1,
    ensures
        orders_all(edges, o, n),
{
    lemma_length(o, n);
    assert forall|t: usize| t < n implies o.contains(t) by {
        assert(((full >> (t as u32)) & 1) == 1);
    }
}

/// An order without repetition that names every table has as many entries as there are
/// tables.
proof fn lemma_length(o: Seq<usize>, n: int)
    requires
        o.no_duplicates(),
        0 <= n <= 32,
        forall|k: int| 0 <= k < o.len() ==> (#[trigger] o[k]) < n,
    ensures
        o.len() <= n,
        (forall|t: usize| t < n ==> o.contains(t)) ==> o.len() == n,
{
    let s = o.to_set();
    o.unique_seq_to_set();
    let all = Set::new(|t: usize| t < n);
    lemma_below(n as nat);
    assert(s.subset_of(all)) by {
        assert forall|t: usize| s.contains(t) implies all.contains(t) by {
            let j = o.index_of(t);
            assert(o[j] == t);
        }
    }
    vstd::set_lib::lemma_len_subset(s, all);
    if forall|t: usize| t < n ==> o.contains(t) {
        assert(s =~= all);
    }
}

proof fn lemma_below(n: nat)
    requires
        n <= 32,
    ensures
        Set::new(|t: usize| t < n).finite(),
        Set::new(|t: usize| t < n).len() == n,
    decreases n,
{
    let s = Set::new(|t: usize| t < n);
    if n == 0 {
        assert(s =~= Set::empty());
    } else {
        let m = (n - 1) as nat;
        let r = Set::new(|t: usize| t < m);
        lemma_below(m);
        assert(s =~= r.insert(m as usize));
    }
}

proof fn lemma_all_order(edges: Seq<EdgeView>, o: Seq<usize>, full: u32, n: int)
    requires
        orders_all(edges, o, n),
        1 <= n <= 32,
        forall|s: u32| s < n ==> (#[trigger] (full >> s) & 1) == 1,
    ensures
        orders(edges, o, full, n),
{
    let s = o.to_set();
    o.unique_seq_to_set();
    let all = Set::new(|t: usize| t < n);
    lemma_below(n as nat);
    assert(s.subset_of(all)) by {
        assert forall|t: usize| s.contains(t) implies all.contains(t) by {
            let j = o.index_of(t);
            assert(o[j] == t);
        }
    }
    vstd::set_lib::lemma_subset_equality(s, all);
    assert forall|t: usize| t < n implies (#[trigger] o.contains(t) <==> member(full, t as int)) by {
        assert(all.contains(t));
        assert(s.contains(t));
        assert(((full >> (t as u32)) & 1) == 1);
    }
}

/// Where no equijoin leads from table `t` to the rest of the set, or the rest cannot be
/// joined, no order of the set ends in `t`.
proof fn lemma_not_last(
    edges: Seq<EdgeView>,
    before: Option<WayView>,
    t: usize,
    mask: u32,
    prev: u32,
    n: int,
)
    requires
        t < n <= 32,
        prev == mask & !(1u32 << (t as u32)),
        prev != 0,
        settled(edges, before, prev, n),
        before is Some ==> !leads(edges, t, before->0.order),
        forall|s: u32| n <= s < 32 ==> (#[trigger] (mask >> s) & 1) == 0,
    ensures
        forall|o: Seq<usize>| #[trigger] orders(edges, o, mask, n) ==> o.last() != t,
{
    assert forall|o: Seq<usize>| #[trigger] orders(edges, o, mask, n) implies o.last() != t by {
        if o.last() == t {
            if o.len() > 1 {
                lemma_shorter(edges, o, mask, prev, n);
                let p = before->0.order;
                lemma_same_tables(edges, o.drop_last(), p, prev, n);
                lemma_leads_same(edges, t, o.drop_last(), p);
            } else {
                lemma_only(edges, o, mask, n);
                let bit = t as u32;
                assert((mask & !(1u32 << bit)) == 0) by (bit_vector)
                    requires
                        mask == 1u32 << bit,
                ;
            }
        }
    }
}

/// A set below `2^n` has none of the tables from `n` on.
proof fn lemma_high(mask: u32, n: u32)
    requires
        n <= 12,
        mask < 1u32 << n,
    ensures
        forall|s: u32| n <= s < 32 ==> (#[trigger] (mask >> s) & 1) == 0,
{
    assert forall|s: u32| n <= s < 32 implies (#[trigger] (mask >> s) & 1) == 0 by {
        assert((mask >> s) & 1 == 0) by (bit_vector)
            requires
                n <= 12,
                mask < 1u32 << n,
                n <= s < 32,
        ;
    }
}

/// A set that is empty without table `t` is that table.
proof fn lemma_alone(mask: u32, t: u32)
    requires
        t < 32,
        (mask >> t) & 1 == 1,
        mask & !(1u32 << t) == 0,
    ensures
        mask == 1u32 << t,
{
    assert(mask == 1u32 << t) by (bit_vector)
        requires
            t < 32,
            (mask >> t) & 1 == 1,
            mask & !(1u32 << t) == 0,
    ;
}

/// The best way is one, and there is one where the set can be joined at all.
proof fn lemma_settled_upto(
    rows: Seq<u64>,
    edges: Seq<EdgeView>,
    f: Estimate,
    mask: u32,
    upto: nat,
)
    requires
        upto <= rows.len() <= 32,
        forall|s: u32| rows.len() <= s < 32 ==> (#[trigger] (mask >> s) & 1) == 0,
    ensures
        part_settled(
            edges,
            best_upto(rows, edges, f, mask, upto),
            mask,
            rows.len() as int,
            upto as int,
        ),
    decreases mask, upto,
{
    let n = rows.len() as int;
    if upto > 0 {
        let t = (upto - 1) as usize;
        let bit = t as u32;
        let prev = without(mask, t);
        lemma_settled_upto(rows, edges, f, mask, (upto - 1) as nat);
        if !member(mask, t as int) {
            assert forall|o: Seq<usize>| #[trigger] orders(edges, o, mask, n) implies o.last()
                != t by {
                assert(o[o.len() - 1] == o.last());
                assert(o.contains(o.last()));
                assert(o.last() < n);
            }
        } else {
            lemma_bits(mask, bit);
            if prev == 0 {
                lemma_alone(mask, bit);
                lemma_one(edges, t, n);
            } else {
                assert forall|s: u32| rows.len() <= s < 32 implies (#[trigger] (prev >> s) & 1)
                    == 0 by {
                    assert((mask >> s) & 1 == 0);
                    assert(((mask & !(1u32 << bit)) >> s) & 1 == (mask >> s) & 1);
                }
                lemma_settled(rows, edges, f, prev);
                let rest = best(rows, edges, f, prev);
                if rest is Some && leads(edges, t, rest->0.order) {
                    lemma_longer(edges, rest->0.order, t, mask, prev, n);
                } else {
                    lemma_not_last(edges, rest, t, mask, prev, n);
                }
            }
        }
    }
}

proof fn lemma_settled(rows: Seq<u64>, edges: Seq<EdgeView>, f: Estimate, mask: u32)
    requires
        rows.len() <= 32,
        forall|s: u32| rows.len() <= s < 32 ==> (#[trigger] (mask >> s) & 1) == 0,
    ensures
        settled(edges, best(rows, edges, f, mask), mask, rows.len() as int),
    decreases mask, rows.len() + 1,
{
    let n = rows.len() as int;
    lemma_settled_upto(rows, edges, f, mask, rows.len());
    if best(rows, edges, f, mask) is None {
        assert forall|o: Seq<usize>| !orders(edges, o, mask, n) by {
            if orders(edges, o, mask, n) {
                assert(o[o.len() - 1] == o.last());
                assert(o.last() < n);
            }
        }
    }
}

/// Where an equijoin leads to a table, one is the first.
proof fn lemma_first_link(edges: Seq<EdgeView>, t: usize, joined: Seq<usize>, j: int)
    requires
        0 <= j < edges.len() <= usize::MAX,
        touches(edges[j], t, joined),
    ensures
        first_link(edges, t, joined, link(edges, t, joined)),
    decreases j,
{
    if exists|i: int| 0 <= i < j && touches(#[trigger] edges[i], t, joined) {
        let i = choose|i: int| 0 <= i < j && touches(#[trigger] edges[i], t, joined);
        lemma_first_link(edges, t, joined, i);
    } else {
        assert(first_link(edges, t, joined, j as usize));
    }
}

/// The first equijoin that leads to a table goes by which tables are joined, not by
/// their order.
proof fn lemma_link_same(edges: Seq<EdgeView>, t: usize, a: Seq<usize>, b: Seq<usize>)
    requires
        edges.len() <= usize::MAX,
        forall|x: usize| #[trigger] a.contains(x) ==> b.contains(x),
        forall|x: usize| #[trigger] b.contains(x) ==> a.contains(x),
        leads(edges, t, a),
    ensures
        link(edges, t, a) == link(edges, t, b),
{
    assert forall|j: int| 0 <= j < edges.len() implies touches(#[trigger] edges[j], t, a)
        == touches(edges[j], t, b) by {}
    let j = choose|j: int| 0 <= j < edges.len() && touches(#[trigger] edges[j], t, a);
    lemma_first_link(edges, t, a, j);
    lemma_first_link(edges, t, b, j);
    let x = link(edges, t, a);
    let y = link(edges, t, b);
    assert(touches(edges[x as int], t, b));
    assert(touches(edges[y as int], t, a));
}

/// The bits of the full set are those of the first tables.
proof fn lemma_first_tables(n: int)
    requires
        1 <= n <= MAX_TABLES,
    ensures
        forall|s: u32| s < n ==> (#[trigger] (first_tables(n) >> s) & 1) == 1,
        forall|s: u32| n <= s < 32 ==> (#[trigger] (first_tables(n) >> s) & 1) == 0,
        first_tables(n) == (1u32 << (n as u32)) - 1,
        first_tables(n) < 4096,
{
    let m = n as u32;
    assert(0 < (1u32 << m) <= 4096) by (bit_vector)
        requires
            1 <= m <= 12,
    ;
    lemma_full(m, first_tables(n));
    lemma_high(first_tables(n), m);
}

/// An order comes out for every set that can be joined, and none for any other: the
/// tables of the set, each once, and each but the first joined by an equijoin to one
/// before it. What the way says of it is what joining in that order costs and gives.
pub proof fn law_best_way_is_a_way(
    rows: Seq<u64>,
    edges: Seq<EdgeView>,
    f: Estimate,
    mask: u32,
)
    requires
        rows.len() <= MAX_TABLES,
        forall|s: u32| rows.len() <= s < 32 ==> (#[trigger] (mask >> s) & 1) == 0,
    ensures
        match best(rows, edges, f, mask) {
            Some(w) => orders(edges, w.order, mask, rows.len() as int) && w == way_of(
                rows,
                edges,
                f,
                w.order,
            ),
            None => forall|o: Seq<usize>| !orders(edges, o, mask, rows.len() as int),
        },
{
    lemma_settled(rows, edges, f, mask);
    lemma_way_upto(rows, edges, f, mask, rows.len());
}

proof fn lemma_way_upto(
    rows: Seq<u64>,
    edges: Seq<EdgeView>,
    f: Estimate,
    mask: u32,
    upto: nat,
)
    ensures
        ({
            let w = best_upto(rows, edges, f, mask, upto);
            w is Some ==> w->0.order.len() > 0 && w->0 == way_of(rows, edges, f, w->0.order)
        }),
    decreases mask, upto,
{
    if upto > 0 {
        let t = (upto - 1) as usize;
        let prev = without(mask, t);
        lemma_way_upto(rows, edges, f, mask, (upto - 1) as nat);
        if member(mask, t as int) && prev != 0 && prev < mask {
            lemma_way_upto(rows, edges, f, prev, rows.len());
            let rest = best(rows, edges, f, prev);
            if rest is Some {
                assert(rest->0.order.push(t).drop_last() =~= rest->0.order);
            }
        }
    }
}

/// No order of the tables costs less than the one that comes out, where the cost of a
/// step grows with the cost so far, and the number of rows goes by which tables are
/// joined alone.
pub proof fn law_no_order_is_cheaper(
    rows: Seq<u64>,
    edges: Seq<EdgeView>,
    f: Estimate,
    mask: u32,
    order: Seq<usize>,
)
    requires
        rows.len() <= MAX_TABLES,
        edges.len() <= usize::MAX,
        forall|s: u32| rows.len() <= s < 32 ==> (#[trigger] (mask >> s) & 1) == 0,
        grows(f),
        by_set(rows, edges, f),
        orders(edges, order, mask, rows.len() as int),
    ensures
        best(rows, edges, f, mask) is Some,
        best(rows, edges, f, mask)->0.cost <= way_of(rows, edges, f, order).cost,
    decreases order.len(),
{
    let n = rows.len() as int;
    let t = order.last();
    let bit = t as u32;
    let prev = without(mask, t);
    assert(order[order.len() - 1] == t);
    assert(order.contains(t));
    assert(t < n);
    lemma_bits(mask, bit);
    lemma_settled(rows, edges, f, mask);
    if order.len() == 1 {
        lemma_only(edges, order, mask, n);
        assert((mask & !(1u32 << bit)) == 0) by (bit_vector)
            requires
                mask == 1u32 << bit,
        ;
        lemma_single_best(rows, edges, f, t, n as nat);
    } else {
        lemma_shorter(edges, order, mask, prev, n);
        assert forall|s: u32| rows.len() <= s < 32 implies (#[trigger] (prev >> s) & 1) == 0 by {
            assert((mask >> s) & 1 == 0);
            assert(((mask & !(1u32 << bit)) >> s) & 1 == (mask >> s) & 1);
        }
        let p = order.drop_last();
        law_no_order_is_cheaper(rows, edges, f, prev, p);
        law_best_way_is_a_way(rows, edges, f, prev);
        let rest = best(rows, edges, f, prev)->0;
        lemma_same_tables(edges, p, rest.order, prev, n);
        lemma_same_tables(edges, rest.order, p, prev, n);
        lemma_leads_same(edges, t, p, rest.order);
        lemma_link_same(edges, t, p, rest.order);
        assert(way_of(rows, edges, f, rest.order).rows == way_of(rows, edges, f, p).rows);
        if prev == 0 {
            assert(p[0] < n);
            assert(p.contains(p[0]));
            assert(member(prev, p[0] as int));
            let x = p[0] as u32;
            assert((0u32 >> x) & 1 == 0) by (bit_vector);
        }
        assert(candidate(edges, f, Some(rest), t) is Some);
        let q = way_of(rows, edges, f, p);
        lemma_way_order(rows, edges, f, p);
        let l = link(edges, t, p);
        assert(f(rest.cost, q.rows, t, l).0 <= f(q.cost, q.rows, t, l).0);
        assert(candidate(edges, f, Some(rest), t)->0.cost <= way_of(rows, edges, f, order).cost);
        lemma_at_most(rows, edges, f, mask, t, n as nat);
    }
}

proof fn lemma_way_order(rows: Seq<u64>, edges: Seq<EdgeView>, f: Estimate, order: Seq<usize>)
    ensures
        way_of(rows, edges, f, order).order == order,
    decreases order.len(),
{
    if order.len() > 1 {
        lemma_way_order(rows, edges, f, order.drop_last());
        assert(order.drop_last().push(order.last()) =~= order);
    }
}

/// A dearer way so far makes no cheaper way.
pub open spec fn grows(f: Estimate) -> bool {
    forall|a: u64, b: u64, r: u64, t: usize, e: usize|
        #![trigger f(a, r, t, e), f(b, r, t, e)]
        a <= b ==> f(a, r, t, e).0 <= f(b, r, t, e).0
}

/// The number of rows goes by which tables are joined, not by their order.
pub open spec fn by_set(rows: Seq<u64>, edges: Seq<EdgeView>, f: Estimate) -> bool {
    forall|a: Seq<usize>, b: Seq<usize>, mask: u32| #[trigger]
        orders(edges, a, mask, rows.len() as int) && #[trigger] orders(
            edges,
            b,
            mask,
            rows.len() as int,
        ) ==> way_of(rows, edges, f, a).rows == way_of(rows, edges, f, b).rows
}

/// The best way costs no more than any candidate.
proof fn lemma_at_most(
    rows: Seq<u64>,
    edges: Seq<EdgeView>,
    f: Estimate,
    mask: u32,
    t: usize,
    upto: nat,
)
    requires
        t < upto <= rows.len(),
        rows.len() <= 32,
        member(mask, t as int),
        without(mask, t) != 0,
        without(mask, t) < mask,
        candidate(edges, f, best(rows, edges, f, without(mask, t)), t) is Some,
    ensures
        best_upto(rows, edges, f, mask, upto) is Some,
        best_upto(rows, edges, f, mask, upto)->0.cost <= candidate(
            edges,
            f,
            best(rows, edges, f, without(mask, t)),
            t,
        )->0.cost,
    decreases upto,
{
    let u = (upto - 1) as usize;
    if u != t {
        lemma_at_most(rows, edges, f, mask, t, (upto - 1) as nat);
        if member(mask, u as int) {
            lemma_bits(mask, u as u32);
            let bit = t as u32;
            assert(((mask & !(1u32 << (u as u32))) >> bit) & 1 == (mask >> bit) & 1);
            assert((0u32 >> bit) & 1 == 0) by (bit_vector);
        }
    }
}

/// One table costs nothing.
proof fn lemma_single_best(rows: Seq<u64>, edges: Seq<EdgeView>, f: Estimate, t: usize, upto: nat)
    requires
        upto <= rows.len() <= 32,
        t < rows.len(),
    ensures
        ({
            let w = best_upto(rows, edges, f, 1u32 << (t as u32), upto);
            w is Some ==> w->0.cost == 0
        }),
    decreases upto,
{
    if upto > 0 {
        let u = (upto - 1) as usize;
        let bit = t as u32;
        lemma_single_best(rows, edges, f, t, (upto - 1) as nat);
        lemma_single(bit);
        assert(((1u32 << bit) >> (u as u32)) & 1 == 1 <==> u as u32 == bit);
        assert(((1u32 << bit) & !(1u32 << bit)) == 0) by (bit_vector);
    }
}

/// Join table `t` last, where an equijoin leads to it.
fn one_more<S: Fn(u64, u64, usize, usize) -> (u64, u64)>(
    edges: &Vec<Edge>,
    step: &S,
    before: &Option<Way>,
    t: usize,
) -> (r: Option<Way>)
    requires
        estimates(*step),
    ensures
        way_view(r) == candidate(edge_views(edges@), estimate(*step), way_view(*before), t),
{
    let ghost ev = edge_views(edges@);
    match before {
        None => None,
        Some(b) => match connecting_edge(t, &b.order, edges) {
            None => {
                proof {
                    if leads(ev, t, b.order@) {
                        let j = choose|j: int|
                            0 <= j < ev.len() && touches(#[trigger] ev[j], t, b.order@);
                        assert(ev[j] == edges@[j]@);
                    }
                }
                None
            },
            Some(e) => {
                proof {
                    assert(ev[e as int] == edges@[e as int]@);
                    assert(first_link(ev, t, b.order@, e)) by {
                        assert forall|j: int| 0 <= j < e implies !touches(
                            #[trigger] ev[j],
                            t,
                            b.order@,
                        ) by {
                            assert(ev[j] == edges@[j]@);
                        }
                    }
                    let k = link(ev, t, b.order@);
                    assert(first_link(ev, t, b.order@, k));
                    assert(touches(ev[k as int], t, b.order@));
                    assert(k == e);
                }
                let (cost, rows): (u64, u64) = step(b.cost, b.rows, t, e);
                assert(step.ensures((b.cost, b.rows, t, e), (cost, rows)));
                let mut order: Vec<usize> = b.order.clone();
                assert(order@ =~= b.order@);
                order.push(t);
                Some(Way { cost, rows, order })
            },
        },
    }
}

fn cheaper(a: Option<Way>, b: Option<Way>) -> (r: Option<Way>)
    ensures
        way_view(r) == cheaper_of(way_view(a), way_view(b)),
{
    match (a, b) {
        (Some(x), Some(y)) => {
            if y.cost < x.cost {
                Some(y)
            } else {
                Some(x)
            }
        },
        (Some(x), None) => Some(x),
        (None, y) => y,
    }
}

/// The best way to join the tables of one set, given those for the smaller sets.
fn best_way<S: Fn(u64, u64, usize, usize) -> (u64, u64)>(
    rows: &Vec<u64>,
    edges: &Vec<Edge>,
    step: &S,
    found: &Vec<Option<Way>>,
    mask: u32,
) -> (r: Option<Way>)
    requires
        rows@.len() <= MAX_TABLES,
        found@.len() == mask,
        estimates(*step),
        forall|x: u32|
            x < mask ==> way_view(#[trigger] found@[x as int]) == best(
                rows@,
                edge_views(edges@),
                estimate(*step),
                x,
            ),
    ensures
        way_view(r) == best(rows@, edge_views(edges@), estimate(*step), mask),
{
    let ghost ev = edge_views(edges@);
    let ghost f = estimate(*step);
    let n: usize = rows.len();
    let mut w: Option<Way> = None;
    let mut t: usize = 0;
    while t < n
        invariant
            t <= n,
            n == rows@.len(),
            n <= MAX_TABLES,
            ev == edge_views(edges@),
            f == estimate(*step),
            estimates(*step),
            found@.len() == mask,
            forall|x: u32|
                x < mask ==> way_view(#[trigger] found@[x as int]) == best(rows@, ev, f, x),
            way_view(w) == best_upto(rows@, ev, f, mask, t as nat),
        decreases n - t,
    {
        let bit: u32 = t as u32;
        if (mask >> bit) & 1 == 1 {
            let prev: u32 = mask & !(1u32 << bit);
            proof {
                lemma_bits(mask, bit);
            }
            if prev == 0 {
                let mut order: Vec<usize> = Vec::new();
                order.push(t);
                assert(order@ =~= seq![t]);
                w = Some(Way { cost: 0, rows: rows[t], order });
            } else {
                let c: Option<Way> = one_more(edges, step, &found[prev as usize], t);
                w = cheaper(w, c);
            }
        }
        t = t + 1;
    }
    w
}

/// The order in which to join tables: the best for each set of them is pieced together
/// from the best for the smaller sets. There is none where the tables do not hang
/// together.
///
/// `rows` says how many rows each table has, and `step` what joining a table by an
/// equijoin makes of the cost and the number of rows so far.
pub fn dp_order<S: Fn(u64, u64, usize, usize) -> (u64, u64)>(
    rows: &Vec<u64>,
    edges: &Vec<Edge>,
    step: &S,
) -> (r: Option<Vec<usize>>)
    requires
        1 <= rows@.len() <= MAX_TABLES,
        estimates(*step),
    ensures
        match best(
            rows@,
            edge_views(edges@),
            estimate(*step),
            first_tables(rows@.len() as int),
        ) {
            Some(w) => r is Some && r->0@ == w.order,
            None => r is None,
        },
        match r {
            Some(o) => orders_all(edge_views(edges@), o@, rows@.len() as int),
            None => forall|o: Seq<usize>|
                !orders_all(edge_views(edges@), o, rows@.len() as int),
        },
{
    let ghost ev = edge_views(edges@);
    let ghost f = estimate(*step);
    let n: u32 = rows.len() as u32;
    proof {
        lemma_first_tables(n as int);
    }
    let size: u32 = 1u32 << n;
    let mut found: Vec<Option<Way>> = Vec::new();
    let mut mask: u32 = 0;
    while mask < size
        invariant
            mask <= size <= 4096,
            rows@.len() <= MAX_TABLES,
            ev == edge_views(edges@),
            f == estimate(*step),
            estimates(*step),
            found@.len() == mask,
            forall|x: u32|
                x < mask ==> way_view(#[trigger] found@[x as int]) == best(rows@, ev, f, x),
        decreases size - mask,
    {
        let w: Option<Way> = best_way(rows, edges, step, &found, mask);
        found.push(w);
        mask = mask + 1;
    }
    proof {
        let full = first_tables(n as int);
        assert(way_view(found@[full as int]) == best(rows@, ev, f, full));
        lemma_settled(rows@, ev, f, full);
        let b = best(rows@, ev, f, full);
        if b is Some {
            lemma_full_order(ev, b->0.order, full, n as int);
        } else {
            assert forall|o: Seq<usize>| !orders_all(ev, o, n as int) by {
                if orders_all(ev, o, n as int) {
                    lemma_all_order(ev, o, full, n as int);
                }
            }
        }
    }
    match found.pop() {
        Some(Some(w)) => Some(w.order),
        _ => None,
    }
}

/// The tables of a query in the order that is chosen for them; none where they have to
/// be joined as they are written.
pub open spec fn planned(
    kinds: Seq<JoinKind>,
    ons: Seq<ExprView>,
    schs: Seq<Seq<(Seq<char>, Seq<char>)>>,
    rows: Seq<u64>,
    f: Estimate,
    r: Option<Seq<usize>>,
) -> bool {
    exists|es: Option<Seq<EdgeView>>| #[trigger]
        edges_of(kinds, ons, schs, es) && match r {
            Some(o) => es is Some && best(rows, es->0, f, first_tables(rows.len() as int)) is Some
                && best(rows, es->0, f, first_tables(rows.len() as int))->0.order == o,
            None => es is Some ==> best(rows, es->0, f, first_tables(rows.len() as int)) is None,
        }
}

/// A fold over the tables of a query in the order that is chosen for them: the tables,
/// each keyed by an equijoin to those before it. `None` where they have to be joined as
/// they are written.
pub fn join_plan<S: Fn(u64, u64, usize, usize) -> (u64, u64)>(
    kinds: &Vec<JoinKind>,
    ons: &Vec<Expr>,
    schs: &Vec<Sch>,
    rows: &Vec<u64>,
    step: &S,
) -> (r: Option<Vec<PlanStep>>)
    requires
        schs@.len() >= 1,
        rows@.len() == schs@.len(),
        estimates(*step),
    ensures
        exists|order: Option<Seq<usize>>| #[trigger]
            planned(kinds@, expr_views(ons@), schemas(schs@), rows@, estimate(*step), order)
                && match r {
                Some(ss) => order is Some && exists|es: Seq<EdgeView>| #[trigger]
                    edges_of(kinds@, expr_views(ons@), schemas(schs@), Some(es)) && steps_for(
                        order->0,
                        es,
                        opt_steps(Some(ss)),
                    ),
                None => order is None,
            },
{
    let ghost os = expr_views(ons@);
    let ghost ss = schemas(schs@);
    let ghost f = estimate(*step);
    match join_edges(kinds, ons, schs) {
        None => {
            assert(edges_of(kinds@, os, ss, None));
            assert(planned(kinds@, os, ss, rows@, f, None));
            None
        },
        Some(edges) => {
            let ghost ev = edge_views(edges@);
            assert(edges_of(kinds@, os, ss, Some(ev)));
            match dp_order(rows, &edges, step) {
                None => {
                    assert(planned(kinds@, os, ss, rows@, f, None));
                    None
                },
                Some(order) => {
                    assert(planned(kinds@, os, ss, rows@, f, Some(order@)));
                    let steps: Option<Vec<PlanStep>> = build_steps(&order, &edges);
                    proof {
                        lemma_steps(ev, order@);
                    }
                    steps
                },
            }
        },
    }
}

/// Where each table but the first is joined to one before it, each has its step.
proof fn lemma_steps(edges: Seq<EdgeView>, order: Seq<usize>)
    requires
        joinable(edges, order),
    ensures
        forall|i: int| #![trigger order[i]]
            1 <= i < order.len() ==> step_of(edges, order[i], order.take(i)) is Some,
{
    assert forall|i: int| #![trigger order[i]] 1 <= i < order.len() implies step_of(
        edges,
        order[i],
        order.take(i),
    ) is Some by {
        let joined = order.take(i);
        let j = choose|j: int|
            0 <= j < edges.len() && touches(#[trigger] edges[j], order[i], joined);
        lemma_connecting(edges, order[i], joined, j);
    }
}

proof fn lemma_connecting(edges: Seq<EdgeView>, t: usize, joined: Seq<usize>, j: int)
    requires
        0 <= j < edges.len(),
        touches(edges[j], t, joined),
    ensures
        connecting(edges, t, joined).len() > 0,
    decreases edges.len(),
{
    if j < edges.len() - 1 {
        assert(edges.drop_last()[j] == edges[j]);
        lemma_connecting(edges.drop_last(), t, joined, j);
    }
}

/// The tables of a query in the order in which they are joined.
pub fn planned_join_order<S: Fn(u64, u64, usize, usize) -> (u64, u64)>(
    kinds: &Vec<JoinKind>,
    ons: &Vec<Expr>,
    schs: &Vec<Sch>,
    rows: &Vec<u64>,
    step: &S,
) -> (r: Option<Vec<usize>>)
    requires
        schs@.len() >= 1,
        rows@.len() == schs@.len(),
        estimates(*step),
    ensures
        planned(
            kinds@,
            expr_views(ons@),
            schemas(schs@),
            rows@,
            estimate(*step),
            match r {
                Some(o) => Some(o@),
                None => None,
            },
        ),
{
    let ghost os = expr_views(ons@);
    let ghost ss = schemas(schs@);
    match join_plan(kinds, ons, schs, rows, step) {
        None => None,
        Some(steps) => {
            let ghost order = choose|order: Option<Seq<usize>>| #[trigger]
                planned(kinds@, os, ss, rows@, estimate(*step), order) && order is Some && exists|
                    es: Seq<EdgeView>,
                | #[trigger]
                    edges_of(kinds@, os, ss, Some(es)) && steps_for(
                        order->0,
                        es,
                        opt_steps(Some(steps)),
                    );
            let ghost es = choose|es: Seq<EdgeView>| #[trigger]
                edges_of(kinds@, os, ss, Some(es)) && steps_for(
                    order->0,
                    es,
                    opt_steps(Some(steps)),
                );
            let ghost sv = opt_steps(Some(steps))->0;
            let mut tables: Vec<usize> = Vec::new();
            let n: usize = steps.len();
            let mut i: usize = 0;
            while i < n
                invariant
                    i <= n,
                    n == steps@.len(),
                    tables@.len() == i,
                    forall|j: int| 0 <= j < i ==> #[trigger] tables@[j] == steps@[j].table,
                decreases n - i,
            {
                tables.push(steps[i].table);
                i = i + 1;
            }
            proof {
                assert(steps_for(order->0, es, Some(sv)));
                assert(tables@ =~= order->0) by {
                    assert forall|j: int| 0 <= j < n implies tables@[j] == order->0[j] by {
                        assert(sv[j] == steps@[j]@);
                        if j > 0 {
                            assert(step_of(es, order->0[j], order->0.take(j)) is Some);
                        }
                    }
                }
            }
            Some(tables)
        },
    }
}

/// The order that is planned for a query names every table of it once, each connected to those
/// before it; there is none only where the tables do not hang together.
pub proof fn law_planned_orders_name_every_table_once(
    kinds: Seq<JoinKind>,
    ons: Seq<ExprView>,
    schs: Seq<Seq<(Seq<char>, Seq<char>)>>,
    rows: Seq<u64>,
    f: Estimate,
    r: Option<Seq<usize>>,
)
    requires
        1 <= rows.len() <= MAX_TABLES,
        planned(kinds, ons, schs, rows, f, r),
    ensures
        match r {
            Some(o) => exists|es: Seq<EdgeView>| #[trigger]
                edges_of(kinds, ons, schs, Some(es)) && orders_all(es, o, rows.len() as int),
            None => forall|es: Seq<EdgeView>, o: Seq<usize>| #[trigger]
                edges_of(kinds, ons, schs, Some(es)) ==> !#[trigger] orders_all(
                    es,
                    o,
                    rows.len() as int,
                ),
        },
{
    let n = rows.len() as int;
    let full = first_tables(n);
    lemma_first_tables(n);
    let es = choose|es: Option<Seq<EdgeView>>| #[trigger]
        edges_of(kinds, ons, schs, es) && match r {
            Some(o) => es is Some && best(rows, es->0, f, full) is Some && best(
                rows,
                es->0,
                f,
                full,
            )->0.order == o,
            None => es is Some ==> best(rows, es->0, f, full) is None,
        };
    if es is Some {
        lemma_settled(rows, es->0, f, full);
    }
    match r {
        Some(o) => {
            lemma_full_order(es->0, o, full, n);
            assert(edges_of(kinds, ons, schs, Some(es->0)));
        },
        None => {
            assert forall|xs: Seq<EdgeView>, o: Seq<usize>| #[trigger]
                edges_of(kinds, ons, schs, Some(xs)) implies !#[trigger] orders_all(xs, o, n) by {
                if es is Some {
                    assert(xs =~= es->0) by {
                        assert forall|i: int| 0 <= i < ons.len() implies xs[i] == (es->0)[i] by {
                            assert((es->0)[i] == crate::db::joins::edge_of(ons[i], schs)->0);
                        }
                    }
                    if orders_all(xs, o, n) {
                        lemma_all_order(xs, o, full, n);
                    }
                }
            }
        },
    }
}

} // verus!
