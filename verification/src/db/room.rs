//! Databases that always find room: those whose index keys are short.

use vstd::prelude::*;

use crate::btree::grow::{shrink, SHORT_KEY};
use crate::btree::node::Entry;
use crate::btree::roomy::{
    law_roomy_trees_lose_keys, law_roomy_trees_take_short_keys, lemma_pages_taken, roomy,
};
use crate::btree::tree::{height, Tree};
use crate::btree::{insertable, MAX_KEY};
use crate::buffer::PageId;
use crate::db::catalog::IndexMeta;
use crate::db::define::{buildable, built, sapling};
use crate::db::dml::touched;
use crate::db::rows::{hosts, reaches, rehosts, ChangeView};
use crate::db::store::{
    growth, grown_trees, key_in, numbers, regrown_trees, retakes, takes,
};
use crate::heap::Rid;
use crate::types::ValueView;

verus! {

/// Every tree is in order, of short keys, and fits its pages.
pub open spec fn all_roomy(ts: Seq<Tree>) -> bool {
    forall|i: int| 0 <= i < ts.len() ==> roomy(#[trigger] ts[i])
}

/// The row's keys are short in every index, wherever the row is put.
pub open spec fn short_row(idxs: Seq<IndexMeta>, row: Seq<ValueView>) -> bool {
    forall|i: int, rid: Rid|
        0 <= i < idxs.len() ==> (#[trigger] key_in(idxs[i], row, rid)).len() <= SHORT_KEY
}

/// The most pages that `m` rows can take in `n` trees that may grow by `g` pages at the
/// first of them.
pub open spec fn budget(m: int, g: int, n: int) -> int
    decreases m,
{
    if m <= 0 {
        0
    } else {
        g + 1 + budget(m - 1, g + n, n)
    }
}

proof fn lemma_budget(m: int, g: int, h: int, n: int)
    requires
        0 <= g <= h,
        0 <= n,
    ensures
        0 <= budget(m, g, n) <= budget(m, h, n),
    decreases m,
{
    if m > 0 {
        lemma_budget(m - 1, g + n, h + n, n);
    }
}

/// Trees that are at most one level higher may grow by one page more each.
proof fn lemma_growth_step(ts: Seq<Tree>, us: Seq<Tree>, n: int)
    requires
        0 <= n <= ts.len(),
        us.len() == ts.len(),
        forall|i: int|
            0 <= i < n ==> 0 <= height(#[trigger] ts[i]) && 0 <= height(us[i]) <= height(ts[i]) + 1,
    ensures
        0 <= growth(ts, n),
        0 <= growth(us, n) <= growth(ts, n) + n,
    decreases n,
{
    if n > 0 {
        lemma_growth_step(ts, us, n - 1);
        assert(0 <= height(ts[n - 1]));
    }
}

/// Rows whose keys are short find room in every index of short keys, as long as `limit` pages
/// are enough.
pub proof fn law_short_rows_are_hosted(
    ts: Seq<Tree>,
    idxs: Seq<IndexMeta>,
    tid: u16,
    rows: Seq<Seq<ValueView>>,
    count: int,
    k: int,
    limit: int,
)
    requires
        ts.len() == idxs.len(),
        all_roomy(ts),
        forall|j: int| k <= j < rows.len() ==> short_row(idxs, #[trigger] rows[j]),
        count + budget(rows.len() - k, growth(ts, ts.len() as int), ts.len() as int) <= limit,
    ensures
        hosts(ts, idxs, tid, rows, count, k, limit),
    decreases rows.len() - k,
{
    if 0 <= k < rows.len() {
        let n = ts.len() as int;
        let g = growth(ts, n);
        let row = rows[k];
        assert(short_row(idxs, row));
        assert forall|i: int| 0 <= i < n implies 0 <= height(#[trigger] ts[i]) by {
            law_roomy_trees_take_short_keys(ts[i], Seq::empty(), Rid { page: 0, slot: 0 }, 0);
        }
        lemma_growth_step(ts, ts, n);
        assert forall|i: int, rid: Rid, fresh: int|
            0 <= i < idxs.len() && idxs[i].table_id == tid && key_in(idxs[i], row, rid).len()
                <= MAX_KEY && 0 <= fresh implies #[trigger] insertable(
            ts[i],
            key_in(idxs[i], row, rid),
            rid,
            fresh,
        ) by {
            assert(roomy(ts[i]));
            law_roomy_trees_take_short_keys(ts[i], key_in(idxs[i], row, rid), rid, fresh);
        }
        assert(takes(ts, idxs, tid, row));
        lemma_budget(rows.len() - k - 1, g + n, g + n, n);
        assert forall|rid: Rid, fresh: Seq<int>, next: int|
            numbers(fresh, n) && #[trigger] reaches(next, count + g + 1) implies hosts(
            #[trigger] grown_trees(ts, idxs, tid, row, rid, fresh),
            idxs,
            tid,
            rows,
            next,
            k + 1,
            limit,
        ) by {
            let us = grown_trees(ts, idxs, tid, row, rid, fresh);
            assert forall|i: int| 0 <= i < n implies roomy(#[trigger] us[i]) && 0 <= height(us[i])
                <= height(ts[i]) + 1 by {
                assert(roomy(ts[i]));
                law_roomy_trees_take_short_keys(ts[i], key_in(idxs[i], row, rid), rid, fresh[i]);
            }
            lemma_growth_step(ts, us, n);
            lemma_budget(rows.len() - k - 1, growth(us, n), g + n, n);
            law_short_rows_are_hosted(us, idxs, tid, rows, next, k + 1, limit);
        }
    }
}

/// Changes to rows whose keys are short find room in every index of short keys, as long as
/// `limit` pages are enough.
pub proof fn law_short_changes_are_hosted(
    ts: Seq<Tree>,
    idxs: Seq<IndexMeta>,
    tid: u16,
    ws: Seq<ChangeView>,
    count: int,
    k: int,
    limit: int,
)
    requires
        ts.len() == idxs.len(),
        all_roomy(ts),
        forall|j: int| k <= j < ws.len() ==> short_row(idxs, (#[trigger] ws[j]).new_row),
        count + budget(ws.len() - k, growth(ts, ts.len() as int), ts.len() as int) <= limit,
    ensures
        rehosts(ts, idxs, tid, ws, count, k, limit),
    decreases ws.len() - k,
{
    if 0 <= k < ws.len() {
        let n = ts.len() as int;
        let g = growth(ts, n);
        let w = ws[k];
        let (was, now, rid) = (w.old_row, w.new_row, w.rid);
        assert(short_row(idxs, now));
        assert forall|i: int| 0 <= i < n implies 0 <= height(#[trigger] ts[i]) by {
            law_roomy_trees_take_short_keys(ts[i], Seq::empty(), Rid { page: 0, slot: 0 }, 0);
        }
        lemma_growth_step(ts, ts, n);
        assert forall|i: int, fresh: int|
            0 <= i < idxs.len() && touched(idxs[i], tid, was, now) && key_in(
                idxs[i],
                now,
                rid,
            ).len() <= MAX_KEY && 0 <= fresh implies #[trigger] insertable(
            shrink(ts[i], key_in(idxs[i], was, rid)),
            key_in(idxs[i], now, rid),
            rid,
            fresh,
        ) by {
            assert(roomy(ts[i]));
            let t = shrink(ts[i], key_in(idxs[i], was, rid));
            law_roomy_trees_lose_keys(ts[i], key_in(idxs[i], was, rid));
            law_roomy_trees_take_short_keys(t, key_in(idxs[i], now, rid), rid, fresh);
        }
        assert(retakes(ts, idxs, tid, was, now, rid));
        lemma_budget(ws.len() - k - 1, g + n, g + n, n);
        assert forall|fresh: Seq<int>, next: int|
            numbers(fresh, n) && #[trigger] reaches(next, count + g + 1) implies rehosts(
            #[trigger] regrown_trees(ts, idxs, tid, was, now, rid, fresh),
            idxs,
            tid,
            ws,
            next,
            k + 1,
            limit,
        ) by {
            let us = regrown_trees(ts, idxs, tid, was, now, rid, fresh);
            assert forall|i: int| 0 <= i < n implies roomy(#[trigger] us[i]) && 0 <= height(us[i])
                <= height(ts[i]) + 1 by {
                assert(roomy(ts[i]));
                let t = shrink(ts[i], key_in(idxs[i], was, rid));
                law_roomy_trees_lose_keys(ts[i], key_in(idxs[i], was, rid));
                law_roomy_trees_take_short_keys(t, key_in(idxs[i], now, rid), rid, fresh[i]);
            }
            lemma_growth_step(ts, us, n);
            lemma_budget(ws.len() - k - 1, growth(us, n), g + n, n);
            law_short_changes_are_hosted(us, idxs, tid, ws, next, k + 1, limit);
        }
    }
}

/// The most pages that `n` entries can take in a tree of height `h`.
pub open spec fn climb(h: int, n: int) -> int
    decreases n,
{
    if n <= 0 {
        0
    } else {
        climb(h, n - 1) + h + n + 1
    }
}

proof fn lemma_climb(h: int, m: int, n: int)
    requires
        0 <= h,
        m <= n,
    ensures
        climb(h, m) <= climb(h, n),
    decreases n,
{
    if 0 < n && m < n {
        lemma_climb(h, m, n - 1);
    }
}

proof fn lemma_built(t: Tree, es: Seq<Entry>, fresh: int, n: int)
    requires
        0 <= n <= es.len(),
        roomy(t),
        forall|i: int| 0 <= i < es.len() ==> (#[trigger] es[i]).0.len() <= SHORT_KEY,
    ensures
        ({
            let (u, f) = built(t, es, fresh, n);
            &&& roomy(u)
            &&& 0 <= height(t)
            &&& 0 <= height(u) <= height(t) + n
            &&& f <= fresh + climb(height(t), n)
        }),
    decreases n,
{
    if n > 0 {
        lemma_built(t, es, fresh, n - 1);
        let (u, f) = built(t, es, fresh, n - 1);
        let e = es[n - 1];
        law_roomy_trees_take_short_keys(u, e.0, e.1, f);
        lemma_pages_taken(u, e.0, e.1, f);
    } else {
        law_roomy_trees_take_short_keys(t, Seq::empty(), Rid { page: 0, slot: 0 }, 0);
    }
}

/// Entries with short keys can be built into a tree of short keys, as long as `limit` pages
/// are enough.
pub proof fn law_short_entries_are_buildable(t: Tree, es: Seq<Entry>, fresh: int, limit: int)
    requires
        roomy(t),
        forall|i: int| 0 <= i < es.len() ==> (#[trigger] es[i]).0.len() <= SHORT_KEY,
        fresh + climb(height(t), es.len() as int) <= limit,
    ensures
        buildable(t, es, fresh, limit),
{
    assert forall|n: int|
        #![trigger built(t, es, fresh, n)]
        0 <= n < es.len() implies {
        let (u, f) = built(t, es, fresh, n);
        &&& f + height(u) + 2 <= limit
        &&& es[n].0.len() <= MAX_KEY ==> insertable(u, es[n].0, es[n].1, f)
    } by {
        let (u, f) = built(t, es, fresh, n);
        lemma_built(t, es, fresh, n);
        law_roomy_trees_take_short_keys(u, es[n].0, es[n].1, f);
        lemma_climb(height(t), n + 1, es.len() as int);
    }
}

/// The empty tree that an index begins with is one of short keys.
pub proof fn law_saplings_are_roomy(p: PageId)
    ensures
        roomy(sapling(p)),
        height(sapling(p)) == 0,
{
}

} // verus!
