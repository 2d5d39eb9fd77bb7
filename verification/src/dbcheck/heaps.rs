//! What heap files write is found sound.

use vstd::prelude::*;

use crate::buffer::{page_at, PageId};
use crate::dbcheck::{
    faults_of, is_heap_page, law_clean_check_iff_sound, page_recs, recs_to, refs_of, sound_file,
    stubs_of, targets_of, trusted, whole_pages,
};
use crate::heap::{
    cell, cell_set, deleted, goes_with, is_heap, is_moved, is_stub, law_delete_removes_the_record,
    law_insert_adds_the_record, law_update_replaces_the_record, lemma_stub_for, moved_to, record,
    record_kind, share_target, sound, stub_for, target, tidy, updated, versioned, Pages,
    RecordKind, Rid,
};
use crate::page::{
    checksum_ok, law_well_formed_pages_validate, lemma_same_past_checksum, live_pairs, page_wf,
    same_past_checksum, structure_ok, tuples_of, SlotId, PAGE_SIZE,
};
use crate::pager::full;

verus! {

/// Stub `s` leads to `t`.
pub open spec fn leads_to(pages: Pages, s: Rid, t: Rid) -> bool {
    is_stub(pages, s) && target(pages, s) == t
}

/// A stub leads to every record that was moved.
pub open spec fn no_orphans(pages: Pages) -> bool {
    forall|x: Rid| #[trigger] is_moved(pages, x) ==> exists|s: Rid| #[trigger] leads_to(pages, s, x)
}

/// Every heap page is of the current version.
pub open spec fn current(pages: Pages) -> bool {
    forall|p: PageId| #[trigger] is_heap(pages, p) ==> versioned(pages, p)
}

/// Everything that a check looks at holds of the heap.
pub open spec fn clean(pages: Pages) -> bool {
    sound(pages) && no_orphans(pages) && current(pages)
}

/// No page became one of an older version.
proof fn lemma_current(a: Pages, b: Pages)
    requires
        current(a),
        forall|p: PageId| #[trigger]
            a.dom().contains(p) ==> is_heap(a, p) == is_heap(b, p) && (versioned(a, p)
                ==> versioned(b, p)),
        forall|p: PageId| #[trigger]
            b.dom().contains(p) && !a.dom().contains(p) ==> versioned(b, p),
    ensures
        current(b),
{
    assert forall|p: PageId| #[trigger] is_heap(b, p) implies versioned(b, p) by {
        assert(b.dom().contains(p));
        if a.dom().contains(p) {
            assert(is_heap(a, p));
        }
    }
}

/// A heap that is clean stays so where a record is inserted: in particular no moved
/// record is left without its stub.
pub proof fn law_insertion_keeps_the_heap_clean(a: Pages, b: Pages, r: Rid, rec: Seq<u8>)
    requires
        clean(a),
        cell(a, r) is None,
        cell_set(a, b, r, Some(seq![0u8] + rec)),
    ensures
        clean(b),
{
    law_insert_adds_the_record(a, b, r, rec);
    lemma_current(a, b);
    assert forall|x: Rid| #[trigger] is_moved(b, x) implies exists|s: Rid| #[trigger]
        leads_to(b, s, x) by {
        assert(x != r);
        assert(cell(b, x) == cell(a, x));
        assert(is_moved(a, x));
        let s = choose|s: Rid| #[trigger] leads_to(a, s, x);
        assert(cell(b, s) == cell(a, s));
        assert(leads_to(b, s, x));
    }
}

/// A heap that is clean stays so where a record is deleted.
pub proof fn law_deletion_keeps_the_heap_clean(a: Pages, b: Pages, r: Rid)
    requires
        clean(a),
        record(a, r) is Some,
        deleted(a, b, r),
    ensures
        clean(b),
{
    law_delete_removes_the_record(a, b, r);
    lemma_current(a, b);
    assert forall|x: Rid| #[trigger] is_moved(b, x) implies exists|s: Rid| #[trigger]
        leads_to(b, s, x) by {
        assert(cell(b, x) == if goes_with(a, r, x) {
            None
        } else {
            cell(a, x)
        });
        assert(is_moved(a, x));
        let s = choose|s: Rid| #[trigger] leads_to(a, s, x);
        if goes_with(a, r, s) {
            if s != r {
                assert(is_moved(a, target(a, r)));
            }
        }
        assert(cell(b, s) == cell(a, s));
        assert(leads_to(b, s, x));
    }
}

/// A heap that is clean stays so where a record is updated, in place or by moving it.
pub proof fn law_update_keeps_the_heap_clean(a: Pages, b: Pages, r: Rid, rec: Seq<u8>)
    requires
        clean(a),
        record(a, r) is Some,
        updated(a, b, r, rec),
    ensures
        clean(b),
{
    law_update_replaces_the_record(a, b, r, rec);
    lemma_current(a, b);
    if is_stub(a, r) {
        assert(is_moved(a, target(a, r)));
    }
    assert forall|x: Rid| #[trigger] is_moved(b, x) implies exists|s: Rid| #[trigger]
        leads_to(b, s, x) by {
        if cell_set(a, b, r, Some(seq![0u8] + rec)) && cell(a, r) is Some && cell(a, r)->0[0] == 0 {
            assert(x != r);
            assert(cell(b, x) == cell(a, x));
            assert(is_moved(a, x));
            let s = choose|s: Rid| #[trigger] leads_to(a, s, x);
            assert(cell(b, s) == cell(a, s));
            assert(leads_to(b, s, x));
        } else if is_stub(a, r) && cell_set(a, b, target(a, r), Some(seq![2u8] + rec)) {
            let g = target(a, r);
            assert(is_moved(a, x)) by {
                if x != g {
                    assert(cell(b, x) == cell(a, x));
                }
            }
            let s = choose|s: Rid| #[trigger] leads_to(a, s, x);
            assert(s != g);
            assert(cell(b, s) == cell(a, s));
            assert(leads_to(b, s, x));
        } else {
            let t = choose|t: Rid| #[trigger] moved_to(a, b, r, t, rec);
            lemma_stub_for(t);
            assert(cell(b, r) == Some(stub_for(t))) by {
                assert(t != r);
            }
            assert(leads_to(b, r, t));
            if x != t {
                assert(x != r);
                assert(cell(b, x) == if goes_with(a, r, x) {
                    None
                } else {
                    cell(a, x)
                });
                assert(is_moved(a, x));
                let s = choose|s: Rid| #[trigger] leads_to(a, s, x);
                assert(s != t);
                assert(s != r);
                assert(!goes_with(a, r, s));
                assert(cell(b, s) == cell(a, s));
                assert(leads_to(b, s, x));
            }
        }
    }
}

/// The file holds the pages, each with its checksum, and nothing else.
pub open spec fn holds(image: Seq<u8>, pages: Pages, count: PageId) -> bool {
    &&& image.len() == count * PAGE_SIZE
    &&& forall|p: PageId| #![trigger page_at(image, p)]
        p < count ==> checksum_ok(page_at(image, p)) && same_past_checksum(
            full(pages[p]),
            page_at(image, p),
        )
}

/// The records of a slot array: each live slot once.
proof fn lemma_pairs(ts: Seq<Option<Seq<u8>>>)
    requires
        ts.len() <= 0x10000,
    ensures
        forall|i: int|
            0 <= i < live_pairs(ts).len() ==> (#[trigger] live_pairs(ts)[i]).0 < ts.len()
                && ts[live_pairs(ts)[i].0 as int] == Some(live_pairs(ts)[i].1),
        forall|i: int, j: int|
            0 <= i < j < live_pairs(ts).len() ==> (#[trigger] live_pairs(ts)[i]).0 < (
            #[trigger] live_pairs(ts)[j]).0,
        forall|s: SlotId| #![trigger ts[s as int]]
            s < ts.len() && ts[s as int] is Some ==> live_pairs(ts).contains(
                (s, ts[s as int]->0),
            ),
    decreases ts.len(),
{
    if ts.len() > 0 {
        let init = ts.drop_last();
        lemma_pairs(init);
        let lp = live_pairs(init);
        let all = live_pairs(ts);
        let last = (ts.len() - 1) as u16;
        assert forall|s: SlotId| #![trigger ts[s as int]]
            s < ts.len() && ts[s as int] is Some implies all.contains((s, ts[s as int]->0)) by {
            let x = (s, ts[s as int]->0);
            if s == last {
                assert(all[lp.len() as int] == x);
            } else {
                assert(init[s as int] == ts[s as int]);
                assert(lp.contains(x));
                let k = lp.index_of(x);
                assert(all[k] == x);
            }
        }
        assert forall|i: int| 0 <= i < all.len() implies (#[trigger] all[i]).0 < ts.len()
            && ts[all[i].0 as int] == Some(all[i].1) by {
            if i < lp.len() {
                assert(all[i] == lp[i]);
                assert(init[lp[i].0 as int] == ts[lp[i].0 as int]);
            }
        }
        assert forall|i: int, j: int| 0 <= i < j < all.len() implies (#[trigger] all[i]).0 < (
        #[trigger] all[j]).0 by {
            assert(all[i] == lp[i]);
            if j < lp.len() {
                assert(all[j] == lp[j]);
            }
        }
    }
}

/// The records that a list names are stored at their addresses, each named once.
pub open spec fn names(pages: Pages, rs: Seq<(Rid, Seq<u8>)>, n: int) -> bool {
    &&& forall|i: int|
        0 <= i < rs.len() ==> (#[trigger] rs[i]).0.page < n && cell(pages, rs[i].0) == Some(
            rs[i].1,
        )
    &&& forall|i: int, j: int|
        0 <= i < j < rs.len() ==> (#[trigger] rs[i]).0 != (#[trigger] rs[j]).0
    &&& forall|r: Rid|
        r.page < n && (#[trigger] cell(pages, r)) is Some ==> rs.contains((r, cell(pages, r)->0))
}

/// A page as the file holds it.
proof fn lemma_page(image: Seq<u8>, pages: Pages, count: PageId, p: PageId)
    requires
        tidy(pages, count),
        current(pages),
        holds(image, pages, count),
        p < count,
    ensures
        checksum_ok(page_at(image, p)),
        is_heap_page(page_at(image, p)) == is_heap(pages, p),
        is_heap(pages, p) ==> trusted(page_at(image, p)) && tuples_of(page_at(image, p))
            == tuples_of(full(pages[p])),
{
    let b = full(pages[p]);
    let c = page_at(image, p);
    assert(checksum_ok(c) && same_past_checksum(b, c));
    assert(pages.dom().contains(p));
    assert(c[14] == b[14]);
    if is_heap(pages, p) {
        assert(page_wf(b));
        law_well_formed_pages_validate(b);
        lemma_same_past_checksum(b, c);
    }
}

proof fn lemma_recs(image: Seq<u8>, pages: Pages, count: PageId, n: int)
    requires
        tidy(pages, count),
        current(pages),
        holds(image, pages, count),
        0 <= n <= count,
    ensures
        names(pages, recs_to(image, n), n),
    decreases n,
{
    if n > 0 {
        let p = (n - 1) as PageId;
        let old_rs = recs_to(image, n - 1);
        let b = page_at(image, p);
        let more = page_recs(p, b);
        let rs = recs_to(image, n);
        lemma_recs(image, pages, count, n - 1);
        lemma_page(image, pages, count, p);
        let ts = tuples_of(b);
        let lp = live_pairs(ts);
        if is_heap(pages, p) {
            lemma_pairs(ts);
            assert(more =~= lp.map_values(
                |x: (SlotId, Seq<u8>)| (Rid { page: p, slot: x.0 }, x.1),
            ));
        } else {
            assert(more =~= Seq::empty());
        }
        assert forall|i: int| 0 <= i < rs.len() implies (#[trigger] rs[i]).0.page < n && cell(
            pages,
            rs[i].0,
        ) == Some(rs[i].1) by {
            if i < old_rs.len() {
                assert(rs[i] == old_rs[i]);
            } else {
                let x = lp[i - old_rs.len()];
                assert(rs[i] == more[i - old_rs.len()]);
            }
        }
        assert forall|i: int, j: int| 0 <= i < j < rs.len() implies (#[trigger] rs[i]).0 != (
        #[trigger] rs[j]).0 by {
            if j < old_rs.len() {
                assert(rs[i] == old_rs[i] && rs[j] == old_rs[j]);
            } else {
                let y = lp[j - old_rs.len()];
                assert(rs[j] == more[j - old_rs.len()]);
                if i < old_rs.len() {
                    assert(rs[i] == old_rs[i]);
                } else {
                    let x = lp[i - old_rs.len()];
                    assert(rs[i] == more[i - old_rs.len()]);
                    assert(x.0 < y.0);
                }
            }
        }
        assert forall|r: Rid| r.page < n && (#[trigger] cell(pages, r)) is Some implies rs.contains(
            (r, cell(pages, r)->0),
        ) by {
            let x = (r, cell(pages, r)->0);
            if r.page < n - 1 {
                assert(old_rs.contains(x));
                let k = old_rs.index_of(x);
                assert(rs[k] == x);
            } else {
                assert(is_heap(pages, p));
                assert(ts[r.slot as int] == cell(pages, r));
                assert(lp.contains((r.slot, x.1)));
                let k = lp.index_of((r.slot, x.1));
                assert(more[k] == x);
                assert(rs[old_rs.len() + k] == x);
            }
        }
    }
}

/// The stubs and the targets of a list of records.
proof fn lemma_kinds(rs: Seq<(Rid, Seq<u8>)>)
    ensures
        forall|i: int|
            0 <= i < stubs_of(rs).len() ==> exists|k: int|
                0 <= k < rs.len() && (#[trigger] rs[k]).0 == (#[trigger] stubs_of(rs)[i]).0
                    && record_kind(rs[k].1) == Ok::<RecordKind, u8>(
                    RecordKind::Forward(stubs_of(rs)[i].1),
                ),
        forall|k: int|
            0 <= k < rs.len() ==> match record_kind((#[trigger] rs[k]).1) {
                Ok(RecordKind::Forward(t)) => stubs_of(rs).contains((rs[k].0, t)),
                Ok(RecordKind::ForwardTarget) => targets_of(rs).contains(rs[k].0),
                _ => true,
            },
        forall|i: int|
            0 <= i < targets_of(rs).len() ==> exists|k: int|
                0 <= k < rs.len() && (#[trigger] rs[k]).0 == #[trigger] targets_of(rs)[i]
                    && record_kind(rs[k].1) == Ok::<RecordKind, u8>(RecordKind::ForwardTarget),
    decreases rs.len(),
{
    if rs.len() > 0 {
        let init = rs.drop_last();
        lemma_kinds(init);
        let ss = stubs_of(rs);
        let ts = targets_of(rs);
        let z = rs.last();
        assert forall|i: int| 0 <= i < ss.len() implies exists|k: int|
            0 <= k < rs.len() && (#[trigger] rs[k]).0 == (#[trigger] ss[i]).0 && record_kind(
                rs[k].1,
            ) == Ok::<RecordKind, u8>(RecordKind::Forward(ss[i].1)) by {
            if i < stubs_of(init).len() {
                let o = stubs_of(init);
                assert(ss[i] == o[i]);
                let k = choose|k: int|
                    0 <= k < init.len() && (#[trigger] init[k]).0 == o[i].0 && record_kind(
                        init[k].1,
                    ) == Ok::<RecordKind, u8>(RecordKind::Forward(o[i].1));
                assert(rs[k] == init[k]);
            } else {
                assert(rs[rs.len() - 1] == z);
            }
        }
        assert forall|i: int| 0 <= i < ts.len() implies exists|k: int|
            0 <= k < rs.len() && (#[trigger] rs[k]).0 == #[trigger] ts[i] && record_kind(rs[k].1)
                == Ok::<RecordKind, u8>(RecordKind::ForwardTarget) by {
            if i < targets_of(init).len() {
                let o = targets_of(init);
                assert(ts[i] == o[i]);
                let k = choose|k: int|
                    0 <= k < init.len() && (#[trigger] init[k]).0 == o[i] && record_kind(init[k].1)
                        == Ok::<RecordKind, u8>(RecordKind::ForwardTarget);
                assert(rs[k] == init[k]);
            } else {
                assert(rs[rs.len() - 1] == z);
            }
        }
        assert forall|k: int| 0 <= k < rs.len() implies match record_kind((#[trigger] rs[k]).1) {
            Ok(RecordKind::Forward(t)) => ss.contains((rs[k].0, t)),
            Ok(RecordKind::ForwardTarget) => ts.contains(rs[k].0),
            _ => true,
        } by {
            if k < init.len() {
                assert(init[k] == rs[k]);
                match record_kind(rs[k].1) {
                    Ok(RecordKind::Forward(t)) => {
                        let o = stubs_of(init);
                        let j = o.index_of((rs[k].0, t));
                        assert(ss[j] == o[j]);
                    },
                    Ok(RecordKind::ForwardTarget) => {
                        let o = targets_of(init);
                        let j = o.index_of(rs[k].0);
                        assert(ts[j] == o[j]);
                    },
                    _ => {},
                }
            } else {
                match record_kind(z.1) {
                    Ok(RecordKind::Forward(t)) => {
                        assert(ss[stubs_of(init).len() as int] == (z.0, t));
                    },
                    Ok(RecordKind::ForwardTarget) => {
                        assert(ts[targets_of(init).len() as int] == z.0);
                    },
                    _ => {},
                }
            }
        }
    }
}

/// The stubs of records with different addresses have different addresses.
proof fn lemma_stubs_distinct(rs: Seq<(Rid, Seq<u8>)>)
    requires
        forall|i: int, j: int|
            0 <= i < j < rs.len() ==> (#[trigger] rs[i]).0 != (#[trigger] rs[j]).0,
    ensures
        forall|i: int, j: int|
            0 <= i < j < stubs_of(rs).len() ==> (#[trigger] stubs_of(rs)[i]).0 != (
            #[trigger] stubs_of(rs)[j]).0,
    decreases rs.len(),
{
    if rs.len() > 0 {
        let init = rs.drop_last();
        let o = stubs_of(init);
        let ss = stubs_of(rs);
        assert forall|i: int, j: int| 0 <= i < j < init.len() implies (#[trigger] init[i]).0 != (
        #[trigger] init[j]).0 by {
            assert(init[i] == rs[i] && init[j] == rs[j]);
        }
        lemma_stubs_distinct(init);
        lemma_kinds(init);
        assert forall|i: int, j: int| 0 <= i < j < ss.len() implies (#[trigger] ss[i]).0 != (
        #[trigger] ss[j]).0 by {
            assert(ss[i] == o[i]);
            if j < o.len() {
                assert(ss[j] == o[j]);
            } else {
                let k = choose|k: int|
                    0 <= k < init.len() && (#[trigger] init[k]).0 == o[i].0 && record_kind(
                        init[k].1,
                    ) == Ok::<RecordKind, u8>(RecordKind::Forward(o[i].1));
                assert(rs[k] == init[k]);
                assert(rs[k].0 != rs[rs.len() - 1].0);
            }
        }
    }
}

/// As many stubs point at `t` as there are among the list: none, or the one at `k`.
proof fn lemma_refs(stubs: Seq<(Rid, Rid)>, t: Rid, k: int)
    requires
        forall|i: int| 0 <= i < stubs.len() && i != k ==> (#[trigger] stubs[i]).1 != t,
        0 <= k < stubs.len() ==> stubs[k].1 == t,
    ensures
        refs_of(stubs, t).len() == if 0 <= k < stubs.len() {
            1nat
        } else {
            0nat
        },
    decreases stubs.len(),
{
    if stubs.len() > 0 {
        let init = stubs.drop_last();
        assert forall|i: int| 0 <= i < init.len() && i != k implies (#[trigger] init[i]).1 != t by {
            assert(init[i] == stubs[i]);
        }
        if k < init.len() && 0 <= k {
            assert(init[k] == stubs[k]);
        }
        lemma_refs(init, t, k);
        assert(stubs[stubs.len() - 1] == stubs.last());
    }
}

/// A check of a file of clean heap pages, each with its checksum, finds nothing.
pub proof fn law_clean_heaps_check_clean(image: Seq<u8>, pages: Pages, count: PageId)
    requires
        tidy(pages, count),
        clean(pages),
        holds(image, pages, count),
    ensures
        sound_file(image),
        faults_of(image).len() == 0,
{
    let n = whole_pages(image) as int;
    assert(n == count) by {
        let len = image.len() as int;
        assert(len / (PAGE_SIZE as int) == count && len % (PAGE_SIZE as int) == 0)
            by (nonlinear_arith)
            requires
                len == count * PAGE_SIZE,
                PAGE_SIZE == 8192,
        ;
    }
    let rs = recs_to(image, n);
    let stubs = stubs_of(rs);
    let targets = targets_of(rs);
    lemma_recs(image, pages, count, n);
    lemma_kinds(rs);
    lemma_stubs_distinct(rs);
    assert forall|p: PageId| #![trigger page_at(image, p)] p < n implies checksum_ok(
        page_at(image, p),
    ) && (is_heap_page(page_at(image, p)) ==> structure_ok(page_at(image, p))) by {
        lemma_page(image, pages, count, p);
    }
    assert forall|i: int| 0 <= i < rs.len() implies record_kind((#[trigger] rs[i]).1) is Ok by {
        assert(cell(pages, rs[i].0) == Some(rs[i].1));
        if rs[i].1[0] == 1 {
            assert(is_stub(pages, rs[i].0));
        }
    }
    assert forall|i: int| 0 <= i < stubs.len() implies leads_to(
        pages,
        (#[trigger] stubs[i]).0,
        stubs[i].1,
    ) by {
        let k = choose|k: int|
            0 <= k < rs.len() && (#[trigger] rs[k]).0 == stubs[i].0 && record_kind(rs[k].1)
                == Ok::<RecordKind, u8>(RecordKind::Forward(stubs[i].1));
        assert(cell(pages, rs[k].0) == Some(rs[k].1));
    }
    assert forall|i: int| 0 <= i < stubs.len() implies targets.contains((#[trigger] stubs[i]).1) by {
        let t = stubs[i].1;
        assert(leads_to(pages, stubs[i].0, t));
        assert(is_moved(pages, t));
        assert(pages.dom().contains(t.page));
        assert(t.page < n);
        let x = (t, cell(pages, t)->0);
        assert(rs.contains(x));
        let k = rs.index_of(x);
        assert(record_kind(rs[k].1) == Ok::<RecordKind, u8>(RecordKind::ForwardTarget));
    }
    assert forall|i: int| 0 <= i < targets.len() implies refs_of(
        stubs,
        #[trigger] targets[i],
    ).len() == 1 by {
        let t = targets[i];
        let k = choose|k: int|
            0 <= k < rs.len() && (#[trigger] rs[k]).0 == t && record_kind(rs[k].1) == Ok::<
                RecordKind,
                u8,
            >(RecordKind::ForwardTarget);
        assert(cell(pages, rs[k].0) == Some(rs[k].1));
        assert(is_moved(pages, t));
        let s = choose|s: Rid| #[trigger] leads_to(pages, s, t);
        assert(pages.dom().contains(s.page));
        let x = (s, cell(pages, s)->0);
        assert(rs.contains(x));
        let m = rs.index_of(x);
        assert(rs[m].1[0] == 1);
        assert(record_kind(rs[m].1) == Ok::<RecordKind, u8>(RecordKind::Forward(t)));
        assert(stubs.contains((s, t)));
        let j = stubs.index_of((s, t));
        assert forall|q: int| 0 <= q < stubs.len() && q != j implies (#[trigger] stubs[q]).1
            != t by {
            if stubs[q].1 == t {
                assert(leads_to(pages, stubs[q].0, t));
                assert(share_target(pages, stubs[q].0, s));
                assert(stubs[q].0 == stubs[j].0);
            }
        }
        lemma_refs(stubs, t, j);
    }
    law_clean_check_iff_sound(image);
}

} // verus!
