//! Trees that always find room: those whose keys are short.

use vstd::prelude::*;

use crate::btree::grow::{
    fitting, grow, law_short_keys_always_fit, lemma_grow_ordered, lemma_ordered_shape,
    lemma_shrink_ordered, lemma_sum_insert, short, short_entries, shrink, SHORT_KEY,
};
use crate::btree::node::{child_of, entry_sizes, key_sizes, leaf_len, lemma_rank, rank, sum_to, Entry};
use crate::btree::tree::{cut, height, level, ordered, present, tree_ok, Tree};
use crate::btree::{grown_count, grown_tree, insertable, law_insert_sets_the_key, lemma_fitting};
use crate::buffer::PageId;
use crate::heap::{Pages, Rid};
use crate::page::PAGE_SIZE;

verus! {

/// A tree in order, of short keys, whose nodes fit their pages.
pub open spec fn roomy(t: Tree) -> bool {
    &&& ordered(t, None, None)
    &&& level(t, height(t))
    &&& fitting(t)
    &&& short(t)
}

/// A tree of short keys on pages is one.
pub proof fn law_stored_short_trees_are_roomy(pages: Pages, t: Tree)
    requires
        tree_ok(pages, t),
        forall|p: PageId| #[trigger]
            pages.dom().contains(p) ==> pages[p].len() == PAGE_SIZE - 4,
        short(t),
    ensures
        roomy(t),
{
    lemma_fitting(pages, t);
}

/// The levels tell the height.
proof fn lemma_height_of(t: Tree, h: int)
    requires
        level(t, h),
    ensures
        height(t) == h,
    decreases t,
{
    match t {
        Tree::Leaf { .. } => {},
        Tree::Node { pid, ks, kids } => {
            lemma_height_of(kids[0], h - 1);
        },
    }
}

/// Such a tree takes any short key, becomes at most one level higher, and is such a tree
/// again.
pub proof fn law_roomy_trees_take_short_keys(t: Tree, key: Seq<u8>, rid: Rid, fresh: int)
    requires
        roomy(t),
        key.len() <= SHORT_KEY,
    ensures
        insertable(t, key, rid, fresh),
        roomy(grown_tree(t, key, rid, fresh)),
        0 <= height(t) <= height(grown_tree(t, key, rid, fresh)) <= height(t) + 1,
{
    lemma_ordered_shape(t, None, None);
    law_short_keys_always_fit(t, key, rid, fresh);
    law_insert_sets_the_key(t, key, rid, fresh);
    let g = grow(t, key, rid, fresh);
    let u = grown_tree(t, key, rid, fresh);
    if g.up is Some {
        let ks = seq![(g.up->0).0];
        assert(sum_to(key_sizes(ks), 1) == sum_to(key_sizes(ks), 0) + key_sizes(ks)[0]);
        assert(u is Node && u->ks =~= ks);
        lemma_height_of(u, height(t) + 1);
    } else {
        lemma_height_of(u, height(t));
    }
    lemma_height_floor(t);
}

/// An insertion takes at most one page for each level, one more, and one for a new root.
pub proof fn lemma_pages_taken(t: Tree, key: Seq<u8>, rid: Rid, fresh: int)
    requires
        roomy(t),
        key.len() <= SHORT_KEY,
    ensures
        fresh <= grown_count(t, key, rid, fresh) <= fresh + height(t) + 2,
{
    law_roomy_trees_take_short_keys(t, key, rid, fresh);
    lemma_grow_ordered(t, key, rid, fresh, None, None, height(t));
}

proof fn lemma_height_floor(t: Tree)
    ensures
        height(t) >= 0,
    decreases t,
{
    match t {
        Tree::Leaf { .. } => {},
        Tree::Node { pid, ks, kids } => {
            if kids.len() > 0 {
                lemma_height_floor(kids[0]);
            }
        },
    }
}

/// A shorter list of entries takes less room.
proof fn lemma_cut_fits(es: Seq<Entry>, key: Seq<u8>)
    ensures
        leaf_len(cut(es, key)) <= leaf_len(es),
        short_entries(es) ==> short_entries(cut(es, key)),
{
    let r = rank(es, key);
    lemma_rank(es, key);
    if present(es, key) {
        let ps = es.remove(r);
        let sizes = entry_sizes(ps);
        assert(entry_sizes(es) =~= sizes.insert(r, 8 + es[r].0.len() as int));
        lemma_sum_insert(sizes, r, 8 + es[r].0.len() as int);
    }
}

proof fn lemma_shrink_fits(t: Tree, key: Seq<u8>)
    requires
        fitting(t),
        short(t),
    ensures
        fitting(shrink(t, key)),
        short(shrink(t, key)),
    decreases t,
{
    match t {
        Tree::Leaf { pid, es } => {
            lemma_cut_fits(es, key);
        },
        Tree::Node { pid, ks, kids } => {
            let i = child_of(ks, key);
            if 0 <= i < kids.len() {
                assert(fitting(kids[i]) && short(kids[i]));
                lemma_shrink_fits(kids[i], key);
                let now = kids.update(i, shrink(kids[i], key));
                assert forall|j: int| 0 <= j < now.len() implies fitting(#[trigger] now[j]) && short(
                    now[j],
                ) by {
                    assert(fitting(kids[j]) && short(kids[j]));
                }
            }
        },
    }
}

/// Deleting a key keeps such a tree one, at the same height.
pub proof fn law_roomy_trees_lose_keys(t: Tree, key: Seq<u8>)
    requires
        roomy(t),
    ensures
        roomy(shrink(t, key)),
        height(shrink(t, key)) == height(t),
{
    lemma_shrink_ordered(t, key, None, None, height(t));
    lemma_shrink_fits(t, key);
    lemma_height_of(shrink(t, key), height(t));
}

} // verus!
