//! How a tree changes by an insertion or a deletion.

use vstd::prelude::*;

use crate::btree::node::{
    child_of, entry_sizes, half_from, internal_len, key_sizes, leaf_len, lemma_child_of, lemma_rank,
    lemma_sum_agrees, lemma_sum_grows, lemma_sum_split, rank, split_point, sum_to, within, Entry,
};
use crate::btree::tree::{
    after_child, apart, before_child, concat, cut, disjoint, flat, high_of, leaf_ids, leaves,
    leaves_to, lemma_child_decides, lemma_concat_add, lemma_cut, lemma_le_lt, lemma_leaves_agree,
    lemma_leaves_around, lemma_leaves_split, lemma_middle, lemma_one_leaf, lemma_put, level, low_of,
    ordered, owns, present, put, LeafOf, Tree,
};
use crate::buffer::PageId;
use crate::bytes::{lemma_lex_total, lemma_lex_transitive, lex_lt};
use crate::heap::Rid;
use crate::page::raw::BODY_CAPACITY;

verus! {

/// What an insertion makes of a subtree: the tree that takes its place, the
/// separator and the tree to its right where it was split, and the next page number.
pub struct Grown {
    pub tree: Tree,
    pub up: Option<(Seq<u8>, Tree)>,
    pub fresh: int,
}

/// An inner node, split where it is too large.
pub open spec fn split_node(pid: PageId, ks: Seq<Seq<u8>>, kids: Seq<Tree>, fresh: int) -> Grown {
    if internal_len(ks) <= BODY_CAPACITY {
        Grown { tree: Tree::Node { pid, ks, kids }, up: None, fresh }
    } else {
        let s = split_point(key_sizes(ks));
        Grown {
            tree: Tree::Node { pid, ks: ks.take(s), kids: kids.take(s + 1) },
            up: Some(
                (
                    ks[s],
                    Tree::Node { pid: fresh as u32, ks: ks.skip(s + 1), kids: kids.skip(s + 1) },
                ),
            ),
            fresh: fresh + 1,
        }
    }
}

/// A leaf, split where it is too large.
pub open spec fn split_leaf(pid: PageId, es: Seq<Entry>, fresh: int) -> Grown {
    if leaf_len(es) <= BODY_CAPACITY {
        Grown { tree: Tree::Leaf { pid, es }, up: None, fresh }
    } else {
        let s = split_point(entry_sizes(es));
        Grown {
            tree: Tree::Leaf { pid, es: es.take(s) },
            up: Some((es[s].0, Tree::Leaf { pid: fresh as u32, es: es.skip(s) })),
            fresh: fresh + 1,
        }
    }
}

/// The separators and children of a node whose child `i` has grown.
pub open spec fn grown_keys(ks: Seq<Seq<u8>>, i: int, g: Grown) -> Seq<Seq<u8>> {
    match g.up {
        None => ks,
        Some((sep, _)) => ks.insert(i, sep),
    }
}

pub open spec fn grown_kids(kids: Seq<Tree>, i: int, g: Grown) -> Seq<Tree> {
    match g.up {
        None => kids.update(i, g.tree),
        Some((_, right)) => kids.update(i, g.tree).insert(i + 1, right),
    }
}

/// The subtree after `key` is set to `rid`, new pages being numbered from `fresh`.
pub open spec fn grow(t: Tree, key: Seq<u8>, rid: Rid, fresh: int) -> Grown
    decreases t,
{
    match t {
        Tree::Leaf { pid, es } => if present(es, key) {
            Grown { tree: Tree::Leaf { pid, es: put(es, key, rid) }, up: None, fresh }
        } else {
            split_leaf(pid, put(es, key, rid), fresh)
        },
        Tree::Node { pid, ks, kids } => {
            let i = child_of(ks, key);
            if 0 <= i < kids.len() {
                let g = grow(kids[i], key, rid, fresh);
                match g.up {
                    None => Grown {
                        tree: Tree::Node { pid, ks, kids: grown_kids(kids, i, g) },
                        up: None,
                        fresh: g.fresh,
                    },
                    Some(_) => split_node(pid, grown_keys(ks, i, g), grown_kids(kids, i, g), g.fresh),
                }
            } else {
                Grown { tree: t, up: None, fresh }
            }
        },
    }
}

/// Entries fit a leaf, or both halves do.
pub open spec fn leaf_splits(es: Seq<Entry>) -> bool {
    let s = split_point(entry_sizes(es));
    leaf_len(es) <= BODY_CAPACITY || es.len() >= 2 && leaf_len(es.take(s)) <= BODY_CAPACITY
        && leaf_len(es.skip(s)) <= BODY_CAPACITY
}

/// Separators fit an inner node, or both halves do.
pub open spec fn node_splits(ks: Seq<Seq<u8>>) -> bool {
    let s = split_point(key_sizes(ks));
    internal_len(ks) <= BODY_CAPACITY || ks.len() >= 2 && internal_len(ks.take(s)) <= BODY_CAPACITY
        && internal_len(ks.skip(s + 1)) <= BODY_CAPACITY
}

/// Every node that an insertion writes below and at the top of `t` fits its page.
pub open spec fn grow_fits(t: Tree, key: Seq<u8>, rid: Rid, fresh: int) -> bool
    decreases t,
{
    match t {
        Tree::Leaf { pid, es } => present(es, key) || leaf_splits(put(es, key, rid)),
        Tree::Node { pid, ks, kids } => {
            let i = child_of(ks, key);
            0 <= i < kids.len() ==> {
                let g = grow(kids[i], key, rid, fresh);
                &&& grow_fits(kids[i], key, rid, fresh)
                &&& g.up is Some ==> node_splits(grown_keys(ks, i, g))
            }
        },
    }
}

/// The leaves that have taken the place of a subtree's.
pub open spec fn grown_leaves(g: Grown) -> Seq<LeafOf> {
    leaves(g.tree) + match g.up {
        None => Seq::empty(),
        Some((_, right)) => leaves(right),
    }
}

pub proof fn lemma_split_point(sizes: Seq<int>)
    requires
        sizes.len() >= 2,
    ensures
        1 <= split_point(sizes) <= sizes.len() - 1,
{
}

/// The leaves of a node that was split are those that it had.
proof fn lemma_split_node_leaves(pid: PageId, ks: Seq<Seq<u8>>, kids: Seq<Tree>, fresh: int)
    requires
        node_splits(ks),
        kids.len() == ks.len() + 1,
    ensures
        grown_leaves(split_node(pid, ks, kids, fresh)) == leaves_to(kids, kids.len() as int),
{
    let g = split_node(pid, ks, kids, fresh);
    if internal_len(ks) <= BODY_CAPACITY {
        assert(grown_leaves(g) =~= leaves(g.tree));
    } else {
        let s = split_point(key_sizes(ks));
        lemma_split_point(key_sizes(ks));
        lemma_leaves_split(kids, s + 1, kids.len() as int);
        lemma_leaves_agree(kids.take(s + 1), kids, s + 1);
    }
}

/// Only the leaves of the child that has grown change.
pub proof fn lemma_grow_leaves(t: Tree, key: Seq<u8>, rid: Rid, fresh: int)
    requires
        t is Node,
        t->kids.len() == t->ks.len() + 1,
        grow_fits(t, key, rid, fresh),
    ensures
        ({
            let i = child_of(t->ks, key);
            let kids = t->kids;
            let g = grow(kids[i], key, rid, fresh);
            grown_leaves(grow(t, key, rid, fresh)) == leaves_to(kids, i) + grown_leaves(g)
                + leaves_to(kids.skip(i + 1), kids.len() - i - 1)
        }),
{
    let ks = t->ks;
    let kids = t->kids;
    let i = child_of(ks, key);
    lemma_child_of(ks, key);
    let g = grow(kids[i], key, rid, fresh);
    let kids2 = grown_kids(kids, i, g);
    let rest = leaves_to(kids.skip(i + 1), kids.len() - i - 1);
    lemma_leaves_around(kids2, i);
    lemma_leaves_agree(kids2, kids, i);
    match g.up {
        None => {
            assert(kids2.skip(i + 1) =~= kids.skip(i + 1));
            assert(grown_leaves(g) =~= leaves(g.tree));
            assert(grown_leaves(grow(t, key, rid, fresh)) =~= leaves_to(
                kids2,
                kids2.len() as int,
            ));
        },
        Some((sep, right)) => {
            lemma_split_node_leaves(t->Node_pid, ks.insert(i, sep), kids2, g.fresh);
            let tail = kids2.skip(i + 1);
            lemma_leaves_around(tail, 0);
            assert(tail[0] == right);
            assert(tail.skip(1) =~= kids.skip(i + 1));
            assert(leaves_to(tail, 0) =~= Seq::<LeafOf>::empty());
            assert(leaves_to(kids2, kids2.len() as int) =~= leaves_to(kids, i) + leaves(g.tree) + (
            leaves(right) + rest));
        },
    }
    assert(grown_leaves(grow(t, key, rid, fresh)) =~= leaves_to(kids, i) + grown_leaves(g) + rest);
}

/// A grown subtree is ordered within the ends of the old one, on either side of the
/// separator where it was split.
pub open spec fn grown_ordered(g: Grown, low: Option<Seq<u8>>, high: Option<Seq<u8>>) -> bool {
    match g.up {
        None => ordered(g.tree, low, high),
        Some((sep, right)) => {
            &&& low matches Some(l) ==> lex_lt(l, sep)
            &&& high matches Some(h) ==> lex_lt(sep, h)
            &&& ordered(g.tree, low, Some(sep))
            &&& ordered(right, Some(sep), high)
        },
    }
}

/// Every leaf of a grown subtree lies `h` levels below its top.
pub open spec fn grown_level(g: Grown, h: int) -> bool {
    &&& level(g.tree, h)
    &&& g.up matches Some((_, right)) ==> level(right, h)
}

/// Narrower ends.
proof fn lemma_split_leaf_ordered(
    pid: PageId,
    es: Seq<Entry>,
    fresh: int,
    low: Option<Seq<u8>>,
    high: Option<Seq<u8>>,
)
    requires
        leaf_splits(es),
        ordered(Tree::Leaf { pid, es }, low, high),
    ensures
        grown_ordered(split_leaf(pid, es, fresh), low, high),
        grown_level(split_leaf(pid, es, fresh), 0),
        concat(grown_leaves(split_leaf(pid, es, fresh))) == es,
{
    let g = split_leaf(pid, es, fresh);
    if leaf_len(es) <= BODY_CAPACITY {
        lemma_one_leaf(pid, es);
        assert(grown_leaves(g) =~= seq![(pid, es)]);
    } else {
        let s = split_point(entry_sizes(es));
        lemma_split_point(entry_sizes(es));
        let a = es.take(s);
        let b = es.skip(s);
        let sep = es[s].0;
        assert forall|i: int, j: int| 0 <= i < j < a.len() implies lex_lt(
            (#[trigger] a[i]).0,
            (#[trigger] a[j]).0,
        ) by {
            assert(lex_lt(es[i].0, es[j].0));
        }
        assert forall|i: int, j: int| 0 <= i < j < b.len() implies lex_lt(
            (#[trigger] b[i]).0,
            (#[trigger] b[j]).0,
        ) by {
            assert(lex_lt(es[i + s].0, es[j + s].0));
        }
        assert forall|i: int| 0 <= i < a.len() implies within((#[trigger] a[i]).0, low, Some(sep)) by {
            assert(within(es[i].0, low, high));
            assert(lex_lt(es[i].0, es[s].0));
        }
        assert forall|i: int| 0 <= i < b.len() implies within((#[trigger] b[i]).0, Some(sep), high) by {
            assert(within(es[i + s].0, low, high));
            lemma_lex_total(sep, es[i + s].0);
            if i > 0 {
                assert(lex_lt(es[s].0, es[i + s].0));
            }
        }
        assert(within(es[s].0, low, high));
        if low is Some {
            assert(within(es[0].0, low, high));
            assert(lex_lt(es[0].0, es[s].0));
            lemma_le_lt(low->0, es[0].0, sep);
        }
        lemma_one_leaf(pid, a);
        lemma_one_leaf(fresh as u32, b);
        lemma_concat_add(seq![(pid, a)], seq![(fresh as u32, b)]);
        assert(a + b =~= es);
        assert(grown_leaves(g) =~= seq![(pid, a)] + seq![(fresh as u32, b)]);
    }
}

proof fn lemma_split_node_ordered(
    pid: PageId,
    ks: Seq<Seq<u8>>,
    kids: Seq<Tree>,
    fresh: int,
    low: Option<Seq<u8>>,
    high: Option<Seq<u8>>,
    h: int,
)
    requires
        node_splits(ks),
        ordered(Tree::Node { pid, ks, kids }, low, high),
        level(Tree::Node { pid, ks, kids }, h),
    ensures
        grown_ordered(split_node(pid, ks, kids, fresh), low, high),
        grown_level(split_node(pid, ks, kids, fresh), h),
{
    let g = split_node(pid, ks, kids, fresh);
    if internal_len(ks) > BODY_CAPACITY {
        let s = split_point(key_sizes(ks));
        lemma_split_point(key_sizes(ks));
        let sep = ks[s];
        let ka = ks.take(s);
        let kb = ks.skip(s + 1);
        let ca = kids.take(s + 1);
        let cb = kids.skip(s + 1);
        assert(within(sep, low, high));
        assert forall|i: int, j: int| 0 <= i < j < ka.len() implies lex_lt(
            #[trigger] ka[i],
            #[trigger] ka[j],
        ) by {
            assert(lex_lt(ks[i], ks[j]));
        }
        assert forall|i: int, j: int| 0 <= i < j < kb.len() implies lex_lt(
            #[trigger] kb[i],
            #[trigger] kb[j],
        ) by {
            assert(lex_lt(ks[i + s + 1], ks[j + s + 1]));
        }
        assert forall|i: int| 0 <= i < ka.len() implies within(#[trigger] ka[i], low, Some(sep)) by {
            assert(within(ks[i], low, high));
            assert(lex_lt(ks[i], ks[s]));
        }
        assert forall|i: int| 0 <= i < kb.len() implies within(#[trigger] kb[i], Some(sep), high) by {
            assert(within(ks[i + s + 1], low, high));
            assert(lex_lt(ks[s], ks[i + s + 1]));
            lemma_lex_total(sep, ks[i + s + 1]);
        }
        assert forall|i: int| 0 <= i < ca.len() implies ordered(
            #[trigger] ca[i],
            low_of(ka, i, low),
            high_of(ka, i, Some(sep)),
        ) by {
            assert(ordered(kids[i], low_of(ks, i, low), high_of(ks, i, high)));
            assert(ca[i] == kids[i]);
            assert(low_of(ka, i, low) == low_of(ks, i, low));
            assert(high_of(ka, i, Some(sep)) == high_of(ks, i, high));
        }
        assert forall|i: int| 0 <= i < cb.len() implies ordered(
            #[trigger] cb[i],
            low_of(kb, i, Some(sep)),
            high_of(kb, i, high),
        ) by {
            let j = i + s + 1;
            assert(ordered(kids[j], low_of(ks, j, low), high_of(ks, j, high)));
            assert(cb[i] == kids[j]);
            assert(low_of(kb, i, Some(sep)) == low_of(ks, j, low));
            assert(high_of(kb, i, high) == high_of(ks, j, high));
        }
        if low is Some {
            assert(within(ks[0], low, high));
            assert(lex_lt(ks[0], ks[s]));
            lemma_le_lt(low->0, ks[0], sep);
        }
        assert forall|i: int| 0 <= i < ca.len() implies level(#[trigger] ca[i], h - 1) by {
            assert(level(kids[i], h - 1));
        }
        assert forall|i: int| 0 <= i < cb.len() implies level(#[trigger] cb[i], h - 1) by {
            assert(level(kids[i + s + 1], h - 1));
        }
    }
}

/// A node whose child has grown within its ends is ordered.
proof fn lemma_grown_node_ordered(
    pid: PageId,
    ks: Seq<Seq<u8>>,
    kids: Seq<Tree>,
    i: int,
    g: Grown,
    low: Option<Seq<u8>>,
    high: Option<Seq<u8>>,
    h: int,
)
    requires
        ordered(Tree::Node { pid, ks, kids }, low, high),
        level(Tree::Node { pid, ks, kids }, h),
        0 <= i < kids.len(),
        grown_ordered(g, low_of(ks, i, low), high_of(ks, i, high)),
        grown_level(g, h - 1),
    ensures
        ordered(
            Tree::Node { pid, ks: grown_keys(ks, i, g), kids: grown_kids(kids, i, g) },
            low,
            high,
        ),
        level(Tree::Node { pid, ks: grown_keys(ks, i, g), kids: grown_kids(kids, i, g) }, h),
{
    let ks2 = grown_keys(ks, i, g);
    let kids2 = grown_kids(kids, i, g);
    match g.up {
        None => {
            assert forall|j: int| 0 <= j < kids2.len() implies ordered(
                #[trigger] kids2[j],
                low_of(ks2, j, low),
                high_of(ks2, j, high),
            ) && level(kids2[j], h - 1) by {
                assert(ordered(kids[j], low_of(ks, j, low), high_of(ks, j, high)));
                assert(level(kids[j], h - 1));
            }
        },
        Some((sep, right)) => {
            assert forall|x: int, y: int| 0 <= x < y < ks2.len() implies lex_lt(
                #[trigger] ks2[x],
                #[trigger] ks2[y],
            ) by {
                let x0 = if x < i {
                    x
                } else {
                    x - 1
                };
                let y0 = if y < i {
                    y
                } else {
                    y - 1
                };
                if x == i {
                    assert(ks2[y] == ks[y - 1]);
                    if y - 1 > i {
                        assert(lex_lt(ks[i], ks[y - 1]));
                        lemma_lex_transitive(sep, ks[i], ks[y - 1]);
                    }
                } else if y == i {
                    assert(ks2[x] == ks[x]);
                    if x < i - 1 {
                        assert(lex_lt(ks[x], ks[i - 1]));
                        lemma_lex_transitive(ks[x], ks[i - 1], sep);
                    }
                } else {
                    assert(ks2[x] == ks[x0] && ks2[y] == ks[y0]);
                    assert(lex_lt(ks[x0], ks[y0]));
                }
            }
            assert forall|x: int| 0 <= x < ks2.len() implies within(#[trigger] ks2[x], low, high) by {
                if x < i {
                    assert(within(ks[x], low, high));
                } else if x > i {
                    assert(within(ks[x - 1], low, high));
                } else {
                    if i > 0 {
                        assert(within(ks[i - 1], low, high));
                        if low is Some {
                            lemma_le_lt(low->0, ks[i - 1], sep);
                        }
                    }
                    if i < ks.len() {
                        assert(within(ks[i], low, high));
                        if high is Some {
                            lemma_lex_transitive(sep, ks[i], high->0);
                        }
                    }
                    if low is Some {
                        lemma_lex_total(low->0, sep);
                    }
                }
            }
            assert forall|j: int| 0 <= j < kids2.len() implies ordered(
                #[trigger] kids2[j],
                low_of(ks2, j, low),
                high_of(ks2, j, high),
            ) && level(kids2[j], h - 1) by {
                if j < i {
                    assert(ordered(kids[j], low_of(ks, j, low), high_of(ks, j, high)));
                    assert(level(kids[j], h - 1));
                    assert(kids2[j] == kids[j]);
                } else if j > i + 1 {
                    assert(ordered(kids[j - 1], low_of(ks, j - 1, low), high_of(ks, j - 1, high)));
                    assert(level(kids[j - 1], h - 1));
                    assert(kids2[j] == kids[j - 1]);
                }
            }
        },
    }
}

/// An insertion keeps the tree ordered and level, and puts the key.
pub proof fn lemma_grow_ordered(
    t: Tree,
    key: Seq<u8>,
    rid: Rid,
    fresh: int,
    low: Option<Seq<u8>>,
    high: Option<Seq<u8>>,
    h: int,
)
    requires
        ordered(t, low, high),
        level(t, h),
        within(key, low, high),
        grow_fits(t, key, rid, fresh),
    ensures
        grown_ordered(grow(t, key, rid, fresh), low, high),
        grown_level(grow(t, key, rid, fresh), h),
        concat(grown_leaves(grow(t, key, rid, fresh))) == put(flat(t), key, rid),
        fresh <= grow(t, key, rid, fresh).fresh <= fresh + h + 1,
        grow(t, key, rid, fresh).tree.pid() == t.pid(),
    decreases t,
{
    match t {
        Tree::Leaf { pid, es } => {
            lemma_one_leaf(pid, es);
            lemma_put(es, key, rid);
            let ps = put(es, key, rid);
            assert forall|i: int| 0 <= i < ps.len() implies within((#[trigger] ps[i]).0, low, high) by {
                if ps[i].0 != key {
                    let j = choose|j: int| 0 <= j < es.len() && #[trigger] es[j] == ps[i];
                    assert(within(es[j].0, low, high));
                }
            }
            if present(es, key) {
                lemma_one_leaf(pid, ps);
                assert(grown_leaves(grow(t, key, rid, fresh)) =~= seq![(pid, ps)]);
            } else {
                lemma_split_leaf_ordered(pid, ps, fresh, low, high);
            }
        },
        Tree::Node { pid, ks, kids } => {
            let i = child_of(ks, key);
            lemma_child_of(ks, key);
            lemma_child_decides(t, low, high, key);
            let g = grow(kids[i], key, rid, fresh);
            assert(ordered(kids[i], low_of(ks, i, low), high_of(ks, i, high)));
            assert(level(kids[i], h - 1));
            assert(within(key, low_of(ks, i, low), high_of(ks, i, high)));
            lemma_grow_ordered(
                kids[i],
                key,
                rid,
                fresh,
                low_of(ks, i, low),
                high_of(ks, i, high),
                h - 1,
            );
            lemma_grown_node_ordered(pid, ks, kids, i, g, low, high, h);
            if g.up is Some {
                lemma_split_node_ordered(
                    pid,
                    grown_keys(ks, i, g),
                    grown_kids(kids, i, g),
                    g.fresh,
                    low,
                    high,
                    h,
                );
            }
            lemma_grow_leaves(t, key, rid, fresh);
            let rest = leaves_to(kids.skip(i + 1), kids.len() - i - 1);
            lemma_concat_add(leaves_to(kids, i) + grown_leaves(g), rest);
            lemma_concat_add(leaves_to(kids, i), grown_leaves(g));
            lemma_middle(before_child(kids, i), flat(kids[i]), after_child(kids, i), key, rid);
        },
    }
}

/// The pages of a grown subtree are those of the old one and new ones.
pub open spec fn grown_apart(g: Grown, t: Tree, fresh: int) -> bool {
    &&& apart(g.tree)
    &&& forall|p: PageId| #[trigger] owns(g.tree, p) ==> owns(t, p) || fresh <= p < g.fresh
    &&& g.up matches Some((_, right)) ==> {
        &&& apart(right)
        &&& disjoint(g.tree, right)
        &&& forall|p: PageId| #[trigger] owns(right, p) ==> owns(t, p) || fresh <= p < g.fresh
    }
}

proof fn lemma_grown_node_apart(t: Tree, t2: Tree, i: int, g: Grown, fresh: int)
    requires
        t is Node,
        t2 is Node,
        t2.pid() == t.pid(),
        t2->kids == grown_kids(t->kids, i, g),
        apart(t),
        0 <= i < t->kids.len(),
        grown_apart(g, t->kids[i], fresh),
        forall|p: PageId| #[trigger] owns(t, p) ==> p < fresh,
    ensures
        apart(t2),
        forall|p: PageId| #[trigger] owns(t2, p) ==> owns(t, p) || fresh <= p < g.fresh,
{
    let pid = t.pid();
    let kids = t->kids;
    let kids2 = t2->kids;
    assert(owns(t, pid));
    assert(apart(t));
    // Where each of the new children comes from.
    assert forall|j: int| 0 <= j < kids2.len() implies apart(#[trigger] kids2[j]) && !owns(
        kids2[j],
        pid,
    ) && forall|p: PageId| #[trigger]
        owns(kids2[j], p) ==> owns(t, p) || fresh <= p < g.fresh by {
        let o = if j <= i || g.up is None {
            j
        } else {
            j - 1
        };
        assert(0 <= o < kids.len());
        assert(apart(kids[o]));
        assert(!owns(kids[o], pid));
        if o != i {
            assert(kids2[j] == kids[o]);
        }
        assert forall|p: PageId| #[trigger] owns(kids2[j], p) implies owns(t, p) || fresh <= p
            < g.fresh by {
            if owns(kids[o], p) {
                assert(owns(t, p));
            }
        }
    }
    assert forall|x: int, y: int| 0 <= x < y < kids2.len() implies disjoint(
        #[trigger] kids2[x],
        #[trigger] kids2[y],
    ) by {
        let ox = if x <= i || g.up is None {
            x
        } else {
            x - 1
        };
        let oy = if y <= i || g.up is None {
            y
        } else {
            y - 1
        };
        if ox != oy {
            assert(disjoint(kids[ox], kids[oy]));
            assert forall|p: PageId| !(#[trigger] owns(kids2[x], p) && #[trigger] owns(kids2[y], p)) by {
                if owns(kids2[x], p) && owns(kids2[y], p) {
                    if ox != i {
                        assert(kids2[x] == kids[ox]);
                        assert(owns(t, p));
                    }
                    if oy != i {
                        assert(kids2[y] == kids[oy]);
                        assert(owns(t, p));
                    }
                }
            }
        }
    }
    assert forall|p: PageId| #[trigger] owns(t2, p) implies owns(t, p) || fresh <= p < g.fresh by {
        if p != pid {
            let j = choose|j: int| 0 <= j < kids2.len() && owns(#[trigger] kids2[j], p);
            assert(owns(kids2[j], p));
        }
    }
}

proof fn lemma_split_node_apart(t: Tree, fresh: int)
    requires
        t is Node,
        node_splits(t->ks),
        t->kids.len() == t->ks.len() + 1,
        apart(t),
        forall|p: PageId| #[trigger] owns(t, p) ==> p < fresh,
        0 <= fresh < u32::MAX,
    ensures
        grown_apart(split_node(t.pid(), t->ks, t->kids, fresh), t, fresh),
{
    let pid = t.pid();
    let ks = t->ks;
    let kids = t->kids;
    let g = split_node(pid, ks, kids, fresh);
    if internal_len(ks) > BODY_CAPACITY {
        let s = split_point(key_sizes(ks));
        lemma_split_point(key_sizes(ks));
        let ca = kids.take(s + 1);
        let cb = kids.skip(s + 1);
        let right = (g.up->0).1;
        assert(owns(t, pid));
        assert forall|p: PageId| #[trigger] owns(g.tree, p) implies p == pid || exists|j: int|
            0 <= j < s + 1 && owns(#[trigger] kids[j], p) by {
            if p != pid {
                let j = choose|j: int| 0 <= j < ca.len() && owns(#[trigger] ca[j], p);
                assert(owns(kids[j], p));
            }
        }
        assert forall|p: PageId| #[trigger] owns(right, p) implies p == fresh || exists|j: int|
            s + 1 <= j < kids.len() && owns(#[trigger] kids[j], p) by {
            if p != fresh {
                let j = choose|j: int| 0 <= j < cb.len() && owns(#[trigger] cb[j], p);
                assert(owns(kids[j + s + 1], p));
            }
        }
        assert forall|p: PageId| #[trigger] owns(g.tree, p) implies owns(t, p) || fresh <= p
            < g.fresh by {
            if p != pid {
                let j = choose|j: int| 0 <= j < s + 1 && owns(#[trigger] kids[j], p);
                assert(owns(kids[j], p));
                assert(owns(t, p));
            }
        }
        assert forall|p: PageId| #[trigger] owns(right, p) implies owns(t, p) || fresh <= p
            < g.fresh by {
            if p != fresh {
                let j = choose|j: int| s + 1 <= j < kids.len() && owns(#[trigger] kids[j], p);
                assert(owns(kids[j], p));
                assert(owns(t, p));
            }
        }
        assert forall|p: PageId| !(#[trigger] owns(g.tree, p) && #[trigger] owns(right, p)) by {
            if owns(g.tree, p) && owns(right, p) {
                assert(owns(t, p));
                let j = choose|j: int| s + 1 <= j < kids.len() && owns(#[trigger] kids[j], p);
                assert(owns(kids[j], p));
                if p != pid {
                    let i = choose|i: int| 0 <= i < s + 1 && owns(#[trigger] kids[i], p);
                    assert(disjoint(kids[i], kids[j]));
                }
            }
        }
        assert(apart(g.tree)) by {
            assert forall|i: int| 0 <= i < ca.len() implies !owns(#[trigger] ca[i], pid) && apart(
                ca[i],
            ) by {
                assert(!owns(kids[i], pid));
                assert(apart(kids[i]));
            }
            assert forall|i: int, j: int| 0 <= i < j < ca.len() implies disjoint(
                #[trigger] ca[i],
                #[trigger] ca[j],
            ) by {
                assert(disjoint(kids[i], kids[j]));
            }
        }
        assert(apart(right)) by {
            assert forall|i: int| 0 <= i < cb.len() implies !owns(#[trigger] cb[i], fresh as u32)
                && apart(cb[i]) by {
                assert(apart(kids[i + s + 1]));
                if owns(kids[i + s + 1], fresh as u32) {
                    assert(owns(t, fresh as u32));
                }
            }
            assert forall|i: int, j: int| 0 <= i < j < cb.len() implies disjoint(
                #[trigger] cb[i],
                #[trigger] cb[j],
            ) by {
                assert(disjoint(kids[i + s + 1], kids[j + s + 1]));
            }
        }
    }
}

/// An insertion uses no page twice.
pub proof fn lemma_grow_apart(t: Tree, key: Seq<u8>, rid: Rid, fresh: int, h: int)
    requires
        apart(t),
        level(t, h),
        ordered_shape(t),
        grow_fits(t, key, rid, fresh),
        forall|p: PageId| #[trigger] owns(t, p) ==> p < fresh,
        0 <= fresh,
        fresh + h + 1 <= u32::MAX,
    ensures
        grown_apart(grow(t, key, rid, fresh), t, fresh),
        fresh <= grow(t, key, rid, fresh).fresh <= fresh + h + 1,
    decreases t,
{
    match t {
        Tree::Leaf { pid, es } => {
            assert(owns(t, pid));
        },
        Tree::Node { pid, ks, kids } => {
            let i = child_of(ks, key);
            lemma_child_of(ks, key);
            let g = grow(kids[i], key, rid, fresh);
            assert(apart(kids[i]));
            assert(level(kids[i], h - 1));
            assert(ordered_shape(kids[i]));
            assert forall|p: PageId| #[trigger] owns(kids[i], p) implies p < fresh by {
                assert(owns(t, p));
            }
            lemma_grow_apart(kids[i], key, rid, fresh, h - 1);
            let ks2 = grown_keys(ks, i, g);
            let kids2 = grown_kids(kids, i, g);
            let mid = Tree::Node { pid, ks: ks2, kids: kids2 };
            lemma_grown_node_apart(t, mid, i, g, fresh);
            if g.up is Some {
                assert forall|p: PageId| #[trigger] owns(mid, p) implies p < g.fresh by {}
                lemma_split_node_apart(mid, g.fresh);
                let out = split_node(pid, ks2, kids2, g.fresh);
                assert forall|p: PageId| #[trigger] owns(out.tree, p) implies owns(t, p) || fresh
                    <= p < out.fresh by {
                    if owns(mid, p) {
                    }
                }
                if out.up is Some {
                    let right = (out.up->0).1;
                    assert forall|p: PageId| #[trigger] owns(right, p) implies owns(t, p) || fresh
                        <= p < out.fresh by {
                        if owns(mid, p) {
                        }
                    }
                }
            }
        },
    }
}

/// The page is one of those that a grown subtree is on.
pub open spec fn grown_owns(g: Grown, p: PageId) -> bool {
    owns(g.tree, p) || match g.up {
        Some((_, right)) => owns(right, p),
        None => false,
    }
}

/// A page of one of the children is a page of the node.
pub proof fn lemma_child_owns(t: Tree, j: int, p: PageId)
    requires
        t is Node,
        0 <= j < t->kids.len(),
        owns(t->kids[j], p),
    ensures
        owns(t, p),
{
}

/// Splitting a node keeps its pages and takes one more.
proof fn lemma_split_node_owns(mid: Tree, fresh: int, p: PageId)
    requires
        mid is Node,
        mid->kids.len() == mid->ks.len() + 1,
        node_splits(mid->ks),
        0 <= fresh <= u32::MAX,
        owns(mid, p) || fresh <= p < split_node(mid.pid(), mid->ks, mid->kids, fresh).fresh,
    ensures
        grown_owns(split_node(mid.pid(), mid->ks, mid->kids, fresh), p),
{
    let ks = mid->ks;
    let kids = mid->kids;
    let out = split_node(mid.pid(), ks, kids, fresh);
    if internal_len(ks) <= BODY_CAPACITY {
        assert(out.tree == mid);
    } else {
        let s = split_point(key_sizes(ks));
        let right = (out.up->0).1;
        lemma_split_point(key_sizes(ks));
        if owns(mid, p) && p != mid.pid() {
            let j = choose|j: int| 0 <= j < kids.len() && owns(#[trigger] kids[j], p);
            if j <= s {
                assert(out.tree->kids[j] == kids[j]);
                lemma_child_owns(out.tree, j, p);
            } else {
                assert(right->kids[j - s - 1] == kids[j]);
                lemma_child_owns(right, j - s - 1, p);
            }
        }
    }
}

/// An insertion keeps every page of the tree and uses every page that it takes.
pub proof fn lemma_grow_owns(t: Tree, key: Seq<u8>, rid: Rid, fresh: int, h: int, p: PageId)
    requires
        level(t, h),
        ordered_shape(t),
        grow_fits(t, key, rid, fresh),
        0 <= fresh,
        fresh + h + 1 <= u32::MAX,
        owns(t, p) || fresh <= p < grow(t, key, rid, fresh).fresh,
    ensures
        grown_owns(grow(t, key, rid, fresh), p),
        fresh <= grow(t, key, rid, fresh).fresh <= fresh + h + 1,
    decreases t,
{
    match t {
        Tree::Leaf { pid, es } => {},
        Tree::Node { pid, ks, kids } => {
            let i = child_of(ks, key);
            lemma_child_of(ks, key);
            let g = grow(kids[i], key, rid, fresh);
            assert(level(kids[i], h - 1));
            assert(ordered_shape(kids[i]));
            lemma_grow_owns(kids[i], key, rid, fresh, h - 1, kids[i].pid());
            let ks2 = grown_keys(ks, i, g);
            let kids2 = grown_kids(kids, i, g);
            let mid = Tree::Node { pid, ks: ks2, kids: kids2 };
            if p != pid && (owns(t, p) || fresh <= p < g.fresh) {
                if owns(t, p) {
                    let j = choose|j: int| 0 <= j < kids.len() && owns(#[trigger] kids[j], p);
                    if j < i {
                        assert(kids2[j] == kids[j]);
                        lemma_child_owns(mid, j, p);
                    } else if j > i {
                        let x = if g.up is Some {
                            j + 1
                        } else {
                            j
                        };
                        assert(kids2[x] == kids[j]);
                        lemma_child_owns(mid, x, p);
                    } else {
                        lemma_grow_owns(kids[i], key, rid, fresh, h - 1, p);
                    }
                } else {
                    lemma_grow_owns(kids[i], key, rid, fresh, h - 1, p);
                }
                if grown_owns(g, p) {
                    assert(kids2[i] == g.tree);
                    if owns(g.tree, p) {
                        lemma_child_owns(mid, i, p);
                    } else {
                        assert(kids2[i + 1] == (g.up->0).1);
                        lemma_child_owns(mid, i + 1, p);
                    }
                }
                assert(owns(mid, p));
            }
            if g.up is Some {
                lemma_split_node_owns(mid, g.fresh, p);
            }
        },
    }
}

/// Every inner node has one child more than it has separators.
pub open spec fn ordered_shape(t: Tree) -> bool
    decreases t,
{
    match t {
        Tree::Leaf { pid, es } => true,
        Tree::Node { pid, ks, kids } => {
            &&& kids.len() == ks.len() + 1
            &&& forall|i: int| 0 <= i < kids.len() ==> ordered_shape(#[trigger] kids[i])
        },
    }
}

pub proof fn lemma_ordered_shape(t: Tree, low: Option<Seq<u8>>, high: Option<Seq<u8>>)
    requires
        ordered(t, low, high),
    ensures
        ordered_shape(t),
    decreases t,
{
    match t {
        Tree::Leaf { pid, es } => {},
        Tree::Node { pid, ks, kids } => {
            assert forall|i: int| 0 <= i < kids.len() implies ordered_shape(#[trigger] kids[i]) by {
                lemma_ordered_shape(kids[i], low_of(ks, i, low), high_of(ks, i, high));
            }
        },
    }
}

// ---- deletion ----

/// The subtree without `key`.
pub open spec fn shrink(t: Tree, key: Seq<u8>) -> Tree
    decreases t,
{
    match t {
        Tree::Leaf { pid, es } => Tree::Leaf { pid, es: cut(es, key) },
        Tree::Node { pid, ks, kids } => {
            let i = child_of(ks, key);
            if 0 <= i < kids.len() {
                Tree::Node { pid, ks, kids: kids.update(i, shrink(kids[i], key)) }
            } else {
                t
            }
        },
    }
}

/// A deletion keeps the tree ordered and level, and cuts the key.
pub proof fn lemma_shrink_ordered(
    t: Tree,
    key: Seq<u8>,
    low: Option<Seq<u8>>,
    high: Option<Seq<u8>>,
    h: int,
)
    requires
        ordered(t, low, high),
        level(t, h),
    ensures
        ordered(shrink(t, key), low, high),
        level(shrink(t, key), h),
        flat(shrink(t, key)) == cut(flat(t), key),
        leaf_ids(shrink(t, key)) == leaf_ids(t),
        shrink(t, key).pid() == t.pid(),
    decreases t,
{
    match t {
        Tree::Leaf { pid, es } => {
            lemma_one_leaf(pid, es);
            lemma_cut(es, key);
            let ps = cut(es, key);
            lemma_one_leaf(pid, ps);
            assert forall|i: int| 0 <= i < ps.len() implies within((#[trigger] ps[i]).0, low, high) by {
                let j = choose|j: int| 0 <= j < es.len() && #[trigger] es[j] == ps[i];
                assert(within(es[j].0, low, high));
            }
            assert(leaf_ids(shrink(t, key)) =~= leaf_ids(t));
        },
        Tree::Node { pid, ks, kids } => {
            let i = child_of(ks, key);
            lemma_child_of(ks, key);
            lemma_child_decides(t, low, high, key);
            let k = shrink(kids[i], key);
            let kids2 = kids.update(i, k);
            let t2 = shrink(t, key);
            assert(ordered(kids[i], low_of(ks, i, low), high_of(ks, i, high)));
            assert(level(kids[i], h - 1));
            lemma_shrink_ordered(kids[i], key, low_of(ks, i, low), high_of(ks, i, high), h - 1);
            assert forall|j: int| 0 <= j < kids2.len() implies ordered(
                #[trigger] kids2[j],
                low_of(ks, j, low),
                high_of(ks, j, high),
            ) && level(kids2[j], h - 1) by {
                assert(ordered(kids[j], low_of(ks, j, low), high_of(ks, j, high)));
                assert(level(kids[j], h - 1));
            }
            assert(t2 == Tree::Node { pid, ks, kids: kids2 });
            lemma_leaves_around(kids, i);
            lemma_leaves_around(kids2, i);
            lemma_leaves_agree(kids2, kids, i);
            assert(kids2.skip(i + 1) =~= kids.skip(i + 1));
            let rest = leaves_to(kids.skip(i + 1), kids.len() - i - 1);
            lemma_concat_add(leaves_to(kids, i) + leaves(k), rest);
            lemma_concat_add(leaves_to(kids, i), leaves(k));
            lemma_middle(
                before_child(kids, i),
                flat(kids[i]),
                after_child(kids, i),
                key,
                Rid { page: 0, slot: 0 },
            );
            assert(leaves(k).len() == leaves(kids[i]).len()) by {
                assert(leaf_ids(k).len() == leaf_ids(kids[i]).len());
            }
            assert forall|x: int| 0 <= x < leaf_ids(t).len() implies leaf_ids(t2)[x] == leaf_ids(
                t,
            )[x] by {
                let at = leaves_to(kids, i).len();
                if at <= x < at + leaves(k).len() {
                    assert(leaf_ids(k)[x - at] == leaf_ids(kids[i])[x - at]);
                }
            }
            assert(leaf_ids(t2) =~= leaf_ids(t));
        },
    }
}

/// A deletion leaves every node on its page.
pub proof fn lemma_shrink_apart(t: Tree, key: Seq<u8>)
    requires
        apart(t),
    ensures
        apart(shrink(t, key)),
        forall|p: PageId| #[trigger] owns(shrink(t, key), p) == owns(t, p),
    decreases t,
{
    match t {
        Tree::Leaf { pid, es } => {},
        Tree::Node { pid, ks, kids } => {
            let i = child_of(ks, key);
            if 0 <= i < kids.len() {
                let k = shrink(kids[i], key);
                let kids2 = kids.update(i, k);
                let t2 = shrink(t, key);
                assert(t2 is Node && t2->kids == kids2 && t2.pid() == pid);
                assert(apart(kids[i]));
                lemma_shrink_apart(kids[i], key);
                assert forall|j: int, p: PageId| 0 <= j < kids.len() implies #[trigger] owns(
                    kids2[j],
                    p,
                ) == owns(kids[j], p) by {}
                assert forall|p: PageId| #[trigger] owns(t2, p) == owns(t, p) by {
                    if owns(t2, p) && p != pid {
                        let j = choose|j: int| 0 <= j < kids2.len() && owns(#[trigger] kids2[j], p);
                        assert(owns(kids2[j], p) == owns(kids[j], p));
                        assert(owns(t, p));
                    }
                    if owns(t, p) && p != pid {
                        let j = choose|j: int| 0 <= j < kids.len() && owns(#[trigger] kids[j], p);
                        assert(owns(kids2[j], p) == owns(kids[j], p));
                        assert(owns(t2, p));
                    }
                }
                assert forall|j: int| 0 <= j < kids2.len() implies apart(#[trigger] kids2[j]) && !owns(
                    kids2[j],
                    pid,
                ) by {
                    assert(apart(kids[j]));
                    assert(!owns(kids[j], pid));
                }
                assert forall|x: int, y: int| 0 <= x < y < kids2.len() implies disjoint(
                    #[trigger] kids2[x],
                    #[trigger] kids2[y],
                ) by {
                    assert(disjoint(kids[x], kids[y]));
                    assert forall|p: PageId| !(#[trigger] owns(kids2[x], p) && #[trigger] owns(
                        kids2[y],
                        p,
                    )) by {
                        assert(owns(kids2[x], p) == owns(kids[x], p));
                        assert(owns(kids2[y], p) == owns(kids[y], p));
                    }
                }
            }
        },
    }
}

// ---- keys that always fit ----

/// Keys up to this length never make a node overflow that was split in half.
pub const SHORT_KEY: usize = 2711;

/// Every key and separator is short.
pub open spec fn short(t: Tree) -> bool
    decreases t,
{
    match t {
        Tree::Leaf { pid, es } => short_entries(es),
        Tree::Node { pid, ks, kids } => short_keys(ks) && forall|i: int|
            0 <= i < kids.len() ==> short(#[trigger] kids[i]),
    }
}

pub open spec fn short_entries(es: Seq<Entry>) -> bool {
    forall|i: int| 0 <= i < es.len() ==> (#[trigger] es[i]).0.len() <= SHORT_KEY
}

pub open spec fn short_keys(ks: Seq<Seq<u8>>) -> bool {
    forall|i: int| 0 <= i < ks.len() ==> (#[trigger] ks[i]).len() <= SHORT_KEY
}

/// Every node fits its page.
pub open spec fn fitting(t: Tree) -> bool
    decreases t,
{
    match t {
        Tree::Leaf { pid, es } => leaf_len(es) <= BODY_CAPACITY,
        Tree::Node { pid, ks, kids } => internal_len(ks) <= BODY_CAPACITY && forall|i: int|
            0 <= i < kids.len() ==> fitting(#[trigger] kids[i]),
    }
}

/// Half is passed at the position that `half_from` gives, and not before.
proof fn lemma_half(sizes: Seq<int>, i: int)
    requires
        0 <= i < sizes.len(),
        forall|j: int| 0 <= j < sizes.len() ==> (#[trigger] sizes[j]) >= 0,
        i > 0 ==> 2 * sum_to(sizes, i) < sum_to(sizes, sizes.len() as int),
    ensures
        i < half_from(sizes, i) <= sizes.len(),
        2 * sum_to(sizes, half_from(sizes, i)) >= sum_to(sizes, sizes.len() as int),
        half_from(sizes, i) > 1 ==> 2 * sum_to(sizes, half_from(sizes, i) - 1) < sum_to(
            sizes,
            sizes.len() as int,
        ),
    decreases sizes.len() - i,
{
    lemma_sum_grows(sizes, 0, sizes.len() as int);
    if 2 * sum_to(sizes, i + 1) < sum_to(sizes, sizes.len() as int) {
        lemma_half(sizes, i + 1);
    }
}

/// Sizes that are small against their sum are split evenly enough.
proof fn lemma_even_split(sizes: Seq<int>, most: int)
    requires
        sizes.len() >= 2,
        forall|j: int| 0 <= j < sizes.len() ==> 0 <= (#[trigger] sizes[j]) <= most,
    ensures
        ({
            let s = split_point(sizes);
            let total = sum_to(sizes, sizes.len() as int);
            &&& 1 <= s <= sizes.len() - 1
            &&& 2 * sum_to(sizes, s) <= total + 2 * most
            &&& 2 * (total - sum_to(sizes, s)) <= total + 2 * most
        }),
{
    let n = sizes.len() as int;
    lemma_half(sizes, 0);
    let h = half_from(sizes, 0);
    lemma_sum_grows(sizes, 0, n);
    if h > n - 1 {
        assert(sum_to(sizes, n) == sum_to(sizes, n - 1) + sizes[n - 1]);
    } else {
        assert(sum_to(sizes, h) == sum_to(sizes, h - 1) + sizes[h - 1]);
    }
}

proof fn lemma_leaf_halves(es: Seq<Entry>, s: int)
    requires
        0 <= s <= es.len(),
    ensures
        leaf_len(es.take(s)) == 2 + sum_to(entry_sizes(es), s),
        leaf_len(es.skip(s)) == leaf_len(es) - sum_to(entry_sizes(es), s),
{
    lemma_sum_agrees(entry_sizes(es.take(s)), entry_sizes(es), s);
    lemma_sum_split(entry_sizes(es), s, es.len() as int);
    assert(entry_sizes(es.skip(s)) =~= entry_sizes(es).skip(s));
}

proof fn lemma_node_halves(ks: Seq<Seq<u8>>, s: int)
    requires
        0 <= s <= ks.len(),
    ensures
        internal_len(ks.take(s)) == 6 + sum_to(key_sizes(ks), s),
        internal_len(ks.skip(s)) == internal_len(ks) - sum_to(key_sizes(ks), s),
{
    lemma_sum_agrees(key_sizes(ks.take(s)), key_sizes(ks), s);
    lemma_sum_split(key_sizes(ks), s, ks.len() as int);
    assert(key_sizes(ks.skip(s)) =~= key_sizes(ks).skip(s));
}

/// Adding one element adds its size.
pub proof fn lemma_sum_insert(sizes: Seq<int>, at: int, x: int)
    requires
        0 <= at <= sizes.len(),
    ensures
        sum_to(sizes.insert(at, x), sizes.len() as int + 1) == sum_to(sizes, sizes.len() as int) + x,
{
    let big = sizes.insert(at, x);
    lemma_sum_split(big, at + 1, sizes.len() as int + 1);
    lemma_sum_split(sizes, at, sizes.len() as int);
    lemma_sum_agrees(big, sizes, at);
    assert(big.skip(at + 1) =~= sizes.skip(at));
    assert(big[at] == x);
}

proof fn lemma_short_leaf(es: Seq<Entry>, key: Seq<u8>, rid: Rid)
    requires
        short_entries(es),
        leaf_len(es) <= BODY_CAPACITY,
        key.len() <= SHORT_KEY,
    ensures
        short_entries(put(es, key, rid)),
        present(es, key) ==> leaf_len(put(es, key, rid)) <= BODY_CAPACITY,
        leaf_splits(put(es, key, rid)),
{
    let ps = put(es, key, rid);
    lemma_rank(es, key);
    let r = rank(es, key);
    assert forall|i: int| 0 <= i < ps.len() implies (#[trigger] ps[i]).0.len() <= SHORT_KEY by {
        if i != r {
            let j = if present(es, key) || i < r {
                i
            } else {
                i - 1
            };
            assert(ps[i] == es[j]);
        }
    }
    if present(es, key) {
        lemma_sum_agrees(entry_sizes(ps), entry_sizes(es), es.len() as int);
    } else {
        assert(entry_sizes(ps) =~= entry_sizes(es).insert(r, 8 + key.len() as int));
        lemma_sum_insert(entry_sizes(es), r, 8 + key.len() as int);
        if leaf_len(ps) > BODY_CAPACITY {
            if ps.len() < 2 {
                assert(sum_to(entry_sizes(ps), 1) == sum_to(entry_sizes(ps), 0) + entry_sizes(ps)[0]);
            }
            lemma_even_split(entry_sizes(ps), 8 + SHORT_KEY as int);
            lemma_leaf_halves(ps, split_point(entry_sizes(ps)));
        }
    }
}

proof fn lemma_short_node(ks: Seq<Seq<u8>>, i: int, sep: Seq<u8>)
    requires
        short_keys(ks),
        internal_len(ks) <= BODY_CAPACITY,
        sep.len() <= SHORT_KEY,
        0 <= i <= ks.len(),
    ensures
        short_keys(ks.insert(i, sep)),
        node_splits(ks.insert(i, sep)),
{
    let ks2 = ks.insert(i, sep);
    assert forall|j: int| 0 <= j < ks2.len() implies (#[trigger] ks2[j]).len() <= SHORT_KEY by {
        if j < i {
            assert(ks2[j] == ks[j]);
        } else if j > i {
            assert(ks2[j] == ks[j - 1]);
        }
    }
    assert(key_sizes(ks2) =~= key_sizes(ks).insert(i, 6 + sep.len() as int));
    lemma_sum_insert(key_sizes(ks), i, 6 + sep.len() as int);
    if internal_len(ks2) > BODY_CAPACITY {
        if ks2.len() < 2 {
            assert(sum_to(key_sizes(ks2), 1) == sum_to(key_sizes(ks2), 0) + key_sizes(ks2)[0]);
        }
        let s = split_point(key_sizes(ks2));
        lemma_even_split(key_sizes(ks2), 6 + SHORT_KEY as int);
        lemma_node_halves(ks2, s);
        lemma_node_halves(ks2, s + 1);
        lemma_sum_grows(key_sizes(ks2), s, s + 1);
    }
}

/// A tree of short keys takes any short key, and stays a tree of short keys.
pub proof fn law_short_keys_always_fit(t: Tree, key: Seq<u8>, rid: Rid, fresh: int)
    requires
        short(t),
        fitting(t),
        ordered_shape(t),
        key.len() <= SHORT_KEY,
    ensures
        grow_fits(t, key, rid, fresh),
        fitting(grow(t, key, rid, fresh).tree),
        short(grow(t, key, rid, fresh).tree),
        grow(t, key, rid, fresh).up matches Some((sep, right)) ==> sep.len() <= SHORT_KEY && fitting(
            right,
        ) && short(right),
    decreases t,
{
    match t {
        Tree::Leaf { pid, es } => {
            lemma_short_leaf(es, key, rid);
            let ps = put(es, key, rid);
            let s = split_point(entry_sizes(ps));
            if !present(es, key) && leaf_len(ps) > BODY_CAPACITY {
                lemma_split_point(entry_sizes(ps));
                assert(ps[s].0.len() <= SHORT_KEY);
                assert forall|i: int| 0 <= i < ps.take(s).len() implies (#[trigger] ps.take(
                    s,
                )[i]).0.len() <= SHORT_KEY by {
                    assert(ps[i].0.len() <= SHORT_KEY);
                }
                assert forall|i: int| 0 <= i < ps.skip(s).len() implies (#[trigger] ps.skip(
                    s,
                )[i]).0.len() <= SHORT_KEY by {
                    assert(ps[i + s].0.len() <= SHORT_KEY);
                }
            }
        },
        Tree::Node { pid, ks, kids } => {
            let i = child_of(ks, key);
            lemma_child_of(ks, key);
            assert(short(kids[i]) && fitting(kids[i]) && ordered_shape(kids[i]));
            law_short_keys_always_fit(kids[i], key, rid, fresh);
            let g = grow(kids[i], key, rid, fresh);
            let kids2 = grown_kids(kids, i, g);
            let ks2 = grown_keys(ks, i, g);
            assert forall|j: int| 0 <= j < kids2.len() implies short(#[trigger] kids2[j]) && fitting(
                kids2[j],
            ) by {
                if j != i && !(g.up is Some && j == i + 1) {
                    let o = if j < i || g.up is None {
                        j
                    } else {
                        j - 1
                    };
                    assert(kids2[j] == kids[o]);
                    assert(short(kids[o]) && fitting(kids[o]));
                }
            }
            match g.up {
                None => {},
                Some((sep, right)) => {
                    lemma_short_node(ks, i, sep);
                    let s = split_point(key_sizes(ks2));
                    if internal_len(ks2) > BODY_CAPACITY {
                        lemma_split_point(key_sizes(ks2));
                        assert(ks2[s].len() <= SHORT_KEY);
                        lemma_short_part(ks2, kids2, 0, s);
                        lemma_short_part(ks2, kids2, s + 1, ks2.len() as int);
                        assert(ks2.subrange(0, s) =~= ks2.take(s));
                        assert(kids2.subrange(0, s + 1) =~= kids2.take(s + 1));
                        assert(ks2.subrange(s + 1, ks2.len() as int) =~= ks2.skip(s + 1));
                        assert(kids2.subrange(s + 1, ks2.len() as int + 1) =~= kids2.skip(s + 1));
                    }
                },
            }
        },
    }
}

proof fn lemma_short_part(ks: Seq<Seq<u8>>, kids: Seq<Tree>, from: int, to: int)
    requires
        0 <= from <= to <= ks.len(),
        kids.len() == ks.len() + 1,
        short_keys(ks),
        forall|j: int| 0 <= j < kids.len() ==> short(#[trigger] kids[j]) && fitting(kids[j]),
    ensures
        short_keys(ks.subrange(from, to)),
        forall|j: int|
            0 <= j < to + 1 - from ==> short(#[trigger] kids.subrange(from, to + 1)[j]) && fitting(
                kids.subrange(from, to + 1)[j],
            ),
{
    assert forall|j: int| 0 <= j < to - from implies (#[trigger] ks.subrange(from, to)[j]).len()
        <= SHORT_KEY by {
        assert(ks[j + from].len() <= SHORT_KEY);
    }
    assert forall|j: int| 0 <= j < to + 1 - from implies short(
        #[trigger] kids.subrange(from, to + 1)[j],
    ) && fitting(kids.subrange(from, to + 1)[j]) by {
        assert(short(kids[j + from]));
    }
}

} // verus!
