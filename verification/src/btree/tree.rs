//! What the pages of a B-tree stand for.

use vstd::prelude::*;

use crate::btree::node::{
    ascending, child_of, internal_body, leaf_body, lemma_child_of, lemma_internal_body_unique,
    lemma_leaf_body_unique, lemma_rank, rank, within, Entry, NIL,
};
use crate::buffer::PageId;
use crate::bytes::{
    le64, lemma_lex_irreflexive, lemma_lex_total, lemma_lex_transitive, lex_le, lex_lt,
};
use crate::heap::{Pages, Rid};
use crate::page::{PageType, PAGE_SIZE};
use crate::pager::full;

verus! {

/// A tree and the page of each of its nodes.
pub enum Tree {
    Leaf { pid: PageId, es: Seq<Entry> },
    Node { pid: PageId, ks: Seq<Seq<u8>>, kids: Seq<Tree> },
}

impl Tree {
    pub open spec fn pid(self) -> PageId {
        match self {
            Tree::Leaf { pid, .. } => pid,
            Tree::Node { pid, .. } => pid,
        }
    }
}

/// The pages of the children.
pub open spec fn kid_pids(kids: Seq<Tree>) -> Seq<PageId> {
    Seq::new(kids.len(), |i: int| kids[i].pid())
}

/// A leaf's page and its entries.
pub type LeafOf = (PageId, Seq<Entry>);

/// The leaves from left to right.
pub open spec fn leaves(t: Tree) -> Seq<LeafOf>
    decreases t, 0int,
{
    match t {
        Tree::Leaf { pid, es } => seq![(pid, es)],
        Tree::Node { pid, ks, kids } => leaves_to(kids, kids.len() as int),
    }
}

/// The leaves of the first `n` children.
pub open spec fn leaves_to(kids: Seq<Tree>, n: int) -> Seq<LeafOf>
    decreases kids, n,
{
    if n <= 0 || n > kids.len() {
        Seq::empty()
    } else {
        leaves_to(kids, n - 1) + leaves(kids[n - 1])
    }
}

/// The entries of some leaves, in order.
pub open spec fn concat(ls: Seq<LeafOf>) -> Seq<Entry>
    decreases ls.len(),
{
    if ls.len() == 0 {
        Seq::empty()
    } else {
        concat(ls.drop_last()) + ls.last().1
    }
}

/// All entries in order.
pub open spec fn flat(t: Tree) -> Seq<Entry> {
    concat(leaves(t))
}

/// Page `p` holds a node of the tree.
pub open spec fn owns(t: Tree, p: PageId) -> bool
    decreases t,
{
    match t {
        Tree::Leaf { pid, es } => p == pid,
        Tree::Node { pid, ks, kids } => p == pid || exists|i: int|
            0 <= i < kids.len() && owns(#[trigger] kids[i], p),
    }
}

/// Two trees have no page in common.
pub open spec fn disjoint(a: Tree, b: Tree) -> bool {
    forall|p: PageId| !(#[trigger] owns(a, p) && #[trigger] owns(b, p))
}

/// No page holds two nodes.
pub open spec fn apart(t: Tree) -> bool
    decreases t,
{
    match t {
        Tree::Leaf { pid, es } => true,
        Tree::Node { pid, ks, kids } => {
            &&& forall|i: int| 0 <= i < kids.len() ==> !owns(#[trigger] kids[i], pid)
            &&& forall|i: int, j: int|
                0 <= i < j < kids.len() ==> disjoint(#[trigger] kids[i], #[trigger] kids[j])
            &&& forall|i: int| 0 <= i < kids.len() ==> apart(#[trigger] kids[i])
        },
    }
}

/// Separators ascend strictly.
pub open spec fn keys_ascending(ks: Seq<Seq<u8>>) -> bool {
    forall|i: int, j: int| 0 <= i < j < ks.len() ==> lex_lt(#[trigger] ks[i], #[trigger] ks[j])
}

/// The lower end of child `i`.
pub open spec fn low_of(ks: Seq<Seq<u8>>, i: int, low: Option<Seq<u8>>) -> Option<Seq<u8>> {
    if i == 0 {
        low
    } else {
        Some(ks[i - 1])
    }
}

/// The upper end of child `i`.
pub open spec fn high_of(ks: Seq<Seq<u8>>, i: int, high: Option<Seq<u8>>) -> Option<Seq<u8>> {
    if i == ks.len() {
        high
    } else {
        Some(ks[i])
    }
}

/// Keys ascend, and every key lies where its separators say.
pub open spec fn ordered(t: Tree, low: Option<Seq<u8>>, high: Option<Seq<u8>>) -> bool
    decreases t,
{
    match t {
        Tree::Leaf { pid, es } => {
            &&& ascending(es)
            &&& forall|i: int| 0 <= i < es.len() ==> within((#[trigger] es[i]).0, low, high)
        },
        Tree::Node { pid, ks, kids } => {
            &&& kids.len() == ks.len() + 1
            &&& keys_ascending(ks)
            &&& forall|i: int| 0 <= i < ks.len() ==> within(#[trigger] ks[i], low, high)
            &&& forall|i: int|
                0 <= i < kids.len() ==> ordered(
                    #[trigger] kids[i],
                    low_of(ks, i, low),
                    high_of(ks, i, high),
                )
        },
    }
}

/// How far the leftmost leaf lies below the top.
pub open spec fn height(t: Tree) -> int
    decreases t,
{
    match t {
        Tree::Leaf { pid, es } => 0,
        Tree::Node { pid, ks, kids } => if kids.len() > 0 {
            1 + height(kids[0])
        } else {
            0
        },
    }
}

/// Every leaf lies `h` levels below the top.
pub open spec fn level(t: Tree, h: int) -> bool
    decreases t,
{
    match t {
        Tree::Leaf { pid, es } => h == 0,
        Tree::Node { pid, ks, kids } => {
            &&& h > 0
            &&& kids.len() > 0
            &&& forall|i: int| 0 <= i < kids.len() ==> level(#[trigger] kids[i], h - 1)
        },
    }
}

/// The body of a page.
pub open spec fn body_at(pages: Pages, p: PageId) -> Seq<u8> {
    full(pages[p]).subrange(32, PAGE_SIZE as int)
}

/// The type byte of a page.
pub open spec fn type_at(pages: Pages, p: PageId) -> u8 {
    full(pages[p])[14]
}

/// Page `p` holds a leaf with entries `es`.
pub open spec fn leaf_page(pages: Pages, p: PageId, es: Seq<Entry>) -> bool {
    &&& pages.dom().contains(p)
    &&& type_at(pages, p) == PageType::BTreeLeaf.byte()
    &&& leaf_body(body_at(pages, p), es)
}

/// Page `p` holds an inner node.
pub open spec fn internal_page(pages: Pages, p: PageId, ks: Seq<Seq<u8>>, cs: Seq<PageId>) -> bool {
    &&& pages.dom().contains(p)
    &&& type_at(pages, p) == PageType::BTreeInternal.byte()
    &&& internal_body(body_at(pages, p), ks, cs)
}

/// The pages hold the nodes of the tree.
pub open spec fn shaped(pages: Pages, t: Tree) -> bool
    decreases t,
{
    match t {
        Tree::Leaf { pid, es } => leaf_page(pages, pid, es),
        Tree::Node { pid, ks, kids } => {
            &&& internal_page(pages, pid, ks, kid_pids(kids))
            &&& forall|i: int| 0 <= i < kids.len() ==> shaped(pages, #[trigger] kids[i])
        },
    }
}

/// The upper half of a page's link word.
#[verifier::opaque]
pub open spec fn upper_link(body: Seq<u8>) -> int {
    le64(full(body), 24) / 0x1_0000_0000
}

/// The lower half of a page's link word.
#[verifier::opaque]
pub open spec fn lower_link(body: Seq<u8>) -> int {
    le64(full(body), 24) % 0x1_0000_0000
}

/// The leaf before the leaf on page `p`.
pub open spec fn prev_of(pages: Pages, p: PageId) -> int {
    upper_link(pages[p])
}

/// The leaf after the leaf on page `p`.
pub open spec fn next_of(pages: Pages, p: PageId) -> int {
    lower_link(pages[p])
}

/// The page at `i`, or none past the ends.
pub open spec fn id_at(ids: Seq<PageId>, i: int) -> PageId {
    if 0 <= i < ids.len() {
        ids[i]
    } else {
        NIL
    }
}

/// Leaf `i` names its neighbours.
pub open spec fn linked_at(pages: Pages, ids: Seq<PageId>, i: int) -> bool {
    &&& prev_of(pages, ids[i]) == id_at(ids, i - 1)
    &&& next_of(pages, ids[i]) == id_at(ids, i + 1)
}

/// Each leaf names its neighbours.
pub open spec fn linked(pages: Pages, ids: Seq<PageId>) -> bool {
    forall|i: int| 0 <= i < ids.len() ==> #[trigger] linked_at(pages, ids, i)
}

/// The pages of the leaves from left to right.
pub open spec fn leaf_ids(t: Tree) -> Seq<PageId> {
    ids_of(leaves(t))
}

pub open spec fn ids_of(ls: Seq<LeafOf>) -> Seq<PageId> {
    Seq::new(ls.len(), |i: int| ls[i].0)
}

/// A well-formed tree on these pages.
pub open spec fn tree_ok(pages: Pages, t: Tree) -> bool {
    &&& shaped(pages, t)
    &&& apart(t)
    &&& ordered(t, None, None)
    &&& level(t, height(t))
    &&& linked(pages, leaf_ids(t))
}

/// What entries hold for each key.
pub open spec fn map_of(es: Seq<Entry>) -> Map<Seq<u8>, Rid> {
    Map::new(
        |k: Seq<u8>| exists|i: int| 0 <= i < es.len() && (#[trigger] es[i]).0 == k,
        |k: Seq<u8>| es[choose|i: int| 0 <= i < es.len() && (#[trigger] es[i]).0 == k].1,
    )
}

/// What the tree holds.
pub open spec fn contents(t: Tree) -> Map<Seq<u8>, Rid> {
    map_of(flat(t))
}

// ---- sequences of entries ----

/// An entry of an ascending sequence is what its key maps to.
pub proof fn lemma_map_at(es: Seq<Entry>, i: int)
    requires
        ascending(es),
        0 <= i < es.len(),
    ensures
        map_of(es).dom().contains(es[i].0),
        map_of(es)[es[i].0] == es[i].1,
{
    let k = es[i].0;
    let j = choose|j: int| 0 <= j < es.len() && (#[trigger] es[j]).0 == k;
    assert(es[i].0 == k);
    lemma_lex_irreflexive(k);
    if i < j {
        assert(lex_lt(es[i].0, es[j].0));
    } else if j < i {
        assert(lex_lt(es[j].0, es[i].0));
    }
}

/// Where a key stands in an ascending sequence.
pub proof fn lemma_rank_finds(es: Seq<Entry>, key: Seq<u8>)
    requires
        ascending(es),
    ensures
        0 <= rank(es, key) <= es.len(),
        forall|j: int| 0 <= j < rank(es, key) ==> lex_lt((#[trigger] es[j]).0, key),
        forall|j: int| rank(es, key) <= j < es.len() ==> lex_le(key, (#[trigger] es[j]).0),
        forall|j: int| rank(es, key) < j < es.len() ==> lex_lt(key, (#[trigger] es[j]).0),
        map_of(es).dom().contains(key) <==> rank(es, key) < es.len() && es[rank(es, key)].0 == key,
{
    lemma_rank(es, key);
    let r = rank(es, key);
    assert forall|j: int| r < j < es.len() implies lex_lt(key, (#[trigger] es[j]).0) by {
        assert(lex_lt(es[r].0, es[j].0));
        lemma_lex_total(es[r].0, key);
        if lex_lt(key, es[r].0) {
            lemma_lex_transitive(key, es[r].0, es[j].0);
        }
    }
    assert forall|j: int| r <= j < es.len() implies lex_le(key, (#[trigger] es[j]).0) by {
        if j > r {
            lemma_lex_total(key, es[j].0);
        }
    }
    if map_of(es).dom().contains(key) {
        let j = choose|j: int| 0 <= j < es.len() && (#[trigger] es[j]).0 == key;
        lemma_lex_irreflexive(key);
        if j < r {
            assert(lex_lt(es[j].0, key));
        } else if j > r {
            assert(lex_lt(key, es[j].0));
        }
    }
    if r < es.len() && es[r].0 == key {
        assert(map_of(es).dom().contains(key));
    }
}

/// `rank` is the only position with everything below before it and nothing below at it.
pub proof fn lemma_rank_unique(es: Seq<Entry>, key: Seq<u8>, r: int)
    requires
        0 <= r <= es.len(),
        forall|j: int| 0 <= j < r ==> lex_lt((#[trigger] es[j]).0, key),
        r < es.len() ==> !lex_lt(es[r].0, key),
    ensures
        rank(es, key) == r,
{
    lemma_rank(es, key);
    if rank(es, key) < r {
        assert(lex_lt(es[rank(es, key)].0, key));
    } else if r < rank(es, key) {
        assert(lex_lt(es[r].0, key));
    }
}

/// The key is there.
pub open spec fn present(es: Seq<Entry>, key: Seq<u8>) -> bool {
    rank(es, key) < es.len() && es[rank(es, key)].0 == key
}

/// Entries with `key` set to `rid`.
pub open spec fn put(es: Seq<Entry>, key: Seq<u8>, rid: Rid) -> Seq<Entry> {
    if present(es, key) {
        es.update(rank(es, key), (key, rid))
    } else {
        es.insert(rank(es, key), (key, rid))
    }
}

/// Entries without `key`.
pub open spec fn cut(es: Seq<Entry>, key: Seq<u8>) -> Seq<Entry> {
    if present(es, key) {
        es.remove(rank(es, key))
    } else {
        es
    }
}

pub proof fn lemma_put(es: Seq<Entry>, key: Seq<u8>, rid: Rid)
    requires
        ascending(es),
    ensures
        ascending(put(es, key, rid)),
        map_of(put(es, key, rid)) == map_of(es).insert(key, rid),
        forall|i: int|
            0 <= i < put(es, key, rid).len() ==> (#[trigger] put(es, key, rid)[i]).0 == key || exists|
                j: int,
            |
                0 <= j < es.len() && #[trigger] es[j] == put(es, key, rid)[i],
{
    lemma_rank_finds(es, key);
    let r = rank(es, key);
    let ps = put(es, key, rid);
    assert forall|i: int, j: int| 0 <= i < j < ps.len() implies lex_lt(
        (#[trigger] ps[i]).0,
        (#[trigger] ps[j]).0,
    ) by {
        if present(es, key) {
            assert(ps[i].0 == es[i].0 && ps[j].0 == es[j].0);
            assert(lex_lt(es[i].0, es[j].0));
        } else {
            if r < es.len() {
                lemma_lex_total(key, es[r].0);
            }
            let x = if i < r {
                i
            } else {
                i - 1
            };
            let y = if j < r {
                j
            } else {
                j - 1
            };
            if i == r {
                assert(ps[j] == es[j - 1]);
                if j - 1 == r {
                    assert(lex_lt(key, es[r].0));
                }
            } else if j == r {
                assert(ps[i] == es[i]);
            } else {
                assert(ps[i] == es[x]);
                assert(ps[j] == es[y]);
                assert(lex_lt(es[x].0, es[y].0));
            }
        }
    }
    assert(ps[r] == (key, rid));
    let m = map_of(ps);
    let want = map_of(es).insert(key, rid);
    assert forall|k: Seq<u8>| m.dom().contains(k) <==> want.dom().contains(k) by {
        if want.dom().contains(k) {
            if k == key {
                assert(ps[r].0 == k);
            } else {
                let j = choose|j: int| 0 <= j < es.len() && (#[trigger] es[j]).0 == k;
                let i = if present(es, key) || j < r {
                    j
                } else {
                    j + 1
                };
                assert(ps[i] == es[j]);
            }
        }
        if m.dom().contains(k) && k != key {
            let i = choose|i: int| 0 <= i < ps.len() && (#[trigger] ps[i]).0 == k;
            let j = if present(es, key) || i < r {
                i
            } else {
                i - 1
            };
            assert(es[j] == ps[i]);
        }
    }
    assert forall|k: Seq<u8>| m.dom().contains(k) implies #[trigger] m[k] == want[k] by {
        let i = choose|i: int| 0 <= i < ps.len() && (#[trigger] ps[i]).0 == k;
        lemma_map_at(ps, i);
        if k == key {
            lemma_map_at(ps, r);
        } else {
            let j = if present(es, key) || i < r {
                i
            } else {
                i - 1
            };
            assert(es[j] == ps[i]);
            lemma_map_at(es, j);
        }
    }
    assert(m =~= want);
    assert forall|i: int| 0 <= i < ps.len() implies (#[trigger] ps[i]).0 == key || exists|j: int|
        0 <= j < es.len() && #[trigger] es[j] == ps[i] by {
        if i != r {
            let j = if present(es, key) || i < r {
                i
            } else {
                i - 1
            };
            assert(es[j] == ps[i]);
        }
    }
}

pub proof fn lemma_cut(es: Seq<Entry>, key: Seq<u8>)
    requires
        ascending(es),
    ensures
        ascending(cut(es, key)),
        map_of(cut(es, key)) == map_of(es).remove(key),
        forall|i: int|
            0 <= i < cut(es, key).len() ==> exists|j: int|
                0 <= j < es.len() && #[trigger] es[j] == #[trigger] cut(es, key)[i],
{
    lemma_rank_finds(es, key);
    let r = rank(es, key);
    let ps = cut(es, key);
    let m = map_of(ps);
    let want = map_of(es).remove(key);
    if present(es, key) {
        assert forall|i: int, j: int| 0 <= i < j < ps.len() implies lex_lt(
            (#[trigger] ps[i]).0,
            (#[trigger] ps[j]).0,
        ) by {
            let x = if i < r {
                i
            } else {
                i + 1
            };
            let y = if j < r {
                j
            } else {
                j + 1
            };
            assert(ps[i] == es[x] && ps[j] == es[y]);
            assert(lex_lt(es[x].0, es[y].0));
        }
        lemma_lex_irreflexive(key);
        assert forall|k: Seq<u8>| m.dom().contains(k) <==> want.dom().contains(k) by {
            if want.dom().contains(k) {
                let j = choose|j: int| 0 <= j < es.len() && (#[trigger] es[j]).0 == k;
                let i = if j < r {
                    j
                } else {
                    j - 1
                };
                assert(ps[i] == es[j]);
            }
            if m.dom().contains(k) {
                let i = choose|i: int| 0 <= i < ps.len() && (#[trigger] ps[i]).0 == k;
                let j = if i < r {
                    i
                } else {
                    i + 1
                };
                assert(es[j] == ps[i]);
                if k == key {
                    if j < r {
                        assert(lex_lt(es[j].0, key));
                    } else {
                        assert(lex_lt(key, es[j].0));
                    }
                }
            }
        }
        assert forall|k: Seq<u8>| m.dom().contains(k) implies #[trigger] m[k] == want[k] by {
            let i = choose|i: int| 0 <= i < ps.len() && (#[trigger] ps[i]).0 == k;
            let j = if i < r {
                i
            } else {
                i + 1
            };
            assert(es[j] == ps[i]);
            lemma_map_at(ps, i);
            lemma_map_at(es, j);
        }
    }
    assert(m =~= want);
    assert forall|i: int| 0 <= i < ps.len() implies exists|j: int|
        0 <= j < es.len() && #[trigger] es[j] == #[trigger] ps[i] by {
        let j = if !present(es, key) || i < r {
            i
        } else {
            i + 1
        };
        assert(es[j] == ps[i]);
    }
}

/// A key that lies in the middle of three runs is put, cut and found there.
pub proof fn lemma_middle(a: Seq<Entry>, m: Seq<Entry>, b: Seq<Entry>, key: Seq<u8>, rid: Rid)
    requires
        forall|i: int| 0 <= i < a.len() ==> lex_lt((#[trigger] a[i]).0, key),
        forall|i: int| 0 <= i < b.len() ==> lex_lt(key, (#[trigger] b[i]).0),
    ensures
        rank(a + m + b, key) == a.len() + rank(m, key),
        present(a + m + b, key) == present(m, key),
        present(m, key) ==> (a + m + b)[rank(a + m + b, key)] == m[rank(m, key)],
        put(a + m + b, key, rid) == a + put(m, key, rid) + b,
        cut(a + m + b, key) == a + cut(m, key) + b,
{
    let es = a + m + b;
    lemma_rank(m, key);
    let r = a.len() + rank(m, key);
    assert forall|j: int| 0 <= j < r implies lex_lt((#[trigger] es[j]).0, key) by {
        if j < a.len() {
            assert(es[j] == a[j]);
        } else {
            assert(es[j] == m[j - a.len()]);
        }
    }
    if r < es.len() {
        if rank(m, key) < m.len() {
            assert(es[r] == m[rank(m, key)]);
        } else {
            assert(es[r] == b[0]);
            lemma_lex_total(key, b[0].0);
        }
    }
    lemma_rank_unique(es, key, r);
    lemma_lex_irreflexive(key);
    if !present(m, key) && rank(m, key) == m.len() && b.len() > 0 {
        assert(es[r] == b[0]);
    }
    assert(put(es, key, rid) =~= a + put(m, key, rid) + b);
    assert(cut(es, key) =~= a + cut(m, key) + b);
}

pub proof fn lemma_concat_add(a: Seq<LeafOf>, b: Seq<LeafOf>)
    ensures
        concat(a + b) == concat(a) + concat(b),
    decreases b.len(),
{
    if b.len() == 0 {
        assert(a + b =~= a);
        assert(concat(a) + concat(b) =~= concat(a));
    } else {
        lemma_concat_add(a, b.drop_last());
        assert((a + b).drop_last() =~= a + b.drop_last());
        assert(concat(a + b) =~= concat(a) + concat(b));
    }
}

pub proof fn lemma_one_leaf(pid: PageId, es: Seq<Entry>)
    ensures
        concat(seq![(pid, es)]) == es,
{
    let ls: Seq<LeafOf> = seq![(pid, es)];
    assert(ls.drop_last() =~= Seq::<LeafOf>::empty());
    assert(concat(ls.drop_last()) =~= Seq::<Entry>::empty());
    assert(concat(ls) =~= es);
}

// ---- the leaves of a tree ----

pub proof fn lemma_leaves_agree(a: Seq<Tree>, b: Seq<Tree>, n: int)
    requires
        0 <= n <= a.len(),
        n <= b.len(),
        forall|j: int| 0 <= j < n ==> #[trigger] a[j] == b[j],
    ensures
        leaves_to(a, n) == leaves_to(b, n),
    decreases n,
{
    if n > 0 {
        lemma_leaves_agree(a, b, n - 1);
        assert(a[n - 1] == b[n - 1]);
    }
}

pub proof fn lemma_leaves_split(kids: Seq<Tree>, m: int, n: int)
    requires
        0 <= m <= n <= kids.len(),
    ensures
        leaves_to(kids, n) == leaves_to(kids, m) + leaves_to(kids.skip(m), n - m),
    decreases n,
{
    if n == m {
        assert(leaves_to(kids, m) + leaves_to(kids.skip(m), 0) =~= leaves_to(kids, m));
    } else {
        lemma_leaves_split(kids, m, n - 1);
        assert(kids.skip(m)[n - m - 1] == kids[n - 1]);
        assert(leaves_to(kids, n) =~= leaves_to(kids, m) + leaves_to(kids.skip(m), n - m));
    }
}

/// The leaves before, of, and after child `i`.
pub proof fn lemma_leaves_around(kids: Seq<Tree>, i: int)
    requires
        0 <= i < kids.len(),
    ensures
        leaves_to(kids, kids.len() as int) == leaves_to(kids, i) + leaves(kids[i]) + leaves_to(
            kids.skip(i + 1),
            kids.len() - i - 1,
        ),
{
    lemma_leaves_split(kids, i + 1, kids.len() as int);
}

/// Each leaf of the first `n` children is a leaf of one of them.
pub proof fn lemma_leaf_from(kids: Seq<Tree>, n: int, x: int) -> (r: (int, int))
    requires
        0 <= n <= kids.len(),
        0 <= x < leaves_to(kids, n).len(),
    ensures
        0 <= r.0 < n,
        0 <= r.1 < leaves(kids[r.0]).len(),
        leaves(kids[r.0])[r.1] == leaves_to(kids, n)[x],
    decreases n,
{
    let before = leaves_to(kids, n - 1);
    if x < before.len() {
        lemma_leaf_from(kids, n - 1, x)
    } else {
        (n - 1, x - before.len())
    }
}

/// Each entry of the first `n` children is an entry of one of them.
pub proof fn lemma_entry_from(kids: Seq<Tree>, n: int, x: int) -> (r: (int, int))
    requires
        0 <= n <= kids.len(),
        0 <= x < concat(leaves_to(kids, n)).len(),
    ensures
        0 <= r.0 < n,
        0 <= r.1 < flat(kids[r.0]).len(),
        flat(kids[r.0])[r.1] == concat(leaves_to(kids, n))[x],
    decreases n,
{
    if n > 0 {
        lemma_concat_add(leaves_to(kids, n - 1), leaves(kids[n - 1]));
        let before = concat(leaves_to(kids, n - 1));
        if x < before.len() {
            lemma_entry_from(kids, n - 1, x)
        } else {
            (n - 1, x - before.len())
        }
    } else {
        (0, 0)
    }
}

/// Every tree has a leaf where every node has a child.
pub proof fn lemma_has_leaf(t: Tree, h: int)
    requires
        level(t, h),
    ensures
        leaves(t).len() > 0,
        height(t) == h,
    decreases t,
{
    match t {
        Tree::Leaf { pid, es } => {},
        Tree::Node { pid, ks, kids } => {
            lemma_has_leaf(kids[0], h - 1);
            lemma_leaves_around(kids, 0);
        },
    }
}

/// A leaf's page is one of the tree's, and holds the leaf.
pub proof fn lemma_leaf_owned(pages: Pages, t: Tree, x: int)
    requires
        0 <= x < leaves(t).len(),
    ensures
        owns(t, leaves(t)[x].0),
        shaped(pages, t) ==> leaf_page(pages, leaves(t)[x].0, leaves(t)[x].1),
    decreases t,
{
    match t {
        Tree::Leaf { pid, es } => {},
        Tree::Node { pid, ks, kids } => {
            let (j, y) = lemma_leaf_from(kids, kids.len() as int, x);
            lemma_leaf_owned(pages, kids[j], y);
        },
    }
}

/// No two leaves share a page.
pub proof fn lemma_ids_distinct(t: Tree)
    requires
        apart(t),
    ensures
        leaf_ids(t).no_duplicates(),
    decreases t, 0int,
{
    match t {
        Tree::Leaf { pid, es } => {},
        Tree::Node { pid, ks, kids } => {
            lemma_kid_ids_distinct(kids, kids.len() as int);
        },
    }
}

proof fn lemma_kid_ids_distinct(kids: Seq<Tree>, n: int)
    requires
        0 <= n <= kids.len(),
        forall|i: int, j: int|
            0 <= i < j < kids.len() ==> disjoint(#[trigger] kids[i], #[trigger] kids[j]),
        forall|i: int| 0 <= i < kids.len() ==> apart(#[trigger] kids[i]),
    ensures
        ids_of(leaves_to(kids, n)).no_duplicates(),
    decreases kids, n,
{
    if n > 0 {
        lemma_kid_ids_distinct(kids, n - 1);
        lemma_ids_distinct(kids[n - 1]);
        let a = leaves_to(kids, n - 1);
        let b = leaves(kids[n - 1]);
        let ids = ids_of(leaves_to(kids, n));
        assert forall|x: int, y: int| 0 <= x < ids.len() && 0 <= y < ids.len() && x != y implies ids[x]
            != ids[y] by {
            if x < a.len() && y < a.len() {
                assert(ids_of(a)[x] != ids_of(a)[y]);
            } else if x >= a.len() && y >= a.len() {
                assert(leaf_ids(kids[n - 1])[x - a.len()] != leaf_ids(kids[n - 1])[y - a.len()]);
            } else {
                let p = if x < y {
                    x
                } else {
                    y
                };
                let q = if x < y {
                    y
                } else {
                    x
                };
                let (j, z) = lemma_leaf_from(kids, n - 1, p);
                lemma_leaf_owned(Map::empty(), kids[j], z);
                lemma_leaf_owned(Map::empty(), kids[n - 1], q - a.len());
                assert(disjoint(kids[j], kids[n - 1]));
                assert(owns(kids[j], ids[p]));
                assert(owns(kids[n - 1], ids[q]));
            }
        }
    }
}

/// Entries of an ordered tree ascend and lie within its ends.
pub proof fn lemma_ordered_flat(t: Tree, low: Option<Seq<u8>>, high: Option<Seq<u8>>)
    requires
        ordered(t, low, high),
    ensures
        ascending(flat(t)),
        forall|i: int| 0 <= i < flat(t).len() ==> within((#[trigger] flat(t)[i]).0, low, high),
    decreases t, 0int,
{
    match t {
        Tree::Leaf { pid, es } => {
            lemma_one_leaf(pid, es);
        },
        Tree::Node { pid, ks, kids } => {
            lemma_kids_flat(ks, kids, low, high, kids.len() as int);
        },
    }
}

proof fn lemma_kids_flat(
    ks: Seq<Seq<u8>>,
    kids: Seq<Tree>,
    low: Option<Seq<u8>>,
    high: Option<Seq<u8>>,
    n: int,
)
    requires
        1 <= n <= kids.len(),
        kids.len() == ks.len() + 1,
        keys_ascending(ks),
        forall|i: int| 0 <= i < ks.len() ==> within(#[trigger] ks[i], low, high),
        forall|i: int|
            0 <= i < kids.len() ==> ordered(
                #[trigger] kids[i],
                low_of(ks, i, low),
                high_of(ks, i, high),
            ),
    ensures
        ascending(concat(leaves_to(kids, n))),
        forall|i: int|
            0 <= i < concat(leaves_to(kids, n)).len() ==> within(
                (#[trigger] concat(leaves_to(kids, n))[i]).0,
                low,
                high_of(ks, n - 1, high),
            ),
    decreases kids, n,
{
    let last = kids[n - 1];
    assert(ordered(last, low_of(ks, n - 1, low), high_of(ks, n - 1, high)));
    lemma_ordered_flat(last, low_of(ks, n - 1, low), high_of(ks, n - 1, high));
    lemma_concat_add(leaves_to(kids, n - 1), leaves(last));
    let a = concat(leaves_to(kids, n - 1));
    let b = flat(last);
    let all = concat(leaves_to(kids, n));
    if n > 1 {
        lemma_kids_flat(ks, kids, low, high, n - 1);
        let sep = ks[n - 2];
        assert(within(sep, low, high));
        assert forall|i: int| 0 <= i < all.len() implies within(
            (#[trigger] all[i]).0,
            low,
            high_of(ks, n - 1, high),
        ) by {
            if i < a.len() {
                assert(all[i] == a[i]);
                assert(lex_lt(a[i].0, sep));
                if n - 1 < ks.len() {
                    assert(lex_lt(ks[n - 2], ks[n - 1]));
                    lemma_lex_transitive(a[i].0, sep, ks[n - 1]);
                } else if high is Some {
                    lemma_lex_transitive(a[i].0, sep, high->0);
                }
            } else {
                let e = b[i - a.len()];
                assert(all[i] == e);
                assert(lex_le(sep, e.0));
                if low is Some {
                    lemma_le_le(low->0, sep, e.0);
                }
            }
        }
        assert forall|i: int, j: int| 0 <= i < j < all.len() implies lex_lt(
            (#[trigger] all[i]).0,
            (#[trigger] all[j]).0,
        ) by {
            if j < a.len() {
                assert(all[i] == a[i] && all[j] == a[j]);
            } else if i >= a.len() {
                assert(all[i] == b[i - a.len()] && all[j] == b[j - a.len()]);
            } else {
                assert(all[i] == a[i] && all[j] == b[j - a.len()]);
                assert(lex_lt(a[i].0, sep));
                assert(lex_le(sep, b[j - a.len()].0));
                lemma_lt_le(a[i].0, sep, all[j].0);
            }
        }
    } else {
        assert(leaves_to(kids, 0) =~= Seq::empty());
        assert(all =~= b);
    }
}

pub proof fn lemma_lt_le(a: Seq<u8>, b: Seq<u8>, c: Seq<u8>)
    requires
        lex_lt(a, b),
        lex_le(b, c),
    ensures
        lex_lt(a, c),
{
    lemma_lex_total(b, c);
    if lex_lt(b, c) {
        lemma_lex_transitive(a, b, c);
    }
}

pub proof fn lemma_le_lt(a: Seq<u8>, b: Seq<u8>, c: Seq<u8>)
    requires
        lex_le(a, b),
        lex_lt(b, c),
    ensures
        lex_lt(a, c),
{
    lemma_lex_total(a, b);
    if lex_lt(a, b) {
        lemma_lex_transitive(a, b, c);
    }
}

pub proof fn lemma_le_le(a: Seq<u8>, b: Seq<u8>, c: Seq<u8>)
    requires
        lex_le(a, b),
        lex_le(b, c),
    ensures
        lex_le(a, c),
{
    if lex_lt(c, a) {
        lemma_lt_le(c, a, b);
        lemma_lex_total(b, c);
    }
}

/// The entries before and after the child that a key belongs to.
pub open spec fn before_child(kids: Seq<Tree>, i: int) -> Seq<Entry> {
    concat(leaves_to(kids, i))
}

pub open spec fn after_child(kids: Seq<Tree>, i: int) -> Seq<Entry> {
    concat(leaves_to(kids.skip(i + 1), kids.len() - i - 1))
}

/// What lies beside the child that a key belongs to does not concern the key.
pub proof fn lemma_child_decides(t: Tree, low: Option<Seq<u8>>, high: Option<Seq<u8>>, key: Seq<u8>)
    requires
        t is Node,
        ordered(t, low, high),
    ensures
        ({
            let i = child_of(t->ks, key);
            let kids = t->kids;
            &&& 0 <= i < kids.len()
            &&& flat(t) == before_child(kids, i) + flat(kids[i]) + after_child(kids, i)
            &&& forall|j: int|
                0 <= j < before_child(kids, i).len() ==> lex_lt(
                    (#[trigger] before_child(kids, i)[j]).0,
                    key,
                )
            &&& forall|j: int|
                0 <= j < after_child(kids, i).len() ==> lex_lt(
                    key,
                    (#[trigger] after_child(kids, i)[j]).0,
                )
        }),
{
    let ks = t->ks;
    let kids = t->kids;
    let i = child_of(ks, key);
    lemma_child_of(ks, key);
    lemma_leaves_around(kids, i);
    let rest = leaves_to(kids.skip(i + 1), kids.len() - i - 1);
    lemma_concat_add(leaves_to(kids, i) + leaves(kids[i]), rest);
    lemma_concat_add(leaves_to(kids, i), leaves(kids[i]));
    let a = before_child(kids, i);
    let b = after_child(kids, i);
    assert forall|x: int| 0 <= x < a.len() implies lex_lt((#[trigger] a[x]).0, key) by {
        let (j, y) = lemma_entry_from(kids, i, x);
        assert(ordered(kids[j], low_of(ks, j, low), high_of(ks, j, high)));
        lemma_ordered_flat(kids[j], low_of(ks, j, low), high_of(ks, j, high));
        assert(within(flat(kids[j])[y].0, low_of(ks, j, low), high_of(ks, j, high)));
        assert(lex_lt(a[x].0, ks[j]));
        lemma_lt_le(a[x].0, ks[j], key);
    }
    assert forall|x: int| 0 <= x < b.len() implies lex_lt(key, (#[trigger] b[x]).0) by {
        let (j0, y) = lemma_entry_from(kids.skip(i + 1), kids.len() - i - 1, x);
        let j = j0 + i + 1;
        assert(kids.skip(i + 1)[j0] == kids[j]);
        assert(ordered(kids[j], low_of(ks, j, low), high_of(ks, j, high)));
        lemma_ordered_flat(kids[j], low_of(ks, j, low), high_of(ks, j, high));
        assert(within(flat(kids[j])[y].0, low_of(ks, j, low), high_of(ks, j, high)));
        assert(lex_le(ks[j - 1], b[x].0));
        if i < j - 1 {
            assert(lex_lt(ks[i], ks[j - 1]));
            lemma_lex_transitive(key, ks[i], ks[j - 1]);
        }
        lemma_lt_le(key, ks[j - 1], b[x].0);
    }
}

// ---- pages ----

/// Page `p` holds the same node, whatever its neighbours are now.
pub open spec fn same_node(a: Pages, b: Pages, p: PageId) -> bool {
    &&& b.dom().contains(p)
    &&& forall|es: Seq<Entry>| #[trigger] leaf_page(a, p, es) ==> leaf_page(b, p, es)
    &&& forall|ks: Seq<Seq<u8>>, cs: Seq<PageId>| #[trigger]
        internal_page(a, p, ks, cs) ==> internal_page(b, p, ks, cs)
}

/// A leaf that was written with the same entries is the same node.
pub proof fn lemma_same_leaf(a: Pages, b: Pages, p: PageId, es: Seq<Entry>)
    requires
        leaf_page(a, p, es),
        leaf_page(b, p, es),
    ensures
        same_node(a, b, p),
{
    assert forall|x: Seq<Entry>| #[trigger] leaf_page(a, p, x) implies leaf_page(b, p, x) by {
        lemma_leaf_body_unique(body_at(a, p), x, es);
    }
}

/// Where its pages hold the same nodes, the tree is the same.
pub proof fn lemma_shaped_on(a: Pages, b: Pages, t: Tree)
    requires
        shaped(a, t),
        forall|p: PageId| #[trigger] owns(t, p) ==> same_node(a, b, p),
    ensures
        shaped(b, t),
    decreases t,
{
    assert(owns(t, t.pid()));
    match t {
        Tree::Leaf { pid, es } => {},
        Tree::Node { pid, ks, kids } => {
            assert forall|i: int| 0 <= i < kids.len() implies shaped(b, #[trigger] kids[i]) by {
                assert forall|p: PageId| #[trigger] owns(kids[i], p) implies same_node(a, b, p) by {
                    assert(owns(t, p));
                }
                lemma_shaped_on(a, b, kids[i]);
            }
        },
    }
}

/// Every page of a tree can be had.
pub proof fn lemma_owned_pages(pages: Pages, t: Tree)
    requires
        shaped(pages, t),
    ensures
        forall|p: PageId| #[trigger] owns(t, p) ==> pages.dom().contains(p) && (type_at(pages, p)
            == PageType::BTreeLeaf.byte() || type_at(pages, p) == PageType::BTreeInternal.byte()),
    decreases t,
{
    match t {
        Tree::Leaf { pid, es } => {},
        Tree::Node { pid, ks, kids } => {
            assert forall|p: PageId| #[trigger] owns(t, p) implies pages.dom().contains(p) && (
            type_at(pages, p) == PageType::BTreeLeaf.byte() || type_at(pages, p)
                == PageType::BTreeInternal.byte()) by {
                if p != pid {
                    let i = choose|i: int| 0 <= i < kids.len() && owns(#[trigger] kids[i], p);
                    lemma_owned_pages(pages, kids[i]);
                }
            }
        },
    }
}

/// The pages of a file hold at most one tree under a given root.
pub proof fn law_pages_determine_the_tree(pages: Pages, s: Tree, t: Tree)
    requires
        shaped(pages, s),
        shaped(pages, t),
        s.pid() == t.pid(),
    ensures
        s == t,
    decreases s,
{
    let p = s.pid();
    match s {
        Tree::Leaf { pid, es } => {
            assert(t is Leaf);
            lemma_leaf_body_unique(body_at(pages, p), es, t->es);
        },
        Tree::Node { pid, ks, kids } => {
            assert(t is Node);
            let other = t->kids;
            lemma_internal_body_unique(
                body_at(pages, p),
                ks,
                kid_pids(kids),
                t->ks,
                kid_pids(other),
            );
            assert(kid_pids(kids).len() == kids.len());
            assert(kid_pids(other).len() == other.len());
            assert forall|i: int| 0 <= i < kids.len() implies kids[i] == other[i] by {
                assert(kid_pids(kids)[i] == kid_pids(other)[i]);
                law_pages_determine_the_tree(pages, kids[i], other[i]);
            }
            assert(kids =~= other);
        },
    }
}

} // verus!
