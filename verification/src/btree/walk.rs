//! Walking the leaves of a B-tree, and making and opening one.

use vstd::prelude::*;

use crate::btree::node::{
    ascending, lemma_child_of, lemma_internal_body_unique, plain, rank, within, Entry, Leaf, Node,
    NIL,
};
use crate::btree::tree::{
    before_child, body_at, concat, flat, high_of, id_at, kid_pids, law_pages_determine_the_tree,
    leaf_ids, leaves, leaves_to, lemma_child_decides, lemma_concat_add, lemma_leaf_owned,
    lemma_leaves_around, lemma_one_leaf, lemma_ordered_flat, lemma_rank_finds, linked_at, low_of,
    ordered, owns, shaped, tree_ok, LeafOf, Tree,
};
use crate::btree::{
    alloc_node, lemma_kept_trans, lemma_meta_written, lemma_shaped_kept, lemma_stored,
    lemma_tree_chain, lemma_tree_kept, load, load_leaf, named_root, store_leaf, BTree, BtreeError,
};
use crate::buffer::PageId;
use crate::bytes::{bytes_lt, copy_bytes, lemma_lex_total, lex_le, lex_lt};
use crate::heap::Rid;
use crate::page::raw;
use crate::page::PageType;
use crate::pager::{holds_out, kept, Pager};

verus! {

/// The entries from `lo` on and below `hi`.
pub open spec fn between(es: Seq<Entry>, lo: Seq<u8>, hi: Option<Seq<u8>>) -> Seq<Entry> {
    let from = rank(es, lo);
    let to = match hi {
        Some(h) => rank(es, h),
        None => es.len() as int,
    };
    es.subrange(
        from,
        if to < from {
            from
        } else {
            to
        },
    )
}

/// A range holds exactly the entries whose keys lie in it, in order.
pub proof fn law_range_is_exact(es: Seq<Entry>, lo: Seq<u8>, hi: Option<Seq<u8>>)
    requires
        ascending(es),
    ensures
        ascending(between(es, lo, hi)),
        forall|i: int|
            0 <= i < between(es, lo, hi).len() ==> within(
                (#[trigger] between(es, lo, hi)[i]).0,
                Some(lo),
                hi,
            ) && es.contains(between(es, lo, hi)[i]),
        forall|i: int|
            0 <= i < es.len() && within((#[trigger] es[i]).0, Some(lo), hi) ==> between(
                es,
                lo,
                hi,
            ).contains(es[i]),
{
    lemma_rank_finds(es, lo);
    if hi is Some {
        lemma_rank_finds(es, hi->0);
    }
    let from = rank(es, lo);
    let r = between(es, lo, hi);
    assert forall|i: int| 0 <= i < r.len() implies within((#[trigger] r[i]).0, Some(lo), hi)
        && es.contains(r[i]) by {
        assert(r[i] == es[from + i]);
    }
    assert forall|i: int| 0 <= i < es.len() && within((#[trigger] es[i]).0, Some(lo), hi) implies r.contains(
        es[i],
    ) by {
        if i < from {
            assert(lex_lt(es[i].0, lo));
        }
        if hi is Some && i >= rank(es, hi->0) {
            assert(lex_le(hi->0, es[i].0));
        }
        assert(r[i - from] == es[i]);
    }
    assert forall|i: int, j: int| 0 <= i < j < r.len() implies lex_lt(
        (#[trigger] r[i]).0,
        (#[trigger] r[j]).0,
    ) by {
        assert(r[i] == es[from + i] && r[j] == es[from + j]);
        assert(lex_lt(es[from + i].0, es[from + j].0));
    }
}

/// The leaves of a subtree stand together among those of the tree.
pub open spec fn part_of(ls: Seq<LeafOf>, at: int, sub: Seq<LeafOf>) -> bool {
    &&& 0 <= at
    &&& at + sub.len() <= ls.len()
    &&& ls.subrange(at, at + sub.len()) == sub
}

/// The leaves of child `i` of a subtree.
proof fn lemma_part(ls: Seq<LeafOf>, at: int, t: Tree, i: int)
    requires
        t is Node,
        part_of(ls, at, leaves(t)),
        0 <= i < t->kids.len(),
    ensures
        part_of(ls, at + leaves_to(t->kids, i).len() as int, leaves(t->kids[i])),
        concat(ls.take(at + leaves_to(t->kids, i).len() as int)) == concat(ls.take(at))
            + before_child(t->kids, i),
{
    let kids = t->kids;
    lemma_leaves_around(kids, i);
    let before = leaves_to(kids, i);
    let n = leaves(t).len() as int;
    let sub = ls.subrange(at, at + n);
    let at2 = at + before.len() as int;
    let k = leaves(kids[i]);
    assert forall|j: int| 0 <= j < k.len() implies ls[at2 + j] == k[j] by {
        assert(sub[before.len() + j] == leaves(t)[before.len() + j]);
    }
    assert(ls.subrange(at2, at2 + k.len()) =~= k);
    assert(ls.take(at2) =~= ls.take(at) + before) by {
        assert forall|j: int| 0 <= j < before.len() implies ls[at + j] == before[j] by {
            assert(sub[j] == leaves(t)[j]);
        }
    }
    lemma_concat_add(ls.take(at), before);
}

/// The first leaf of the tree under `root`.
pub(crate) fn leftmost_leaf<P: Pager>(
    bp: &mut P,
    root: PageId,
    Ghost(t): Ghost<Tree>,
) -> (r: Result<PageId, BtreeError>)
    requires
        old(bp).pager_ok(),
        shaped(old(bp).pages(), t),
        t.pid() == root,
    ensures
        final(bp).pager_ok(),
        kept(old(bp).pages(), final(bp).pages()),
        final(bp).count() == old(bp).count(),
        forall|p: PageId| #[trigger] old(bp).lost(p) ==> final(bp).lost(p),
        final(bp).reach() == old(bp).reach(),
        match r {
            Ok(p) => leaves(t).len() > 0 && p == leaves(t)[0].0,
            Err(e) => e is Buffer && !holds_out(old(bp), 0),
        },
{
    let ghost a = bp.pages();
    let ghost ls = leaves(t);
    let mut pid: PageId = root;
    let ghost mut cur: Tree = t;
    assert(ls.subrange(0, ls.len() as int) =~= ls);
    loop
        invariant
            bp.pager_ok(),
            ls == leaves(t),
            a == old(bp).pages(),
            kept(a, bp.pages()),
            forall|p: PageId| #[trigger] old(bp).lost(p) ==> bp.lost(p),
            bp.count() == old(bp).count(),
            bp.reach() == old(bp).reach(),
            cur.pid() == pid,
            shaped(bp.pages(), cur),
            part_of(ls, 0, leaves(cur)),
        decreases cur,
    {
        let ghost m = bp.pages();
        let node: Node = match load(bp, pid) {
            Ok(n) => n,
            Err(e) => {
                proof {
                    lemma_kept_trans(a, m, bp.pages());
                }
                return Err(e);
            },
        };
        proof {
            lemma_kept_trans(a, m, bp.pages());
            lemma_shaped_kept(m, bp.pages(), cur);
        }
        match node {
            Node::Leaf(_) => {
                proof {
                    assert(cur is Leaf);
                    assert(ls.subrange(0, 1)[0] == ls[0]);
                }
                return Ok(pid);
            },
            Node::Internal(node) => {
                proof {
                    assert(cur is Node);
                    lemma_internal_body_unique(
                        body_at(m, pid),
                        node.ks(),
                        node.children@,
                        cur->ks,
                        kid_pids(cur->kids),
                    );
                    let kids = cur->kids;
                    assert(kid_pids(kids).len() == kids.len());
                    lemma_part(ls, 0, cur, 0);
                    assert(leaves_to(kids, 0).len() == 0);
                    assert(kid_pids(kids)[0] == kids[0].pid());
                    assert(shaped(bp.pages(), kids[0]));
                    assert(decreases_to!(cur => kids));
                    cur = kids[0];
                }
                pid = node.children[0];
            },
        }
    }
}

impl BTree {
    /// The leaf that `key` belongs to, and its place among the leaves.
    fn find_leaf<P: Pager>(&self, bp: &mut P, key: &[u8]) -> (r: Result<
        (PageId, Ghost<int>),
        BtreeError,
    >)
        requires
            self.ok(old(bp)),
        ensures
            self.ok(final(bp)),
            kept(old(bp).pages(), final(bp).pages()),
            final(bp).count() == old(bp).count(),
            final(bp).reach() == old(bp).reach(),
            match r {
                Ok((p, k)) => {
                    let ls = leaves(self.tree@);
                    &&& 0 <= k@ < ls.len()
                    &&& p == ls[k@].0
                    &&& forall|i: int|
                        0 <= i < concat(ls.take(k@)).len() ==> lex_lt(
                            (#[trigger] concat(ls.take(k@))[i]).0,
                            key@,
                        )
                },
                Err(e) => e is Buffer && !holds_out(old(bp), 0),
            },
    {
        let ghost a = bp.pages();
        let ghost t = self.tree@;
        let ghost ls = leaves(t);
        let mut pid: PageId = self.root;
        let ghost mut cur: Tree = t;
        let ghost mut at: int = 0;
        let ghost mut low: Option<Seq<u8>> = None;
        let ghost mut high: Option<Seq<u8>> = None;
        assert(ls.subrange(0, ls.len() as int) =~= ls);
        loop
            invariant
                self.ok(bp),
                t == self.tree@,
                ls == leaves(t),
                a == old(bp).pages(),
                kept(a, bp.pages()),
                bp.count() == old(bp).count(),
                bp.reach() == old(bp).reach(),
                cur.pid() == pid,
                shaped(bp.pages(), cur),
                ordered(cur, low, high),
                part_of(ls, at, leaves(cur)),
                forall|i: int|
                    0 <= i < concat(ls.take(at)).len() ==> lex_lt(
                        (#[trigger] concat(ls.take(at))[i]).0,
                        key@,
                    ),
            decreases cur,
        {
            let ghost m = bp.pages();
            let node: Node = match load(bp, pid) {
                Ok(n) => n,
                Err(e) => {
                    proof {
                        lemma_tree_kept(m, bp.pages(), t);
                        lemma_kept_trans(a, m, bp.pages());
                    }
                    return Err(e);
                },
            };
            proof {
                lemma_tree_kept(m, bp.pages(), t);
                lemma_kept_trans(a, m, bp.pages());
                lemma_shaped_kept(m, bp.pages(), cur);
            }
            match node {
                Node::Leaf(_) => {
                    proof {
                        assert(cur is Leaf);
                        assert(ls.subrange(at, at + 1)[0] == ls[at]);
                    }
                    return Ok((pid, Ghost(at)));
                },
                Node::Internal(node) => {
                    proof {
                        assert(cur is Node);
                        lemma_internal_body_unique(
                            body_at(m, pid),
                            node.ks(),
                            node.children@,
                            cur->ks,
                            kid_pids(cur->kids),
                        );
                        lemma_child_of(node.ks(), key@);
                    }
                    let i: usize = node.child_index(key);
                    proof {
                        let ks = cur->ks;
                        let kids = cur->kids;
                        lemma_child_decides(cur, low, high, key@);
                        lemma_part(ls, at, cur, i as int);
                        assert(kid_pids(kids)[i as int] == kids[i as int].pid());
                        assert(ordered(
                            kids[i as int],
                            low_of(ks, i as int, low),
                            high_of(ks, i as int, high),
                        ));
                        assert(shaped(bp.pages(), kids[i as int]));
                        let at2 = at + leaves_to(kids, i as int).len() as int;
                        let x = concat(ls.take(at));
                        let y = before_child(kids, i as int);
                        assert forall|j: int| 0 <= j < concat(ls.take(at2)).len() implies lex_lt(
                            (#[trigger] concat(ls.take(at2))[j]).0,
                            key@,
                        ) by {
                            if j < x.len() {
                                assert(concat(ls.take(at2))[j] == x[j]);
                            } else {
                                assert(concat(ls.take(at2))[j] == y[j - x.len()]);
                            }
                        }
                        low = low_of(ks, i as int, low);
                        high = high_of(ks, i as int, high);
                        assert(decreases_to!(cur => kids));
                        at = at2;
                        cur = kids[i as int];
                    }
                    pid = node.children[i];
                },
            }
        }
    }

    /// The entries with keys from `lo` on and, where `hi` is given, below it.
    #[verifier::rlimit(40)]
    pub fn range<P: Pager>(&self, bp: &mut P, lo: &[u8], hi: Option<&[u8]>) -> (r: Result<
        Vec<(Vec<u8>, Rid)>,
        BtreeError,
    >)
        requires
            self.ok(old(bp)),
        ensures
            self.ok(final(bp)),
            kept(old(bp).pages(), final(bp).pages()),
            final(bp).count() == old(bp).count(),
            final(bp).reach() == old(bp).reach(),
            match r {
                Ok(v) => plain(v@) == between(
                    flat(self.tree@),
                    lo@,
                    match hi {
                        Some(h) => Some(h@),
                        None => None,
                    },
                ),
                Err(e) => e is Buffer && !holds_out(old(bp), 0),
            },
    {
        let ghost a = bp.pages();
        let ghost t = self.tree@;
        let ghost ls = leaves(t);
        let ghost es = flat(t);
        let ghost from = rank(es, lo@);
        let ghost top: Option<Seq<u8>> = match hi {
            Some(h) => Some(h@),
            None => None,
        };
        proof {
            lemma_ordered_flat(t, None, None);
            lemma_rank_finds(es, lo@);
        }
        let mut out: Vec<(Vec<u8>, Rid)> = Vec::new();
        let (first, at): (PageId, Ghost<int>) = match self.find_leaf(bp, lo) {
            Ok(x) => x,
            Err(e) => {
                return Err(e);
            },
        };
        let mut cur: PageId = first;
        let ghost mut k: int = at@;
        let ghost mut n: int = concat(ls.take(k)).len() as int;
        proof {
            lemma_prefix(ls, k);
            bp.lemma_pages();
            lemma_tree_chain(bp.pages(), t);
            if n > from {
                assert(concat(ls.take(k))[from] == es[from]);
                assert(lex_lt(es[from].0, lo@));
            }
            assert(plain(out@) =~= Seq::<Entry>::empty());
        }
        while cur != NIL
            invariant
                self.ok(bp),
                t == self.tree@,
                ls == leaves(t),
                es == flat(t),
                ascending(es),
                a == old(bp).pages(),
                kept(a, bp.pages()),
                bp.count() == old(bp).count(),
                bp.reach() == old(bp).reach(),
                0 <= k <= ls.len(),
                cur == id_at(leaf_ids(t), k),
                cur != NIL ==> k < ls.len(),
                n == concat(ls.take(k)).len(),
                from == rank(es, lo@),
                0 <= from <= es.len(),
                top == match hi {
                    Some(h) => Some(h@),
                    None => None,
                },
                forall|j: int| 0 <= j < from ==> lex_lt((#[trigger] es[j]).0, lo@),
                forall|j: int| from <= j < es.len() ==> lex_le(lo@, (#[trigger] es[j]).0),
                forall|j: int|
                    from <= j < n && top is Some ==> lex_lt((#[trigger] es[j]).0, top->0),
                n <= es.len(),
                plain(out@) == if n < from {
                    Seq::empty()
                } else {
                    es.subrange(from, n)
                },
            decreases ls.len() - k,
        {
            let ghost m = bp.pages();
            proof {
                lemma_leaf_owned(m, t, k);
                lemma_prefix(ls, k);
                lemma_prefix(ls, k + 1);
                assert(linked_at(m, leaf_ids(t), k));
            }
            let leaf: Leaf = match load_leaf(bp, cur, Ghost(ls[k].1)) {
                Ok(l) => l,
                Err(e) => {
                    proof {
                        lemma_tree_kept(m, bp.pages(), t);
                        lemma_kept_trans(a, m, bp.pages());
                    }
                    return Err(e);
                },
            };
            proof {
                lemma_tree_kept(m, bp.pages(), t);
                lemma_kept_trans(a, m, bp.pages());
                assert(ls.take(k + 1).drop_last() =~= ls.take(k));
                let upto = concat(ls.take(k + 1));
                assert(upto == concat(ls.take(k)) + ls[k].1);
                assert forall|x: int| 0 <= x < leaf.es().len() implies es[n + x]
                    == #[trigger] leaf.es()[x] by {
                    assert(upto[n + x] == ls[k].1[x]);
                }
            }
            let count: usize = leaf.entries.len();
            let mut j: usize = 0;
            while j < count
                invariant
                    j <= count == leaf.entries@.len(),
                    leaf.es() == ls[k].1,
                    self.ok(bp),
                    kept(old(bp).pages(), bp.pages()),
                    bp.count() == old(bp).count(),
                    bp.reach() == old(bp).reach(),
                    t == self.tree@,
                    es == flat(t),
                    ascending(es),
                    n + count <= es.len(),
                    0 <= n,
                    forall|x: int| 0 <= x < count ==> es[n + x] == #[trigger] leaf.es()[x],
                    from == rank(es, lo@),
                    0 <= from <= es.len(),
                    top == match hi {
                        Some(h) => Some(h@),
                        None => None,
                    },
                    forall|j: int| 0 <= j < from ==> lex_lt((#[trigger] es[j]).0, lo@),
                    forall|j: int| from <= j < es.len() ==> lex_le(lo@, (#[trigger] es[j]).0),
                    forall|x: int|
                        from <= x < n + j && top is Some ==> lex_lt((#[trigger] es[x]).0, top->0),
                    plain(out@) == if n + j < from {
                        Seq::empty()
                    } else {
                        es.subrange(from, n + j)
                    },
                decreases count - j,
            {
                let ghost x = n + j;
                assert(es[x] == leaf.es()[j as int]);
                let key: &Vec<u8> = &leaf.entries[j].0;
                if !bytes_lt(key.as_slice(), lo) {
                    assert(x >= from) by {
                        if x < from {
                            assert(lex_lt(es[x].0, lo@));
                        }
                    }
                    if let Some(h) = hi {
                        if !bytes_lt(key.as_slice(), h) {
                            proof {
                                lemma_stop(es, lo@, h@, x);
                            }
                            return Ok(out);
                        }
                    }
                    let ghost before = out@;
                    let copied: Vec<u8> = copy_bytes(key.as_slice());
                    out.push((copied, leaf.entries[j].1));
                    proof {
                        assert(plain(out@) =~= plain(before).push(es[x]));
                        assert(es.subrange(from, x + 1) =~= es.subrange(from, x).push(es[x]));
                    }
                } else {
                    assert(x < from) by {
                        if x >= from {
                            assert(lex_le(lo@, es[x].0));
                        }
                    }
                    assert(x + 1 == from ==> es.subrange(from, x + 1) =~= Seq::<Entry>::empty());
                }
                j = j + 1;
            }
            cur = leaf.next;
            proof {
                bp.lemma_pages();
                lemma_tree_chain(bp.pages(), t);
                if k + 1 < ls.len() {
                    lemma_leaf_owned(bp.pages(), t, k + 1);
                }
                n = n + count;
                k = k + 1;
            }
        }
        proof {
            if k < ls.len() {
                lemma_leaf_owned(bp.pages(), t, k);
                bp.lemma_pages();
            }
            assert(ls.take(k) =~= ls);
            if top is Some {
                if rank(es, top->0) < es.len() {
                    lemma_rank_finds(es, top->0);
                    let r = rank(es, top->0);
                    if r >= from {
                        assert(lex_lt(es[r].0, top->0));
                    }
                } else {
                    lemma_rank_finds(es, top->0);
                }
                if rank(es, top->0) < from && from < es.len() {
                    lemma_rank_finds(es, top->0);
                    assert(lex_lt(es[from].0, top->0));
                    assert(lex_lt(top->0, es[from].0));
                    lemma_lex_total(top->0, es[from].0);
                }
            }
        }
        Ok(out)
    }

    /// All entries in key order.
    pub fn scan_all<P: Pager>(&self, bp: &mut P) -> (r: Result<Vec<(Vec<u8>, Rid)>, BtreeError>)
        requires
            self.ok(old(bp)),
        ensures
            self.ok(final(bp)),
            kept(old(bp).pages(), final(bp).pages()),
            final(bp).count() == old(bp).count(),
            final(bp).reach() == old(bp).reach(),
            match r {
                Ok(v) => plain(v@) == flat(self.tree@) && ascending(plain(v@)),
                Err(e) => e is Buffer && !holds_out(old(bp), 0),
            },
    {
        let ghost a = bp.pages();
        let ghost t = self.tree@;
        let ghost ls = leaves(t);
        let mut out: Vec<(Vec<u8>, Rid)> = Vec::new();
        let mut cur: PageId = match leftmost_leaf(bp, self.root, Ghost(t)) {
            Ok(p) => p,
            Err(e) => {
                proof {
                    lemma_tree_kept(a, bp.pages(), t);
                }
                return Err(e);
            },
        };
        let ghost mut k: int = 0;
        proof {
            lemma_tree_kept(a, bp.pages(), t);
            bp.lemma_pages();
            lemma_leaf_owned(bp.pages(), t, 0);
            assert(ls.take(0) =~= Seq::<LeafOf>::empty());
            assert(plain(out@) =~= concat(ls.take(0)));
        }
        while cur != NIL
            invariant
                self.ok(bp),
                t == self.tree@,
                ls == leaves(t),
                a == old(bp).pages(),
                kept(a, bp.pages()),
                bp.count() == old(bp).count(),
                bp.reach() == old(bp).reach(),
                0 <= k <= ls.len(),
                cur == id_at(leaf_ids(t), k),
                plain(out@) == concat(ls.take(k)),
            decreases ls.len() - k,
        {
            let ghost m = bp.pages();
            proof {
                lemma_leaf_owned(m, t, k);
                assert(linked_at(m, leaf_ids(t), k));
                assert(ls.take(k + 1).drop_last() =~= ls.take(k));
            }
            let leaf: Leaf = match load_leaf(bp, cur, Ghost(ls[k].1)) {
                Ok(l) => l,
                Err(e) => {
                    proof {
                        lemma_tree_kept(m, bp.pages(), t);
                        lemma_kept_trans(a, m, bp.pages());
                    }
                    return Err(e);
                },
            };
            proof {
                lemma_tree_kept(m, bp.pages(), t);
                lemma_kept_trans(a, m, bp.pages());
            }
            let ghost start = plain(out@);
            append_entries(&mut out, &leaf.entries);
            assert(plain(out@) =~= start + ls[k].1);
            cur = leaf.next;
            proof {
                k = k + 1;
            }
        }
        proof {
            if k < ls.len() {
                lemma_leaf_owned(bp.pages(), t, k);
                bp.lemma_pages();
            }
            assert(ls.take(k) =~= ls);
            lemma_ordered_flat(t, None, None);
        }
        Ok(out)
    }

    /// A tree without entries, on a file without pages: page 0 names the root.
    pub fn create<P: Pager>(bp: &mut P) -> (r: Result<BTree, BtreeError>)
        requires
            old(bp).pager_ok(),
            old(bp).count() == 0,
        ensures
            final(bp).pager_ok(),
            final(bp).reach() == old(bp).reach(),
            match r {
                Ok(b) => {
                    &&& b.ok(final(bp))
                    &&& b.meta == Some(0u32)
                    &&& b.root == 1
                    &&& b@.entries == Map::<Seq<u8>, Rid>::empty()
                    &&& final(bp).count() == 2
                },
                Err(e) => e is Buffer && !holds_out(old(bp), 2),
            },
    {
        let meta: PageId = match alloc_node(bp, PageType::Meta) {
            Ok(p) => p,
            Err(e) => {
                return Err(e);
            },
        };
        let ghost a = bp.pages();
        let b: BTree = match BTree::create_rooted(bp) {
            Ok(b) => b,
            Err(e) => {
                return Err(e);
            },
        };
        let ghost m = bp.pages();
        let r: BTree = BTree { root: b.root, meta: Some(meta), tree: b.tree };
        assert(a.dom().contains(meta));
        assert(m.dom().contains(meta));
        match r.write_meta_root(bp, r.root) {
            Ok(()) => {
                proof {
                    lemma_meta_written(m, bp.pages(), b.tree@, meta);
                }
                Ok(r)
            },
            Err(e) => Err(e),
        }
    }

    /// The tree whose root page 0 names.
    pub fn open<P: Pager>(bp: &mut P) -> (r: Result<BTree, BtreeError>)
        requires
            old(bp).pager_ok(),
        ensures
            final(bp).pager_ok(),
            kept(old(bp).pages(), final(bp).pages()),
            final(bp).count() == old(bp).count(),
            final(bp).reach() == old(bp).reach(),
            match r {
                Ok(b) => {
                    &&& final(bp).pages().dom().contains(0)
                    &&& b.root == named_root(final(bp).pages(), 0)
                    &&& b.meta == Some(0u32)
                    &&& forall|t: Tree| #[trigger]
                        tree_ok(old(bp).pages(), t) && t.pid() == b.root && !owns(t, 0)
                            ==> b.ok(final(bp)) && b.tree@ == t
                },
                Err(e) => e is Buffer && !(holds_out(old(bp), 0) && old(bp).pages().dom().contains(0)),
            },
    {
        let ghost a = bp.pages();
        let page: Vec<u8> = match bp.read_page(0) {
            Ok(p) => p,
            Err(e) => {
                return Err(BtreeError::Buffer(e));
            },
        };
        let word: u64 = raw::extra(page.as_slice());
        let root: PageId = (word % 0x1_0000_0000) as u32;
        let ghost tree = choose|t: Tree|
            tree_ok(bp.pages(), t) && t.pid() == root && !owns(t, 0);
        let b: BTree = BTree { root, meta: Some(0), tree: Ghost(tree) };
        proof {
            lemma_stored(bp.pages(), 0, page@);
            assert forall|t: Tree| #[trigger]
                tree_ok(a, t) && t.pid() == root && !owns(t, 0) implies b.ok(bp) && b.tree@ == t by {
                lemma_tree_kept(a, bp.pages(), t);
                law_pages_determine_the_tree(bp.pages(), t, tree);
            }
        }
        Ok(b)
    }

    /// A tree without entries that no page names.
    pub fn create_rooted<P: Pager>(bp: &mut P) -> (r: Result<BTree, BtreeError>)
        requires
            old(bp).pager_ok(),
            old(bp).count() < u32::MAX,
        ensures
            final(bp).pager_ok(),
            final(bp).reach() == old(bp).reach(),
            kept(old(bp).pages(), final(bp).pages()),
            match r {
                Ok(b) => {
                    &&& b.ok(final(bp))
                    &&& b.meta is None
                    &&& b.root == old(bp).count()
                    &&& b@.entries == Map::<Seq<u8>, Rid>::empty()
                    &&& b.tree@ == (Tree::Leaf { pid: b.root, es: Seq::empty() })
                    &&& forall|p: PageId| #[trigger]
                        old(bp).pages().dom().contains(p) ==> !owns(b.tree@, p)
                    &&& final(bp).count() == old(bp).count() + 1
                },
                Err(e) => e is Buffer && !holds_out(old(bp), 1),
            },
    {
        let ghost a = bp.pages();
        let root: PageId = match alloc_node(bp, PageType::BTreeLeaf) {
            Ok(p) => p,
            Err(e) => {
                return Err(e);
            },
        };
        let ghost m = bp.pages();
        let leaf: Leaf = Leaf { entries: Vec::new(), prev: NIL, next: NIL };
        assert(leaf.es() =~= Seq::<Entry>::empty());
        match store_leaf(bp, root, &leaf) {
            Ok(()) => {},
            Err(e) => {
                proof {
                    lemma_kept_trans(a, m, bp.pages());
                }
                return Err(e);
            },
        }
        let ghost t = Tree::Leaf { pid: root, es: Seq::empty() };
        let b: BTree = BTree { root, meta: None, tree: Ghost(t) };
        proof {
            let p = bp.pages();
            assert(shaped(p, t));
            assert(leaf_ids(t) =~= seq![root]);
            assert(linked_at(p, leaf_ids(t), 0));
            lemma_one_leaf(root, Seq::empty());
            assert(b@.entries =~= Map::<Seq<u8>, Rid>::empty());
            assert forall|q: PageId| #[trigger] a.dom().contains(q) implies p.dom().contains(q)
                && p[q] == a[q] by {
                assert(m.dom().contains(q));
            }
        }
        Ok(b)
    }

    /// The tree with a given root.
    pub fn open_rooted<P: Pager>(bp: &P, root: PageId) -> (b: BTree)
        requires
            bp.pager_ok(),
        ensures
            b.root == root,
            b.meta is None,
            forall|t: Tree| #[trigger]
                tree_ok(bp.pages(), t) && t.pid() == root ==> b.ok(bp) && b.tree@ == t,
    {
        let ghost tree = choose|t: Tree| tree_ok(bp.pages(), t) && t.pid() == root;
        let b: BTree = BTree { root, meta: None, tree: Ghost(tree) };
        proof {
            assert forall|t: Tree| #[trigger] tree_ok(bp.pages(), t) && t.pid() == root implies b.ok(
                bp,
            ) && b.tree@ == t by {
                law_pages_determine_the_tree(bp.pages(), t, tree);
            }
        }
        b
    }
}

/// Append copies of all entries.
fn append_entries(out: &mut Vec<(Vec<u8>, Rid)>, more: &Vec<(Vec<u8>, Rid)>)
    ensures
        plain(final(out)@) == plain(old(out)@) + plain(more@),
{
    let n: usize = more.len();
    let mut i: usize = 0;
    let ghost start = plain(out@);
    assert(plain(out@) =~= start + plain(more@).take(0));
    while i < n
        invariant
            i <= n == more@.len(),
            plain(out@) == start + plain(more@).take(i as int),
        decreases n - i,
    {
        let ghost before = out@;
        let key: Vec<u8> = copy_bytes(more[i].0.as_slice());
        out.push((key, more[i].1));
        proof {
            assert(plain(out@) =~= plain(before).push(plain(more@)[i as int]));
            assert(plain(more@).take(i + 1) =~= plain(more@).take(i as int).push(
                plain(more@)[i as int],
            ));
            assert(plain(out@) =~= start + plain(more@).take(i + 1));
        }
        i = i + 1;
    }
    assert(plain(more@).take(n as int) =~= plain(more@));
}

/// The entries of the first leaves are the first entries.
proof fn lemma_prefix(ls: Seq<LeafOf>, k: int)
    requires
        0 <= k <= ls.len(),
    ensures
        concat(ls.take(k)).len() <= concat(ls).len(),
        forall|i: int|
            0 <= i < concat(ls.take(k)).len() ==> #[trigger] concat(ls.take(k))[i] == concat(ls)[i],
{
    assert(ls =~= ls.take(k) + ls.skip(k));
    lemma_concat_add(ls.take(k), ls.skip(k));
}

/// A walk that stops at the first key not below `hi` has reached the end of the range.
proof fn lemma_stop(es: Seq<Entry>, lo: Seq<u8>, hi: Seq<u8>, x: int)
    requires
        ascending(es),
        rank(es, lo) <= x < es.len(),
        !lex_lt(es[x].0, hi),
        forall|j: int| rank(es, lo) <= j < x ==> lex_lt((#[trigger] es[j]).0, hi),
    ensures
        between(es, lo, Some(hi)) == es.subrange(rank(es, lo), x),
{
    lemma_rank_finds(es, lo);
    lemma_rank_finds(es, hi);
    let from = rank(es, lo);
    let r = rank(es, hi);
    if r > x {
        assert(lex_lt(es[x].0, hi));
    }
    if x > from && r < x {
        assert(lex_lt(es[x - 1].0, hi));
        if r <= x - 1 {
            assert(lex_le(hi, es[x - 1].0));
        }
    }
}

} // verus!
