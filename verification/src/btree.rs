//! A B-tree of byte-string keys over a pager.
//!
//! Leaves hold the entries and are chained to their neighbours; inner nodes hold
//! separators. A node that grows past its page is split in half by bytes.

use vstd::prelude::*;

use crate::btree::grow::{
    fitting, grow, grow_fits, grown_apart, grown_keys, grown_kids, grown_leaves, lemma_child_owns,
    lemma_grow_apart, lemma_grow_leaves, lemma_grow_owns, lemma_grow_ordered,
    law_short_keys_always_fit, lemma_ordered_shape, lemma_shrink_apart, lemma_shrink_ordered,
    leaf_splits, node_splits, ordered_shape, short, shrink, split_leaf, split_node, Grown,
    SHORT_KEY,
};
use crate::btree::node::{
    child_of, entry_sizes, internal_body, internal_len, internal_ser_len, key_sizes, leaf_body,
    leaf_len, leaf_ser_len, lemma_child_of, lemma_internal_body_unique, lemma_leaf_body_unique,
    lemma_rank, lemma_sum_agrees, lemma_sum_grows, parse_internal, parse_leaf, plain, plain_keys,
    rank, search, split_at_bytes, split_point, sum_to, within, write_internal, write_leaf, Entry,
    Internal, Leaf, Node, NIL,
};
use crate::btree::tree::{
    after_child, apart, before_child, body_at, contents, cut, flat, height, high_of, ids_of,
    internal_page, kid_pids, leaf_ids, leaf_page, leaves, leaves_to, lemma_child_decides, lemma_cut,
    lemma_has_leaf, lemma_ids_distinct, lemma_leaf_owned, lemma_leaves_around, lemma_map_at,
    lemma_middle, lemma_one_leaf, lemma_ordered_flat, lemma_owned_pages, lemma_put,
    lemma_rank_finds, lemma_same_leaf, lemma_shaped_on, level, linked, linked_at, low_of,
    lower_link, next_of, ordered, owns, present, prev_of, put, same_node, shaped, tree_ok, type_at,
    upper_link, LeafOf, Tree,
};
use crate::buffer::{body_of, buffer_error_text, BufferError, PageId};
use crate::bytes::{copy_bytes, le64, zero_fill};
use crate::heap::{Pages, Rid};
use crate::page::raw::{self, BODY_CAPACITY};
use crate::page::{PageType, PAGE_SIZE};
use crate::pager::{full, holds_out, kept, lemma_full, page_swapped, Pager};
use crate::text::{around, decimal};

pub mod check;
pub mod grow;
pub mod node;
pub mod roomy;
pub mod tree;
pub mod walk;

verus! {

#[derive(Clone, Copy, Debug, PartialEq, Eq, Structural)]
pub enum BtreeError {
    Buffer(BufferError),
    BadNode(PageId),
    KeyTooLarge,
}

/// The text of an error, where `io` is what the file says of its own failure.
pub open spec fn btree_error_text(e: BtreeError, io: Seq<char>) -> Seq<char> {
    match e {
        BtreeError::Buffer(b) => buffer_error_text(b, io),
        BtreeError::BadNode(p) => "page "@ + decimal(p as nat) + " is not a B-tree node"@,
        BtreeError::KeyTooLarge => "entry too large for a node"@,
    }
}

impl BtreeError {
    /// The text of the error, where `io` is what the file says of its own failure.
    pub fn text(&self, io: &str) -> (t: String)
        ensures
            t@ == btree_error_text(*self, io@),
    {
        match self {
            BtreeError::Buffer(b) => b.text(io),
            BtreeError::BadNode(p) => around("page ", *p, " is not a B-tree node"),
            BtreeError::KeyTooLarge => "entry too large for a node".to_owned(),
        }
    }
}

/// The longest key that an otherwise empty leaf can hold.
pub const MAX_KEY: usize = 8150;

/// Page `p` holds a whole node, or something that is no node.
pub open spec fn readable_node(pages: Pages, p: PageId) -> bool {
    &&& pages.dom().contains(p)
    &&& type_at(pages, p) == PageType::BTreeLeaf.byte() ==> exists|es: Seq<Entry>|
        leaf_body(body_at(pages, p), es)
    &&& type_at(pages, p) == PageType::BTreeInternal.byte() ==> exists|
        ks: Seq<Seq<u8>>,
        cs: Seq<PageId>,
    |
        internal_body(body_at(pages, p), ks, cs)
}

/// A node as it stands on page `p`.
pub open spec fn node_at(pages: Pages, p: PageId, n: Node) -> bool {
    match n {
        Node::Leaf(l) => {
            &&& leaf_page(pages, p, l.es())
            &&& l.prev == prev_of(pages, p)
            &&& l.next == next_of(pages, p)
        },
        Node::Internal(n) => internal_page(pages, p, n.ks(), n.children@),
    }
}

/// Every page of `a` but `p` is one of `b`, as it was, and `b` has `p`.
pub open spec fn wrote(a: Pages, b: Pages, p: PageId) -> bool {
    &&& b.dom().contains(p)
    &&& forall|q: PageId| #[trigger] a.dom().contains(q) && q != p ==> b.dom().contains(q) && b[q] == a[q]
}

/// Read the node on page `pid`.
pub fn load<P: Pager>(bp: &mut P, pid: PageId) -> (r: Result<Node, BtreeError>)
    requires
        old(bp).pager_ok(),
        readable_node(old(bp).pages(), pid) || old(bp).lost(pid),
    ensures
        final(bp).pager_ok(),
        final(bp).count() == old(bp).count(),
        final(bp).reach() == old(bp).reach(),
        kept(old(bp).pages(), final(bp).pages()),
        match r {
            Ok(n) => node_at(old(bp).pages(), pid, n),
            Err(BtreeError::BadNode(p)) => {
                &&& p == pid
                &&& old(bp).pages().dom().contains(pid)
                &&& type_at(old(bp).pages(), pid) != PageType::BTreeLeaf.byte()
                &&& type_at(old(bp).pages(), pid) != PageType::BTreeInternal.byte()
            },
            Err(BtreeError::Buffer(_)) => !holds_out(old(bp), 0) || old(bp).lost(pid)
                && !old(bp).pages().dom().contains(pid),
            Err(BtreeError::KeyTooLarge) => false,
        },
        r is Ok ==> !old(bp).lost(pid),
        forall|p: PageId| #[trigger] old(bp).lost(p) ==> final(bp).lost(p),
{
    let ghost a = bp.pages();
    proof {
        bp.lemma_pages();
    }
    let bytes: Vec<u8> = match bp.read_page(pid) {
        Ok(b) => b,
        Err(e) => {
            return Err(BtreeError::Buffer(e));
        },
    };
    proof {
        lemma_full(bytes@);
        assert(full(a[pid]).subrange(32, PAGE_SIZE as int) =~= bytes@.subrange(
            32,
            PAGE_SIZE as int,
        ));
        assert(full(a[pid])[14] == bytes@[14]);
        assert(le64(full(a[pid]), 24) == le64(bytes@, 24)) by {
            assert(forall|i: int| 24 <= i < 32 ==> full(a[pid])[i] == bytes@[i]);
        }
        reveal(upper_link);
        reveal(lower_link);
    }
    let extra: u64 = raw::extra(bytes.as_slice());
    match raw::page_type(bytes.as_slice()) {
        Some(PageType::BTreeLeaf) => {
            let body: &[u8] = raw::body(bytes.as_slice());
            assert(body@ == body_at(a, pid));
            Ok(Node::Leaf(parse_leaf(body, extra)))
        },
        Some(PageType::BTreeInternal) => {
            let body: &[u8] = raw::body(bytes.as_slice());
            assert(body@ == body_at(a, pid));
            Ok(Node::Internal(parse_internal(body)))
        },
        _ => Err(BtreeError::BadNode(pid)),
    }
}

/// Read the leaf on page `pid`.
fn load_leaf<P: Pager>(bp: &mut P, pid: PageId, Ghost(es): Ghost<Seq<Entry>>) -> (r: Result<
    Leaf,
    BtreeError,
>)
    requires
        old(bp).pager_ok(),
        leaf_page(old(bp).pages(), pid, es),
    ensures
        final(bp).pager_ok(),
        final(bp).count() == old(bp).count(),
        final(bp).reach() == old(bp).reach(),
        kept(old(bp).pages(), final(bp).pages()),
        match r {
            Ok(l) => {
                &&& l.es() == es
                &&& l.prev == prev_of(old(bp).pages(), pid)
                &&& l.next == next_of(old(bp).pages(), pid)
            },
            Err(e) => e is Buffer && !holds_out(old(bp), 0),
        },
{
    let ghost a = bp.pages();
    match load(bp, pid) {
        Ok(Node::Leaf(l)) => {
            proof {
                lemma_leaf_body_unique(body_at(a, pid), l.es(), es);
            }
            Ok(l)
        },
        Ok(Node::Internal(_)) => Err(BtreeError::BadNode(pid)),
        Err(e) => Err(e),
    }
}

/// Sizes that sum to no more than a page are few and small.
proof fn lemma_leaf_small(es: Seq<Entry>)
    requires
        leaf_len(es) <= BODY_CAPACITY,
    ensures
        es.len() <= 1020,
        forall|i: int| 0 <= i < es.len() ==> (#[trigger] es[i]).0.len() <= MAX_KEY,
{
    let s = entry_sizes(es);
    lemma_count(s, es.len() as int, 8);
    assert forall|i: int| 0 <= i < es.len() implies (#[trigger] es[i]).0.len() <= MAX_KEY by {
        lemma_sum_grows(s, i, es.len() as int);
        assert(s[i] == 8 + es[i].0.len());
    }
}

proof fn lemma_node_small(ks: Seq<Seq<u8>>)
    requires
        internal_len(ks) <= BODY_CAPACITY,
    ensures
        ks.len() <= 1360,
        forall|i: int| 0 <= i < ks.len() ==> (#[trigger] ks[i]).len() <= MAX_KEY,
{
    let s = key_sizes(ks);
    lemma_count(s, ks.len() as int, 6);
    assert forall|i: int| 0 <= i < ks.len() implies (#[trigger] ks[i]).len() <= MAX_KEY by {
        lemma_sum_grows(s, i, ks.len() as int);
        assert(s[i] == 6 + ks[i].len());
    }
}

proof fn lemma_count(s: Seq<int>, n: int, least: int)
    requires
        0 <= n <= s.len(),
        forall|i: int| 0 <= i < s.len() ==> (#[trigger] s[i]) >= least,
    ensures
        sum_to(s, n) >= n * least,
    decreases n,
{
    if n > 0 {
        lemma_count(s, n - 1, least);
        assert(n * least == (n - 1) * least + least) by (nonlinear_arith);
    } else {
        assert(n * least == 0) by (nonlinear_arith)
            requires
                n == 0,
        ;
    }
}

/// A stored leaf fits its page.
proof fn lemma_leaf_fits(pages: Pages, p: PageId, es: Seq<Entry>)
    requires
        leaf_page(pages, p, es),
        pages[p].len() == PAGE_SIZE - 4,
    ensures
        leaf_len(es) <= BODY_CAPACITY,
{
    let n = es.len() as int;
    if n > 0 {
        assert(crate::btree::node::entry_at(
            body_at(pages, p),
            2 + sum_to(entry_sizes(es), n - 1),
            es[n - 1],
        ));
    }
}

proof fn lemma_node_fits(pages: Pages, p: PageId, ks: Seq<Seq<u8>>, cs: Seq<PageId>)
    requires
        internal_page(pages, p, ks, cs),
        pages[p].len() == PAGE_SIZE - 4,
    ensures
        internal_len(ks) <= BODY_CAPACITY,
{
    let n = ks.len() as int;
    if n > 0 {
        assert(crate::btree::node::sep_at(
            body_at(pages, p),
            6 + sum_to(key_sizes(ks), n - 1),
            ks[n - 1],
            cs[(n - 1) + 1],
        ));
    }
}

/// What a stored page holds.
proof fn lemma_stored(pages: Pages, p: PageId, page: Seq<u8>)
    requires
        page.len() == PAGE_SIZE,
        pages[p] == body_of(page),
    ensures
        type_at(pages, p) == page[14],
        body_at(pages, p) == page.subrange(32, PAGE_SIZE as int),
        prev_of(pages, p) == le64(page, 24) / 0x1_0000_0000,
        next_of(pages, p) == le64(page, 24) % 0x1_0000_0000,
{
    reveal(upper_link);
    reveal(lower_link);
    lemma_full(page);
    let f = full(body_of(page));
    assert(f.subrange(32, PAGE_SIZE as int) =~= page.subrange(32, PAGE_SIZE as int));
    assert(forall|i: int| 24 <= i < 32 ==> f[i] == page[i]);
}

/// Page `pid`, which was read as `b`, holds `c`.
spec fn holds(pages: Pages, pid: PageId, b: Seq<u8>, c: Seq<u8>) -> bool {
    b.len() == PAGE_SIZE && pages[pid] == body_of(c)
}

/// Hand page `pid`, which can be had, to `f` and put what it makes of it in its place.
fn edit_page<P: Pager, G: FnOnce(Vec<u8>) -> (Vec<u8>, ())>(bp: &mut P, pid: PageId, f: G) -> (r:
    Result<(), BtreeError>)
    requires
        old(bp).pager_ok(),
        old(bp).pages().dom().contains(pid),
        forall|b: Vec<u8>| b@.len() == PAGE_SIZE ==> #[trigger] f.requires((b,)),
        forall|b: Vec<u8>, c: Vec<u8>, t: ()| #[trigger]
            f.ensures((b,), (c, t)) ==> c@.len() == PAGE_SIZE,
    ensures
        final(bp).pager_ok(),
        final(bp).count() == old(bp).count(),
        final(bp).reach() == old(bp).reach(),
        match r {
            Ok(()) => wrote(old(bp).pages(), final(bp).pages(), pid) && exists|
                b: Vec<u8>,
                c: Vec<u8>,
            |
                #[trigger] holds(final(bp).pages(), pid, b@, c@) && f.ensures((b,), (c, ())),
            Err(e) => e is Buffer && !holds_out(old(bp), 0) && kept(
                old(bp).pages(),
                final(bp).pages(),
            ),
        },
{
    let ghost a = bp.pages();
    match bp.with_page_mut(pid, f) {
        Ok(t) => {
            proof {
                let (b, c): (Vec<u8>, Vec<u8>) = choose|b: Vec<u8>, c: Vec<u8>|
                    #[trigger] page_swapped(a, bp.pages(), pid, b@, c@) && f.ensures((b,), (c, t));
                let want = a.insert(pid, body_of(c@));
                assert(want.dom().contains(pid));
                assert forall|q: PageId| #[trigger] a.dom().contains(q) && q != pid implies bp.pages().dom().contains(
                    q,
                ) && bp.pages()[q] == a[q] by {
                    assert(want.dom().contains(q));
                }
                assert(holds(bp.pages(), pid, b@, c@));
            }
            Ok(())
        },
        Err(e) => Err(BtreeError::Buffer(e)),
    }
}

/// A page that holds a leaf.
spec fn is_leaf_page(page: Seq<u8>, leaf: &Leaf) -> bool {
    &&& page.len() == PAGE_SIZE
    &&& page[14] == PageType::BTreeLeaf.byte()
    &&& le64(page, 24) == leaf.prev * 0x1_0000_0000 + leaf.next
    &&& leaf_body(page.subrange(32, PAGE_SIZE as int), leaf.es())
}

/// A page that holds an inner node.
spec fn is_internal_page(page: Seq<u8>, node: &Internal) -> bool {
    &&& page.len() == PAGE_SIZE
    &&& page[14] == PageType::BTreeInternal.byte()
    &&& internal_body(page.subrange(32, PAGE_SIZE as int), node.ks(), node.children@)
}

/// Make a page a leaf.
fn format_leaf(page: &mut Vec<u8>, leaf: &Leaf)
    requires
        old(page)@.len() == PAGE_SIZE,
        leaf_len(leaf.es()) <= BODY_CAPACITY,
    ensures
        is_leaf_page(final(page)@, leaf),
{
    proof {
        lemma_leaf_small(leaf.es());
        assert forall|i: int| 0 <= i < leaf.entries@.len() implies (
        #[trigger] leaf.entries@[i]).0@.len() <= u16::MAX by {
            assert(leaf.es()[i].0.len() <= MAX_KEY);
        }
    }
    let word: u64 = leaf.prev as u64 * 0x1_0000_0000 + leaf.next as u64;
    raw::set_page_type(page.as_mut_slice(), PageType::BTreeLeaf);
    raw::set_extra(page.as_mut_slice(), word);
    let ghost head = page@;
    let ghost mut done: Seq<u8> = Seq::empty();
    {
        let body: &mut [u8] = raw::body_mut(page.as_mut_slice());
        zero_fill(body);
        write_leaf(body, leaf);
        proof {
            done = body@;
        }
    }
    proof {
        assert(page@.subrange(32, PAGE_SIZE as int) =~= done);
        assert(forall|i: int| 0 <= i < 32 ==> page@[i] == head[i]);
    }
}

/// Make a page an inner node; its link word stays as it is.
fn format_internal(page: &mut Vec<u8>, node: &Internal)
    requires
        old(page)@.len() == PAGE_SIZE,
        internal_len(node.ks()) <= BODY_CAPACITY,
        node.children@.len() == node.keys@.len() + 1,
    ensures
        is_internal_page(final(page)@, node),
{
    proof {
        lemma_node_small(node.ks());
        assert forall|i: int| 0 <= i < node.keys@.len() implies (
        #[trigger] node.keys@[i])@.len() <= u16::MAX by {
            assert(node.ks()[i].len() <= MAX_KEY);
        }
    }
    raw::set_page_type(page.as_mut_slice(), PageType::BTreeInternal);
    let ghost head = page@;
    let ghost mut done: Seq<u8> = Seq::empty();
    {
        let body: &mut [u8] = raw::body_mut(page.as_mut_slice());
        zero_fill(body);
        write_internal(body, node);
        proof {
            done = body@;
        }
    }
    proof {
        assert(page@.subrange(32, PAGE_SIZE as int) =~= done);
        assert(page@[14] == head[14]);
    }
}

/// Write a leaf to page `pid`.
fn store_leaf<P: Pager>(bp: &mut P, pid: PageId, leaf: &Leaf) -> (r: Result<(), BtreeError>)
    requires
        old(bp).pager_ok(),
        old(bp).pages().dom().contains(pid),
        leaf_len(leaf.es()) <= BODY_CAPACITY,
    ensures
        final(bp).pager_ok(),
        final(bp).count() == old(bp).count(),
        final(bp).reach() == old(bp).reach(),
        match r {
            Ok(()) => {
                let b = final(bp).pages();
                &&& wrote(old(bp).pages(), b, pid)
                &&& leaf_page(b, pid, leaf.es())
                &&& prev_of(b, pid) == leaf.prev
                &&& next_of(b, pid) == leaf.next
            },
            Err(e) => {
                &&& e is Buffer
                &&& !holds_out(old(bp), 0)
                &&& kept(old(bp).pages(), final(bp).pages())
            },
        },
{
    let f = |b: Vec<u8>| -> (o: (Vec<u8>, ()))
        requires
            b@.len() == PAGE_SIZE,
        ensures
            is_leaf_page(o.0@, leaf),
        {
            let mut page: Vec<u8> = b;
            format_leaf(&mut page, leaf);
            (page, ())
        };
    match edit_page(bp, pid, f) {
        Ok(()) => {
            proof {
                let (b, c): (Vec<u8>, Vec<u8>) = choose|b: Vec<u8>, c: Vec<u8>|
                    #[trigger] holds(bp.pages(), pid, b@, c@) && f.ensures((b,), (c, ()));
                lemma_stored(bp.pages(), pid, c@);
            }
            Ok(())
        },
        Err(e) => Err(e),
    }
}

/// Write an inner node to page `pid`.
fn store_internal<P: Pager>(bp: &mut P, pid: PageId, node: &Internal) -> (r: Result<(), BtreeError>)
    requires
        old(bp).pager_ok(),
        old(bp).pages().dom().contains(pid),
        internal_len(node.ks()) <= BODY_CAPACITY,
        node.children@.len() == node.keys@.len() + 1,
    ensures
        final(bp).pager_ok(),
        final(bp).count() == old(bp).count(),
        final(bp).reach() == old(bp).reach(),
        match r {
            Ok(()) => {
                let b = final(bp).pages();
                &&& wrote(old(bp).pages(), b, pid)
                &&& internal_page(b, pid, node.ks(), node.children@)
            },
            Err(e) => {
                &&& e is Buffer
                &&& !holds_out(old(bp), 0)
                &&& kept(old(bp).pages(), final(bp).pages())
            },
        },
{
    let f = |b: Vec<u8>| -> (o: (Vec<u8>, ()))
        requires
            b@.len() == PAGE_SIZE,
        ensures
            is_internal_page(o.0@, node),
        {
            let mut page: Vec<u8> = b;
            format_internal(&mut page, node);
            (page, ())
        };
    match edit_page(bp, pid, f) {
        Ok(()) => {
            proof {
                let (b, c): (Vec<u8>, Vec<u8>) = choose|b: Vec<u8>, c: Vec<u8>|
                    #[trigger] holds(bp.pages(), pid, b@, c@) && f.ensures((b,), (c, ()));
                lemma_stored(bp.pages(), pid, c@);
            }
            Ok(())
        },
        Err(e) => Err(e),
    }
}

proof fn lemma_kept_trans(a: Pages, m: Pages, b: Pages)
    requires
        kept(a, m),
        kept(m, b),
    ensures
        kept(a, b),
{
    assert forall|p: PageId| #[trigger] a.dom().contains(p) implies b.dom().contains(p) && b[p]
        == a[p] by {
        assert(m.dom().contains(p));
    }
}

/// Pages that are kept hold the same tree.
proof fn lemma_tree_kept(a: Pages, b: Pages, t: Tree)
    requires
        tree_ok(a, t),
        kept(a, b),
    ensures
        tree_ok(b, t),
{
    lemma_owned_pages(a, t);
    lemma_tree_on(a, b, t);
}

/// A tree depends on its own pages only.
pub proof fn lemma_tree_on(a: Pages, b: Pages, t: Tree)
    requires
        tree_ok(a, t),
        forall|p: PageId| #[trigger] owns(t, p) ==> b.dom().contains(p) && b[p] == a[p],
    ensures
        tree_ok(b, t),
{
    lemma_owned_pages(a, t);
    lemma_shaped_on(a, b, t);
    let ids = leaf_ids(t);
    assert forall|i: int| 0 <= i < ids.len() implies #[trigger] linked_at(b, ids, i) by {
        lemma_leaf_owned(a, t, i);
        assert(linked_at(a, ids, i));
    }
}

/// Pages that are kept hold the same subtree.
proof fn lemma_shaped_kept(a: Pages, b: Pages, t: Tree)
    requires
        shaped(a, t),
        kept(a, b),
    ensures
        shaped(b, t),
{
    lemma_owned_pages(a, t);
    lemma_shaped_on(a, b, t);
}

/// A B-tree, and the page that names its root where there is one.
pub struct BTree {
    pub root: PageId,
    pub meta: Option<PageId>,
    pub tree: Ghost<Tree>,
}

/// The root that page `m` names.
pub open spec fn named_root(pages: Pages, m: PageId) -> int {
    lower_link(pages[m])
}

/// Where a tree begins, which page names its root, and what it holds.
#[verifier::ext_equal]
pub ghost struct BTreeView {
    pub root: PageId,
    pub meta: Option<PageId>,
    pub entries: Map<Seq<u8>, Rid>,
}

impl View for BTree {
    type V = BTreeView;

    open spec fn view(&self) -> BTreeView {
        BTreeView { root: self.root, meta: self.meta, entries: contents(self.tree@) }
    }
}

impl BTree {
    /// The pages hold a well-formed tree whose root is this one's.
    pub open spec fn ok<P: Pager>(&self, bp: &P) -> bool {
        &&& bp.pager_ok()
        &&& tree_ok(bp.pages(), self.tree@)
        &&& self.tree@.pid() == self.root
        &&& self.meta matches Some(m) ==> {
            &&& bp.pages().dom().contains(m)
            &&& !owns(self.tree@, m)
            &&& named_root(bp.pages(), m) == self.root
        }
    }

    pub fn root(&self) -> (r: PageId)
        ensures
            r == self.root,
    {
        self.root
    }

    /// The address that `key` leads to.
    pub fn get<P: Pager>(&self, bp: &mut P, key: &[u8]) -> (r: Result<Option<Rid>, BtreeError>)
        requires
            self.ok(old(bp)),
        ensures
            self.ok(final(bp)),
            kept(old(bp).pages(), final(bp).pages()),
            final(bp).count() == old(bp).count(),
            final(bp).reach() == old(bp).reach(),
            match r {
                Ok(v) => v == if self@.entries.dom().contains(key@) {
                    Some(self@.entries[key@])
                } else {
                    None
                },
                Err(e) => e is Buffer && !holds_out(old(bp), 0),
            },
    {
        let ghost a = bp.pages();
        let mut pid: PageId = self.root;
        let ghost t = self.tree@;
        let ghost mut cur: Tree = t;
        let ghost mut low: Option<Seq<u8>> = None;
        let ghost mut high: Option<Seq<u8>> = None;
        loop
            invariant
                self.ok(bp),
                t == self.tree@,
                a == old(bp).pages(),
                kept(a, bp.pages()),
                bp.count() == old(bp).count(),
                bp.reach() == old(bp).reach(),
                cur.pid() == pid,
                shaped(bp.pages(), cur),
                ordered(cur, low, high),
                present(flat(t), key@) == present(flat(cur), key@),
                present(flat(t), key@) ==> flat(t)[rank(flat(t), key@)] == flat(cur)[rank(
                    flat(cur),
                    key@,
                )],
            decreases cur,
        {
            let ghost m = bp.pages();
            let node: Node = match load(bp, pid) {
                Ok(n) => n,
                Err(e) => {
                    proof {
                        lemma_tree_kept(m, bp.pages(), t);
                        lemma_kept_trans(a, m, bp.pages());
                    }
                    return Err(e);
                },
            };
            proof {
                lemma_tree_kept(m, bp.pages(), t);
                lemma_kept_trans(a, m, bp.pages());
                lemma_shaped_kept(m, bp.pages(), cur);
            }
            match node {
                Node::Leaf(leaf) => {
                    proof {
                        assert(cur is Leaf);
                        lemma_leaf_body_unique(body_at(m, pid), leaf.es(), cur->es);
                        lemma_one_leaf(pid, cur->es);
                        lemma_ordered_flat(t, None, None);
                        lemma_rank_finds(flat(t), key@);
                    }
                    match search(&leaf.entries, key) {
                        Ok(i) => {
                            proof {
                                let r = rank(flat(t), key@);
                                assert(leaf.es()[i as int].1 == leaf.entries@[i as int].1);
                                lemma_map_at(flat(t), r);
                            }
                            return Ok(Some(leaf.entries[i].1));
                        },
                        Err(i) => {
                            return Ok(None);
                        },
                    }
                },
                Node::Internal(node) => {
                    proof {
                        assert(cur is Node);
                        lemma_internal_body_unique(
                            body_at(m, pid),
                            node.ks(),
                            node.children@,
                            cur->ks,
                            kid_pids(cur->kids),
                        );
                        lemma_child_of(node.ks(), key@);
                    }
                    let i: usize = node.child_index(key);
                    proof {
                        let ks = cur->ks;
                        let kids = cur->kids;
                        lemma_child_decides(cur, low, high, key@);
                        lemma_middle(
                            before_child(kids, i as int),
                            flat(kids[i as int]),
                            after_child(kids, i as int),
                            key@,
                            Rid { page: 0, slot: 0 },
                        );
                        assert(kid_pids(kids)[i as int] == kids[i as int].pid());
                        assert(ordered(
                            kids[i as int],
                            low_of(ks, i as int, low),
                            high_of(ks, i as int, high),
                        ));
                        assert(shaped(bp.pages(), kids[i as int]));
                        low = low_of(ks, i as int, low);
                        high = high_of(ks, i as int, high);
                        assert(decreases_to!(cur => kids));
                        cur = kids[i as int];
                    }
                    pid = node.children[i];
                },
            }
        }
    }
}

/// Page `p` holds a leaf.
pub open spec fn leafy(pages: Pages, p: PageId) -> bool {
    exists|es: Seq<Entry>| leaf_page(pages, p, es)
}

/// A chain of leaves.
pub open spec fn chained(pages: Pages, ids: Seq<PageId>) -> bool {
    &&& linked(pages, ids)
    &&& ids.no_duplicates()
    &&& forall|i: int| 0 <= i < ids.len() ==> leafy(pages, #[trigger] ids[i])
}

/// `ids` with the `n` from `at` on replaced.
pub open spec fn swapped(ids: Seq<PageId>, at: int, n: int, new: Seq<PageId>) -> Seq<PageId> {
    ids.take(at) + new + ids.skip(at + n)
}

/// The subtree `t` has grown, the chain of leaves with it, and nothing else changed.
pub open spec fn inserted(a: Pages, b: Pages, t: Tree, g: Grown, ids: Seq<PageId>, at: int) -> bool {
    &&& shaped(b, g.tree)
    &&& g.up matches Some((_, right)) ==> shaped(b, right)
    &&& forall|p: PageId| #[trigger] a.dom().contains(p) && !owns(t, p) ==> same_node(a, b, p)
    &&& forall|p: PageId| #[trigger]
        a.dom().contains(p) && !owns(t, p) && !ids.contains(p) ==> b[p] == a[p]
    &&& linked(b, swapped(ids, at, leaves(t).len() as int, ids_of(grown_leaves(g))))
    &&& forall|p: PageId| #[trigger] ids.contains(p) ==> leafy(b, p)
}

/// A new leaf to the right of the one at `at`.
proof fn lemma_linked_insert(a: Pages, b: Pages, ids: Seq<PageId>, at: int, right: PageId)
    requires
        linked(a, ids),
        ids.no_duplicates(),
        0 <= at < ids.len(),
        forall|i: int| 0 <= i < ids.len() ==> #[trigger] ids[i] != NIL,
        !ids.contains(right),
        forall|i: int|
            0 <= i < ids.len() && i != at && i != at + 1 ==> prev_of(b, #[trigger] ids[i])
                == prev_of(a, ids[i]) && next_of(b, ids[i]) == next_of(a, ids[i]),
        prev_of(b, ids[at]) == prev_of(a, ids[at]),
        next_of(b, ids[at]) == right,
        prev_of(b, right) == ids[at],
        next_of(b, right) == next_of(a, ids[at]),
        at + 1 < ids.len() ==> prev_of(b, ids[at + 1]) == right && next_of(b, ids[at + 1])
            == next_of(a, ids[at + 1]),
    ensures
        linked(b, swapped(ids, at, 1, seq![ids[at], right])),
{
    let new = swapped(ids, at, 1, seq![ids[at], right]);
    assert(new.len() == ids.len() + 1);
    assert forall|i: int| 0 <= i < new.len() implies #[trigger] linked_at(b, new, i) by {
        if i <= at {
            assert(new[i] == ids[i]);
            assert(linked_at(a, ids, i));
        } else if i == at + 1 {
            assert(new[i] == right);
            assert(linked_at(a, ids, at));
        } else {
            assert(new[i] == ids[i - 1]);
            assert(linked_at(a, ids, i - 1));
        }
    }
}

/// The links of a chain are those of pages that keep them.
proof fn lemma_linked_same(a: Pages, b: Pages, ids: Seq<PageId>)
    requires
        linked(a, ids),
        forall|i: int|
            0 <= i < ids.len() ==> prev_of(b, #[trigger] ids[i]) == prev_of(a, ids[i]) && next_of(
                b,
                ids[i],
            ) == next_of(a, ids[i]),
    ensures
        linked(b, ids),
{
    assert forall|i: int| 0 <= i < ids.len() implies #[trigger] linked_at(b, ids, i) by {
        assert(linked_at(a, ids, i));
        assert(prev_of(b, ids[i]) == prev_of(a, ids[i]));
    }
}

/// The three parts of an entry list after one was added.
proof fn lemma_put_vec(v: Seq<(Vec<u8>, Rid)>, i: int, k: Vec<u8>, rid: Rid)
    requires
        0 <= i <= v.len(),
    ensures
        plain(v.insert(i, (k, rid))) == plain(v).insert(i, (k@, rid)),
{
    assert(plain(v.insert(i, (k, rid))) =~= plain(v).insert(i, (k@, rid)));
}

/// Rewrite a leaf whose neighbours stay the same.
fn rewrite_leaf<P: Pager>(
    bp: &mut P,
    pid: PageId,
    leaf: &Leaf,
    Ghost(t): Ghost<Tree>,
    Ghost(g): Ghost<Grown>,
    Ghost(ids): Ghost<Seq<PageId>>,
    Ghost(at): Ghost<int>,
) -> (r: Result<(), BtreeError>)
    requires
        old(bp).pager_ok(),
        t is Leaf,
        t.pid() == pid,
        shaped(old(bp).pages(), t),
        chained(old(bp).pages(), ids),
        0 <= at < ids.len(),
        ids[at] == pid,
        leaf.prev == prev_of(old(bp).pages(), pid),
        leaf.next == next_of(old(bp).pages(), pid),
        leaf_len(leaf.es()) <= BODY_CAPACITY,
        g.tree == (Tree::Leaf { pid, es: leaf.es() }),
        g.up is None,
    ensures
        final(bp).pager_ok(),
        final(bp).count() == old(bp).count(),
        final(bp).reach() == old(bp).reach(),
        match r {
            Ok(()) => inserted(old(bp).pages(), final(bp).pages(), t, g, ids, at),
            Err(e) => e is Buffer && !holds_out(old(bp), 0),
        },
{
    let ghost a = bp.pages();
    match store_leaf(bp, pid, leaf) {
        Ok(()) => {
            proof {
                let b = bp.pages();
                assert forall|i: int| 0 <= i < ids.len() implies prev_of(b, #[trigger] ids[i])
                    == prev_of(a, ids[i]) && next_of(b, ids[i]) == next_of(a, ids[i]) by {
                    assert(leafy(a, ids[i]));
                }
                lemma_linked_same(a, b, ids);
                assert(grown_leaves(g) =~= seq![(pid, leaf.es())]);
                assert(swapped(ids, at, 1, ids_of(grown_leaves(g))) =~= ids);
                assert forall|p: PageId| #[trigger] ids.contains(p) implies leafy(b, p) by {
                    let i = choose|i: int| 0 <= i < ids.len() && ids[i] == p;
                    assert(leafy(a, ids[i]));
                    if p != pid {
                        let es = choose|es: Seq<Entry>| leaf_page(a, p, es);
                        assert(leaf_page(b, p, es));
                    } else {
                        assert(leaf_page(b, p, leaf.es()));
                    }
                }
                assert(shaped(b, g.tree));
            }
            Ok(())
        },
        Err(e) => Err(e),
    }
}

/// Allocate a page for a node.
fn alloc_node<P: Pager>(bp: &mut P, pt: PageType) -> (r: Result<PageId, BtreeError>)
    requires
        old(bp).pager_ok(),
        old(bp).count() < u32::MAX,
    ensures
        final(bp).pager_ok(),
        final(bp).reach() == old(bp).reach(),
        kept(old(bp).pages(), final(bp).pages()),
        match r {
            Ok(p) => {
                &&& p == old(bp).count()
                &&& !old(bp).pages().dom().contains(p)
                &&& final(bp).pages().dom().contains(p)
                &&& final(bp).pages()[p] == body_of(raw::blank_page(pt))
                &&& final(bp).count() == old(bp).count() + 1
            },
            Err(e) => e is Buffer && !holds_out(old(bp), 1),
        },
{
    proof {
        bp.lemma_pages();
    }
    match bp.alloc_raw(pt) {
        Ok(p) => Ok(p),
        Err(e) => Err(BtreeError::Buffer(e)),
    }
}

/// The sizes of entries, for splitting.
fn sizes_of_entries(entries: &Vec<(Vec<u8>, Rid)>) -> (r: Vec<usize>)
    requires
        leaf_len(plain(entries@)) <= usize::MAX,
    ensures
        crate::btree::node::as_ints(r@) == entry_sizes(plain(entries@)),
{
    let ghost s = entry_sizes(plain(entries@));
    let mut r: Vec<usize> = Vec::with_capacity(entries.len());
    let mut i: usize = 0;
    while i < entries.len()
        invariant
            i <= entries@.len(),
            r@.len() == i,
            s == entry_sizes(plain(entries@)),
            2 + sum_to(s, entries@.len() as int) <= usize::MAX,
            forall|j: int| 0 <= j < i ==> r@[j] == s[j],
        decreases entries@.len() - i,
    {
        proof {
            lemma_sum_grows(s, i as int, entries@.len() as int);
            assert(s[i as int] == 8 + entries@[i as int].0@.len());
        }
        r.push(2 + entries[i].0.len() + 6);
        i = i + 1;
    }
    assert(crate::btree::node::as_ints(r@) =~= s);
    r
}

/// The sizes of separators, for splitting.
fn sizes_of_keys(keys: &Vec<Vec<u8>>) -> (r: Vec<usize>)
    requires
        internal_len(plain_keys(keys@)) <= usize::MAX,
    ensures
        crate::btree::node::as_ints(r@) == key_sizes(plain_keys(keys@)),
{
    let ghost s = key_sizes(plain_keys(keys@));
    let mut r: Vec<usize> = Vec::with_capacity(keys.len());
    let mut i: usize = 0;
    while i < keys.len()
        invariant
            i <= keys@.len(),
            r@.len() == i,
            s == key_sizes(plain_keys(keys@)),
            6 + sum_to(s, keys@.len() as int) <= usize::MAX,
            forall|j: int| 0 <= j < i ==> r@[j] == s[j],
        decreases keys@.len() - i,
    {
        proof {
            lemma_sum_grows(s, i as int, keys@.len() as int);
            assert(s[i as int] == 6 + keys@[i as int]@.len());
        }
        r.push(2 + keys[i].len() + 4);
        i = i + 1;
    }
    assert(crate::btree::node::as_ints(r@) =~= s);
    r
}

/// The parts of a split leaf, and the neighbour that now names the right one.
proof fn lemma_divided(
    a: Pages,
    b: Pages,
    t: Tree,
    ps: Seq<Entry>,
    s: int,
    right: PageId,
    ids: Seq<PageId>,
    at: int,
)
    requires
        t is Leaf,
        shaped(a, t),
        chained(a, ids),
        0 <= at < ids.len(),
        ids[at] == t.pid(),
        !a.dom().contains(right),
        forall|p: PageId| #[trigger] a.dom().contains(p) ==> p != NIL,
        ps.len() >= 2,
        leaf_len(ps) > BODY_CAPACITY,
        s == split_point(entry_sizes(ps)),
        1 <= s < ps.len(),
        leaf_page(b, t.pid(), ps.take(s)),
        prev_of(b, t.pid()) == prev_of(a, t.pid()),
        next_of(b, t.pid()) == right,
        leaf_page(b, right, ps.skip(s)),
        prev_of(b, right) == t.pid(),
        next_of(b, right) == next_of(a, t.pid()),
        at + 1 < ids.len() ==> {
            &&& same_node(a, b, ids[at + 1])
            &&& prev_of(b, ids[at + 1]) == right
            &&& next_of(b, ids[at + 1]) == next_of(a, ids[at + 1])
        },
        forall|q: PageId| #[trigger]
            a.dom().contains(q) && q != t.pid() && !(at + 1 < ids.len() && q == ids[at + 1])
                ==> b.dom().contains(q) && b[q] == a[q],
    ensures
        inserted(a, b, t, split_leaf(t.pid(), ps, right as int), ids, at),
{
    let pid = t.pid();
    let g = split_leaf(pid, ps, right as int);
    assert forall|i: int| 0 <= i < ids.len() implies #[trigger] ids[i] != NIL && a.dom().contains(
        ids[i],
    ) by {
        assert(leafy(a, ids[i]));
    }
    assert(!ids.contains(right));
    assert forall|i: int| 0 <= i < ids.len() && i != at && i != at + 1 implies prev_of(
        b,
        #[trigger] ids[i],
    ) == prev_of(a, ids[i]) && next_of(b, ids[i]) == next_of(a, ids[i]) by {
        assert(ids[i] != ids[at]);
        if at + 1 < ids.len() {
            assert(ids[i] != ids[at + 1]);
        }
        assert(a.dom().contains(ids[i]));
    }
    lemma_linked_insert(a, b, ids, at, right);
    assert(grown_leaves(g) =~= seq![(pid, ps.take(s)), (right, ps.skip(s))]);
    assert(ids_of(grown_leaves(g)) =~= seq![pid, right]);
    let rt = (g.up->0).1;
    assert(rt is Leaf && shaped(b, rt));
    assert(shaped(b, g.tree));
    assert forall|p: PageId| #[trigger] a.dom().contains(p) && !owns(t, p) implies same_node(
        a,
        b,
        p,
    ) by {
        assert(p != pid);
    }
    assert forall|p: PageId| #[trigger] ids.contains(p) implies leafy(b, p) by {
        let i = choose|i: int| 0 <= i < ids.len() && ids[i] == p;
        assert(leafy(a, ids[i]));
        if p == pid {
            assert(leaf_page(b, p, ps.take(s)));
        } else {
            let es = choose|es: Seq<Entry>| leaf_page(a, p, es);
            assert(leaf_page(a, p, es));
            assert(!owns(t, p));
            assert(same_node(a, b, p));
            assert(leaf_page(b, p, es));
        }
    }
}

/// Split a leaf that has outgrown its page.
#[verifier::rlimit(40)]
fn divide_leaf<P: Pager>(
    bp: &mut P,
    pid: PageId,
    leaf: Leaf,
    Ghost(t): Ghost<Tree>,
    Ghost(ids): Ghost<Seq<PageId>>,
    Ghost(at): Ghost<int>,
) -> (r: Result<(Vec<u8>, PageId), BtreeError>)
    requires
        old(bp).pager_ok(),
        old(bp).count() < u32::MAX,
        t is Leaf,
        t.pid() == pid,
        shaped(old(bp).pages(), t),
        chained(old(bp).pages(), ids),
        0 <= at < ids.len(),
        ids[at] == pid,
        leaf.prev == prev_of(old(bp).pages(), pid),
        leaf.next == next_of(old(bp).pages(), pid),
        BODY_CAPACITY < leaf_len(leaf.es()) <= 20000,
        leaf_splits(leaf.es()),
    ensures
        final(bp).pager_ok(),
        final(bp).reach() == old(bp).reach(),
        match r {
            Ok((sep, right)) => {
                let g = split_leaf(pid, leaf.es(), old(bp).count() as int);
                &&& g.up matches Some((k, rt)) && sep@ == k && right == rt.pid()
                &&& final(bp).count() == g.fresh
                &&& inserted(old(bp).pages(), final(bp).pages(), t, g, ids, at)
            },
            Err(e) => e is Buffer && !holds_out(old(bp), 1),
        },
{
    let ghost a = bp.pages();
    let ghost ps = leaf.es();
    proof {
        bp.lemma_pages();
        assert(leafy(a, ids[at]));
    }
    let mut leaf: Leaf = leaf;
    let sizes: Vec<usize> = sizes_of_entries(&leaf.entries);
    let s: usize = split_at_bytes(&sizes);
    let ghost was = leaf.entries@;
    let right_entries: Vec<(Vec<u8>, Rid)> = leaf.entries.split_off(s);
    proof {
        assert(plain(leaf.entries@) =~= ps.take(s as int));
        assert(plain(right_entries@) =~= ps.skip(s as int));
        assert(ps.skip(s as int)[0] == ps[s as int]);
    }
    let sep: Vec<u8> = copy_bytes(right_entries[0].0.as_slice());
    let right_pid: PageId = match alloc_node(bp, PageType::BTreeLeaf) {
        Ok(p) => p,
        Err(e) => {
            return Err(e);
        },
    };
    let ghost a1 = bp.pages();
    let old_next: PageId = leaf.next;
    let right: Leaf = Leaf { entries: right_entries, prev: pid, next: old_next };
    leaf.next = right_pid;
    assert(a1.dom().contains(pid));
    // The new leaf is written before anything leads to it.
    match store_leaf(bp, right_pid, &right) {
        Ok(()) => {},
        Err(e) => {
            return Err(e);
        },
    }
    let ghost a2 = bp.pages();
    assert(a2.dom().contains(pid));
    match store_leaf(bp, pid, &leaf) {
        Ok(()) => {},
        Err(e) => {
            return Err(e);
        },
    }
    let ghost a3 = bp.pages();
    proof {
        assert(linked_at(a, ids, at));
        assert(a2.dom().contains(right_pid));
        assert forall|q: PageId| #[trigger] a.dom().contains(q) && q != pid implies a3.dom().contains(
            q,
        ) && a3[q] == a[q] by {
            assert(a1.dom().contains(q));
            assert(a2.dom().contains(q));
        }
    }
    if old_next != NIL {
        let ghost nes = choose|es: Seq<Entry>| leaf_page(a, old_next, es);
        proof {
            assert(at + 1 < ids.len() && ids[at + 1] == old_next);
            assert(leafy(a, ids[at + 1]));
            assert(ids[at] != ids[at + 1]);
            assert(a.dom().contains(old_next));
            assert(leaf_page(a3, old_next, nes));
        }
        let mut nn: Leaf = match load_leaf(bp, old_next, Ghost(nes)) {
            Ok(l) => l,
            Err(e) => {
                return Err(e);
            },
        };
        let ghost a4 = bp.pages();
        proof {
            assert(a3.dom().contains(old_next));
            bp.lemma_pages();
            lemma_leaf_fits(a4, old_next, nes);
        }
        nn.prev = right_pid;
        match store_leaf(bp, old_next, &nn) {
            Ok(()) => {},
            Err(e) => {
                return Err(e);
            },
        }
        proof {
            let b = bp.pages();
            assert forall|q: PageId| #[trigger] a3.dom().contains(q) && q != old_next implies b.dom().contains(
                q,
            ) && b[q] == a3[q] by {
                assert(a4.dom().contains(q));
            }
            lemma_leaf_body_unique(body_at(b, old_next), nn.es(), nes);
            lemma_same_leaf(a, b, old_next, nes);
            lemma_divided(a, b, t, ps, s as int, right_pid, ids, at);
        }
    } else {
        proof {
            lemma_divided(a, a3, t, ps, s as int, right_pid, ids, at);
        }
    }
    Ok((sep, right_pid))
}

/// The child `i` of `t` has grown, between pages `a` and `m`.
pub open spec fn child_grown(a: Pages, m: Pages, t: Tree, i: int, g: Grown, fresh: int, ids: Seq<PageId>, at: int) -> bool {
    let kids = t->kids;
    &&& t is Node
    &&& 0 <= i < kids.len()
    &&& kids.len() == t->ks.len() + 1
    &&& shaped(a, t)
    &&& apart(t)
    &&& forall|p: PageId| #[trigger] owns(t, p) ==> p < fresh
    &&& forall|p: PageId| #[trigger] a.dom().contains(p) ==> p < fresh
    &&& grown_apart(g, kids[i], fresh)
    &&& fresh <= g.fresh
    &&& g.tree.pid() == kids[i].pid()
    &&& inserted(a, m, kids[i], g, ids, at + leaves_to(kids, i).len() as int)
    &&& 0 <= at
    &&& at + leaves(t).len() <= ids.len()
    &&& ids.subrange(at, at + leaves(t).len()) == leaf_ids(t)
}

/// The node page of `t` is as it was while a child grows.
proof fn lemma_top_kept(a: Pages, m: Pages, t: Tree, i: int, g: Grown, fresh: int, ids: Seq<PageId>, at: int)
    requires
        child_grown(a, m, t, i, g, fresh, ids, at),
    ensures
        internal_page(m, t.pid(), t->ks, kid_pids(t->kids)),
        m.dom().contains(t.pid()),
        !owns(t->kids[i], t.pid()),
{
    assert(!owns(t->kids[i], t.pid()));
    assert(a.dom().contains(t.pid()));
    assert(same_node(a, m, t.pid()));
}

/// All children are on their pages after one has grown and the pages of the node
/// and of a new one were written.
proof fn lemma_kids_shaped(
    a: Pages,
    m: Pages,
    b: Pages,
    t: Tree,
    i: int,
    g: Grown,
    fresh: int,
    ids: Seq<PageId>,
    at: int,
)
    requires
        child_grown(a, m, t, i, g, fresh, ids, at),
        forall|q: PageId| #[trigger] m.dom().contains(q) && q != t.pid() ==> b.dom().contains(q) && b[q] == m[q],
    ensures
        forall|j: int|
            0 <= j < grown_kids(t->kids, i, g).len() ==> shaped(
                b,
                #[trigger] grown_kids(t->kids, i, g)[j],
            ),
{
    let pid = t.pid();
    let kids = t->kids;
    let kids2 = grown_kids(kids, i, g);
    assert(owns(t, pid));
    assert(!owns(kids[i], pid));
    assert forall|j: int| 0 <= j < kids2.len() implies shaped(b, #[trigger] kids2[j]) by {
        let o = if j <= i || g.up is None {
            j
        } else {
            j - 1
        };
        if o != i {
            let k = kids[o];
            assert(kids2[j] == k);
            assert(shaped(a, k));
            assert(!owns(k, pid));
            lemma_owned_pages(a, k);
            if o < i {
                assert(disjoint_pages(k, kids[i])) by {
                    assert(crate::btree::tree::disjoint(kids[o], kids[i]));
                }
            } else {
                assert(disjoint_pages(k, kids[i])) by {
                    assert(crate::btree::tree::disjoint(kids[i], kids[o]));
                }
            }
            assert forall|p: PageId| #[trigger] owns(k, p) implies same_node(a, b, p) by {
                assert(!owns(kids[i], p));
                assert(a.dom().contains(p));
                assert(same_node(a, m, p));
                assert(m.dom().contains(p));
                assert(p != pid);
            }
            lemma_shaped_on(a, b, k);
        } else {
            let k = kids2[j];
            assert(shaped(m, k));
            lemma_owned_pages(m, k);
            assert forall|p: PageId| #[trigger] owns(k, p) implies same_node(m, b, p) by {
                assert(p != pid);
            }
            lemma_shaped_on(m, b, k);
        }
    }
}

pub open spec fn disjoint_pages(x: Tree, y: Tree) -> bool {
    forall|p: PageId| #[trigger] owns(x, p) ==> !owns(y, p)
}

/// The chain of leaves after a child has grown and pages that are no leaves were
/// written.
proof fn lemma_chain_after(
    a: Pages,
    m: Pages,
    b: Pages,
    t: Tree,
    i: int,
    g: Grown,
    out: Grown,
    fresh: int,
    ids: Seq<PageId>,
    at: int,
)
    requires
        child_grown(a, m, t, i, g, fresh, ids, at),
        forall|q: PageId| #[trigger] m.dom().contains(q) && q != t.pid() ==> b.dom().contains(q) && b[q] == m[q],
        grown_leaves(out) == leaves_to(t->kids, i) + grown_leaves(g) + leaves_to(
            t->kids.skip(i + 1),
            t->kids.len() - i - 1,
        ),
    ensures
        linked(b, swapped(ids, at, leaves(t).len() as int, ids_of(grown_leaves(out)))),
        forall|p: PageId| #[trigger] ids.contains(p) ==> leafy(b, p),
        forall|p: PageId| #[trigger] a.dom().contains(p) && !owns(t, p) ==> same_node(a, b, p),
        forall|p: PageId| #[trigger]
            a.dom().contains(p) && !owns(t, p) && !ids.contains(p) ==> b[p] == a[p],
{
    let pid = t.pid();
    let kids = t->kids;
    let before = leaves_to(kids, i);
    let rest = leaves_to(kids.skip(i + 1), kids.len() - i - 1);
    let at2 = at + before.len() as int;
    lemma_top_kept(a, m, t, i, g, fresh, ids, at);
    lemma_leaves_around(kids, i);
    let n = leaves(t).len() as int;
    let ni = leaves(kids[i]).len() as int;
    let x = swapped(ids, at2, ni, ids_of(grown_leaves(g)));
    let y = swapped(ids, at, n, ids_of(grown_leaves(out)));
    let sub = ids.subrange(at, at + n);
    assert(x =~= y) by {
        assert(n == before.len() + ni + rest.len());
        assert forall|k: int| 0 <= k < before.len() implies ids[at + k] == before[k].0 by {
            assert(sub[k] == leaf_ids(t)[k]);
        }
        assert forall|k: int| 0 <= k < rest.len() implies ids[at2 + ni + k] == rest[k].0 by {
            assert(sub[before.len() + ni + k] == leaf_ids(t)[before.len() + ni + k]);
        }
        assert(x.len() == y.len());
        assert forall|k: int| 0 <= k < x.len() implies x[k] == y[k] by {}
    }
    assert forall|k: int| 0 <= k < x.len() implies prev_of(b, #[trigger] x[k]) == prev_of(m, x[k])
        && next_of(b, x[k]) == next_of(m, x[k]) by {
        assert(leafy(m, x[k])) by {
            if k < at2 {
                assert(x[k] == ids[k]);
                assert(ids.contains(x[k]));
            } else if k < at2 + grown_leaves(g).len() {
                let z = k - at2;
                assert(x[k] == grown_leaves(g)[z].0);
                if z < leaves(g.tree).len() {
                    lemma_leaf_owned(m, g.tree, z);
                    assert(leaf_page(m, x[k], leaves(g.tree)[z].1));
                } else {
                    let rt = (g.up->0).1;
                    let w = z - leaves(g.tree).len();
                    lemma_leaf_owned(m, rt, w);
                    assert(leaf_page(m, x[k], leaves(rt)[w].1));
                }
            } else {
                let o = k - grown_leaves(g).len() + ni;
                assert(x[k] == ids[o]);
                assert(ids.contains(x[k]));
            }
        }
        assert(x[k] != pid);
        assert(m.dom().contains(x[k]));
    }
    lemma_linked_same(m, b, x);
    assert forall|p: PageId| #[trigger] ids.contains(p) implies leafy(b, p) by {
        assert(leafy(m, p));
        let es = choose|es: Seq<Entry>| leaf_page(m, p, es);
        assert(leaf_page(m, p, es));
        assert(p != pid);
        assert(m.dom().contains(p));
        assert(leaf_page(b, p, es));
    }
    assert forall|p: PageId| #[trigger] a.dom().contains(p) && !owns(t, p) implies same_node(
        a,
        b,
        p,
    ) && (!ids.contains(p) ==> b[p] == a[p]) by {
        if owns(kids[i], p) {
            assert(owns(t, p));
        }
        assert(same_node(a, m, p));
        assert(p != pid);
        assert(m.dom().contains(p));
    }
}

/// A child has grown and was not split: nothing more is written.
proof fn lemma_node_grown(
    a: Pages,
    m: Pages,
    b: Pages,
    t: Tree,
    i: int,
    g: Grown,
    out: Grown,
    fresh: int,
    ids: Seq<PageId>,
    at: int,
)
    requires
        child_grown(a, m, t, i, g, fresh, ids, at),
        forall|q: PageId| #[trigger] m.dom().contains(q) && q != t.pid() ==> b.dom().contains(q) && b[q] == m[q],
        grown_leaves(out) == leaves_to(t->kids, i) + grown_leaves(g) + leaves_to(
            t->kids.skip(i + 1),
            t->kids.len() - i - 1,
        ),
        out.up is None,
        out.tree is Node,
        out.tree.pid() == t.pid(),
        out.tree->kids == grown_kids(t->kids, i, g),
        internal_page(b, t.pid(), out.tree->ks, kid_pids(out.tree->kids)),
    ensures
        inserted(a, b, t, out, ids, at),
{
    lemma_kids_shaped(a, m, b, t, i, g, fresh, ids, at);
    lemma_chain_after(a, m, b, t, i, g, out, fresh, ids, at);
    let t2 = out.tree;
    assert(shaped(b, t2));
}

/// A child has grown and was split, and so was the node.
proof fn lemma_node_divided(
    a: Pages,
    m: Pages,
    b: Pages,
    t: Tree,
    i: int,
    g: Grown,
    out: Grown,
    s: int,
    fresh: int,
    ids: Seq<PageId>,
    at: int,
)
    requires
        child_grown(a, m, t, i, g, fresh, ids, at),
        forall|q: PageId| #[trigger] m.dom().contains(q) && q != t.pid() ==> b.dom().contains(q) && b[q] == m[q],
        grown_leaves(out) == leaves_to(t->kids, i) + grown_leaves(g) + leaves_to(
            t->kids.skip(i + 1),
            t->kids.len() - i - 1,
        ),
        0 <= s < grown_kids(t->kids, i, g).len(),
        out.tree is Node,
        out.tree.pid() == t.pid(),
        out.tree->kids == grown_kids(t->kids, i, g).take(s + 1),
        internal_page(b, t.pid(), out.tree->ks, kid_pids(out.tree->kids)),
        out.up is Some,
        (out.up->0).1 is Node,
        (out.up->0).1->kids == grown_kids(t->kids, i, g).skip(s + 1),
        internal_page(b, (out.up->0).1.pid(), (out.up->0).1->ks, kid_pids((out.up->0).1->kids)),
    ensures
        inserted(a, b, t, out, ids, at),
{
    lemma_kids_shaped(a, m, b, t, i, g, fresh, ids, at);
    lemma_chain_after(a, m, b, t, i, g, out, fresh, ids, at);
    let kids2 = grown_kids(t->kids, i, g);
    let left = out.tree;
    let right = (out.up->0).1;
    assert forall|j: int| 0 <= j < left->kids.len() implies shaped(b, #[trigger] left->kids[j]) by {
        assert(shaped(b, kids2[j]));
    }
    assert forall|j: int| 0 <= j < right->kids.len() implies shaped(b, #[trigger] right->kids[j]) by {
        assert(shaped(b, kids2[j + s + 1]));
    }
    assert(shaped(b, left));
    assert(shaped(b, right));
}

/// Add the right half of a child to its node, and split the node where it outgrows
/// its page.
#[verifier::rlimit(40)]
fn grow_node<P: Pager>(
    bp: &mut P,
    pid: PageId,
    node: Internal,
    i: usize,
    sep: Vec<u8>,
    right_pid: PageId,
    Ghost(a): Ghost<Pages>,
    Ghost(t): Ghost<Tree>,
    Ghost(g): Ghost<Grown>,
    Ghost(fresh): Ghost<int>,
    Ghost(ids): Ghost<Seq<PageId>>,
    Ghost(at): Ghost<int>,
) -> (r: Result<Option<(Vec<u8>, PageId)>, BtreeError>)
    requires
        old(bp).pager_ok(),
        old(bp).count() < u32::MAX,
        old(bp).count() == g.fresh,
        t.pid() == pid,
        child_grown(a, old(bp).pages(), t, i as int, g, fresh, ids, at),
        node.ks() == t->ks,
        node.children@ == kid_pids(t->kids),
        g.up is Some,
        (g.up->0).0 == sep@,
        (g.up->0).1.pid() == right_pid,
        node_splits(grown_keys(t->ks, i as int, g)),
        internal_len(grown_keys(t->ks, i as int, g)) <= 20000,
        ({
            let out = split_node(
                pid,
                grown_keys(t->ks, i as int, g),
                grown_kids(t->kids, i as int, g),
                g.fresh,
            );
            grown_leaves(out) == leaves_to(t->kids, i as int) + grown_leaves(g) + leaves_to(
                t->kids.skip(i + 1),
                t->kids.len() - i - 1,
            )
        }),
    ensures
        final(bp).pager_ok(),
        final(bp).reach() == old(bp).reach(),
        match r {
            Ok(up) => {
                let out = split_node(
                    pid,
                    grown_keys(t->ks, i as int, g),
                    grown_kids(t->kids, i as int, g),
                    g.fresh,
                );
                &&& final(bp).count() == out.fresh
                &&& inserted(a, final(bp).pages(), t, out, ids, at)
                &&& match up {
                    None => out.up is None,
                    Some((k, p)) => out.up is Some && (out.up->0).0 == k@ && (out.up->0).1.pid()
                        == p,
                }
            },
            Err(e) => e is Buffer && !holds_out(old(bp), 1),
        },
{
    let ghost m = bp.pages();
    let ghost ks2 = grown_keys(t->ks, i as int, g);
    let ghost kids2 = grown_kids(t->kids, i as int, g);
    let ghost out = split_node(pid, ks2, kids2, g.fresh);
    let ghost k0 = node.keys@;
    let ghost c0 = node.children@;
    let mut node: Internal = node;
    node.keys.insert(i, sep);
    node.children.insert(i + 1, right_pid);
    proof {
        lemma_top_kept(a, m, t, i as int, g, fresh, ids, at);
        assert(node.ks() =~= ks2);
        assert(node.children@ =~= kid_pids(kids2));
    }
    if internal_ser_len(&node.keys) <= BODY_CAPACITY {
        return match store_internal(bp, pid, &node) {
            Ok(()) => {
                proof {
                    lemma_node_grown(a, m, bp.pages(), t, i as int, g, out, fresh, ids, at);
                }
                Ok(None)
            },
            Err(e) => Err(e),
        };
    }
    let sizes: Vec<usize> = sizes_of_keys(&node.keys);
    let s: usize = split_at_bytes(&sizes);
    let mid: Vec<u8> = copy_bytes(node.keys[s].as_slice());
    let right_keys: Vec<Vec<u8>> = node.keys.split_off(s + 1);
    let _up: Option<Vec<u8>> = node.keys.pop();
    let right_children: Vec<PageId> = node.children.split_off(s + 1);
    let right: Internal = Internal { keys: right_keys, children: right_children };
    proof {
        assert(mid@ == ks2[s as int]);
        assert(node.ks() =~= ks2.take(s as int));
        assert(right.ks() =~= ks2.skip(s + 1));
        assert(node.children@ =~= kid_pids(kids2.take(s + 1)));
        assert(right.children@ =~= kid_pids(kids2.skip(s + 1)));
    }
    let new_pid: PageId = match alloc_node(bp, PageType::BTreeInternal) {
        Ok(p) => p,
        Err(e) => {
            return Err(e);
        },
    };
    let ghost m1 = bp.pages();
    assert(m1.dom().contains(pid));
    match store_internal(bp, new_pid, &right) {
        Ok(()) => {},
        Err(e) => {
            return Err(e);
        },
    }
    let ghost m2 = bp.pages();
    assert(m2.dom().contains(pid));
    match store_internal(bp, pid, &node) {
        Ok(()) => {},
        Err(e) => {
            return Err(e);
        },
    }
    proof {
        let b = bp.pages();
        assert(m2.dom().contains(new_pid));
        assert forall|q: PageId| #[trigger] m.dom().contains(q) && q != t.pid() implies b.dom().contains(
            q,
        ) && b[q] == m[q] by {
            assert(m1.dom().contains(q));
            assert(m2.dom().contains(q));
        }
        lemma_node_divided(a, m, b, t, i as int, g, out, s as int, fresh, ids, at);
    }
    Ok(Some((mid, new_pid)))
}

/// Put `key` into the subtree on page `pid`: the separator and the page of its right
/// half where it was split.
#[verifier::rlimit(60)]
fn insert_rec<P: Pager>(
    bp: &mut P,
    pid: PageId,
    key: &[u8],
    rid: Rid,
    Ghost(t): Ghost<Tree>,
    Ghost(ids): Ghost<Seq<PageId>>,
    Ghost(at): Ghost<int>,
    Ghost(low): Ghost<Option<Seq<u8>>>,
    Ghost(high): Ghost<Option<Seq<u8>>>,
) -> (r: Result<Option<(Vec<u8>, PageId)>, BtreeError>)
    requires
        old(bp).pager_ok(),
        t.pid() == pid,
        shaped(old(bp).pages(), t),
        apart(t),
        ordered(t, low, high),
        level(t, height(t)),
        within(key@, low, high),
        key@.len() <= MAX_KEY ==> grow_fits(t, key@, rid, old(bp).count() as int),
        chained(old(bp).pages(), ids),
        0 <= at,
        at + leaves(t).len() <= ids.len(),
        ids.subrange(at, at + leaves(t).len()) == leaf_ids(t),
        old(bp).count() + height(t) + 1 <= u32::MAX,
    ensures
        final(bp).pager_ok(),
        final(bp).reach() == old(bp).reach(),
        match r {
            Ok(up) => {
                let g = grow(t, key@, rid, old(bp).count() as int);
                &&& key@.len() <= MAX_KEY
                &&& final(bp).count() == g.fresh
                &&& inserted(old(bp).pages(), final(bp).pages(), t, g, ids, at)
                &&& match up {
                    None => g.up is None,
                    Some((k, p)) => g.up is Some && (g.up->0).0 == k@ && (g.up->0).1.pid() == p,
                }
            },
            Err(BtreeError::KeyTooLarge) => {
                &&& key@.len() > MAX_KEY
                &&& kept(old(bp).pages(), final(bp).pages())
                &&& final(bp).count() == old(bp).count()
            },
            Err(e) => e is Buffer && !holds_out(old(bp), height(t) + 1),
        },
    decreases t,
{
    let ghost a = bp.pages();
    let ghost fresh = bp.count() as int;
    let loaded: Node = match load(bp, pid) {
        Ok(n) => n,
        Err(e) => {
            return Err(e);
        },
    };
    let ghost a0 = bp.pages();
    proof {
        bp.lemma_pages();
        lemma_shaped_kept(a, a0, t);
        lemma_chain_kept(a, a0, ids);
        lemma_owned_pages(a0, t);
    }
    match loaded {
        Node::Leaf(mut leaf) => {
            proof {
                assert(t is Leaf);
                lemma_leaf_body_unique(body_at(a, pid), leaf.es(), t->es);
                lemma_leaf_fits(a0, pid, t->es);
                assert(leaf_ids(t) =~= seq![pid]);
                assert(ids.subrange(at, at + 1)[0] == ids[at]);
            }
            let ghost es = leaf.es();
            let ghost g = grow(t, key@, rid, fresh);
            match search(&leaf.entries, key) {
                Ok(i) => {
                    proof {
                        lemma_leaf_small(es);
                        assert(es[i as int].0 == key@);
                        lemma_sum_agrees(
                            entry_sizes(put(es, key@, rid)),
                            entry_sizes(es),
                            es.len() as int,
                        );
                    }
                    let k: Vec<u8> = copy_bytes(key);
                    leaf.entries[i] = (k, rid);
                    assert(leaf.es() =~= put(es, key@, rid));
                    match rewrite_leaf(
                        bp,
                        pid,
                        &leaf,
                        Ghost(t),
                        Ghost(g),
                        Ghost(ids),
                        Ghost(at),
                    ) {
                        Ok(()) => {
                            proof {
                                lemma_inserted_from(a, a0, bp.pages(), t, g, ids, at);
                            }
                            Ok(None)
                        },
                        Err(e) => Err(e),
                    }
                },
                Err(i) => {
                    if key.len() > MAX_KEY {
                        return Err(BtreeError::KeyTooLarge);
                    }
                    let k: Vec<u8> = copy_bytes(key);
                    let ghost before = leaf.entries@;
                    proof {
                        lemma_rank(es, key@);
                    }
                    leaf.entries.insert(i, (k, rid));
                    proof {
                        lemma_put_vec(before, i as int, k, rid);
                        assert(leaf.es() =~= put(es, key@, rid));
                        lemma_grown_size(es, i as int, (key@, rid));
                    }
                    if leaf_ser_len(&leaf.entries) <= BODY_CAPACITY {
                        return match rewrite_leaf(
                            bp,
                            pid,
                            &leaf,
                            Ghost(t),
                            Ghost(g),
                            Ghost(ids),
                            Ghost(at),
                        ) {
                            Ok(()) => {
                                proof {
                                    lemma_inserted_from(a, a0, bp.pages(), t, g, ids, at);
                                }
                                Ok(None)
                            },
                            Err(e) => Err(e),
                        };
                    }
                    match divide_leaf(bp, pid, leaf, Ghost(t), Ghost(ids), Ghost(at)) {
                        Ok(up) => {
                            proof {
                                lemma_inserted_from(a, a0, bp.pages(), t, g, ids, at);
                            }
                            Ok(Some(up))
                        },
                        Err(e) => Err(e),
                    }
                },
            }
        },
        Node::Internal(node) => {
            proof {
                assert(t is Node);
                lemma_internal_body_unique(
                    body_at(a, pid),
                    node.ks(),
                    node.children@,
                    t->ks,
                    kid_pids(t->kids),
                );
                lemma_node_fits(a0, pid, t->ks, kid_pids(t->kids));
                lemma_child_of(t->ks, key@);
            }
            let i: usize = node.child_index(key);
            let child: PageId = node.children[i];
            let ghost ks = t->ks;
            let ghost kids = t->kids;
            let ghost kid = kids[i as int];
            let ghost klow = low_of(ks, i as int, low);
            let ghost khigh = high_of(ks, i as int, high);
            let ghost kat = at + leaves_to(kids, i as int).len() as int;
            let ghost g = grow(kid, key@, rid, fresh);
            let ghost out = grow(t, key@, rid, fresh);
            proof {
                assert(kid_pids(kids)[i as int] == kid.pid());
                assert(shaped(a0, kid));
                assert(apart(kid));
                assert(ordered(kid, klow, khigh));
                assert(level(kid, height(t) - 1));
                lemma_has_leaf(kid, height(t) - 1);
                lemma_leaves_around(kids, i as int);
                let before = leaves_to(kids, i as int);
                assert(ids.subrange(kat, kat + leaves(kid).len()) =~= leaf_ids(kid)) by {
                    let sub = ids.subrange(at, at + leaves(t).len());
                    assert forall|k: int| 0 <= k < leaves(kid).len() implies ids[kat + k] == leaf_ids(
                        kid,
                    )[k] by {
                        assert(sub[before.len() + k] == leaf_ids(t)[before.len() + k]);
                    }
                }
                assert(decreases_to!(t => t->kids));
            }
            let up: Option<(Vec<u8>, PageId)> = match insert_rec(
                bp,
                child,
                key,
                rid,
                Ghost(kid),
                Ghost(ids),
                Ghost(kat),
                Ghost(klow),
                Ghost(khigh),
            ) {
                Ok(up) => up,
                Err(e) => {
                    proof {
                        if e is KeyTooLarge {
                            lemma_kept_trans(a, a0, bp.pages());
                        }
                    }
                    return Err(e);
                },
            };
            let ghost m = bp.pages();
            proof {
                lemma_grow_ordered(kid, key@, rid, fresh, klow, khigh, height(t) - 1);
                lemma_ordered_shape(kid, klow, khigh);
                assert forall|p: PageId| #[trigger] owns(kid, p) implies p < fresh by {
                    assert(owns(t, p));
                }
                lemma_grow_apart(kid, key@, rid, fresh, height(t) - 1);
                lemma_grow_leaves(t, key@, rid, fresh);
                assert(child_grown(a0, m, t, i as int, g, fresh, ids, at));
            }
            match up {
                None => {
                    proof {
                        lemma_top_kept(a0, m, t, i as int, g, fresh, ids, at);
                        assert(kid_pids(grown_kids(kids, i as int, g)) =~= kid_pids(kids));
                        lemma_node_grown(a0, m, m, t, i as int, g, out, fresh, ids, at);
                        lemma_inserted_from(a, a0, m, t, out, ids, at);
                    }
                    Ok(None)
                },
                Some((sep, right_pid)) => {
                    proof {
                        lemma_grown_key_size(ks, i as int, sep@);
                        lemma_fitting(a0, kid);
                        lemma_grown_sep(kid, key@, rid, fresh);
                    }
                    match grow_node(
                        bp,
                        pid,
                        node,
                        i,
                        sep,
                        right_pid,
                        Ghost(a0),
                        Ghost(t),
                        Ghost(g),
                        Ghost(fresh),
                        Ghost(ids),
                        Ghost(at),
                    ) {
                        Ok(r) => {
                            proof {
                                lemma_inserted_from(a, a0, bp.pages(), t, out, ids, at);
                            }
                            Ok(r)
                        },
                        Err(e) => Err(e),
                    }
                },
            }
        },
    }
}

/// A tree on pages fits them.
pub proof fn lemma_fitting(pages: Pages, t: Tree)
    requires
        shaped(pages, t),
        forall|p: PageId| #[trigger] pages.dom().contains(p) ==> pages[p].len() == PAGE_SIZE - 4,
    ensures
        fitting(t),
    decreases t,
{
    match t {
        Tree::Leaf { pid, es } => {
            lemma_leaf_fits(pages, pid, es);
        },
        Tree::Node { pid, ks, kids } => {
            lemma_node_fits(pages, pid, ks, kid_pids(kids));
            assert forall|i: int| 0 <= i < kids.len() implies fitting(#[trigger] kids[i]) by {
                lemma_fitting(pages, kids[i]);
            }
        },
    }
}

/// A separator that goes up is no longer than the longest key.
proof fn lemma_grown_sep(t: Tree, key: Seq<u8>, rid: Rid, fresh: int)
    requires
        fitting(t),
        ordered_shape(t),
        key.len() <= MAX_KEY,
        grow_fits(t, key, rid, fresh),
    ensures
        grow(t, key, rid, fresh).up matches Some((sep, _)) ==> sep.len() <= MAX_KEY,
    decreases t,
{
    match t {
        Tree::Leaf { pid, es } => {
            let ps = put(es, key, rid);
            if !present(es, key) && leaf_len(ps) > BODY_CAPACITY {
                let s = split_point(entry_sizes(ps));
                crate::btree::grow::lemma_split_point(entry_sizes(ps));
                lemma_leaf_small(ps.skip(s));
                assert(ps.skip(s)[0] == ps[s]);
            }
        },
        Tree::Node { pid, ks, kids } => {
            let i = child_of(ks, key);
            lemma_child_of(ks, key);
            lemma_node_small(ks);
            assert(fitting(kids[i]) && ordered_shape(kids[i]));
            lemma_grown_sep(kids[i], key, rid, fresh);
            let g = grow(kids[i], key, rid, fresh);
            if g.up is Some {
                let ks2 = grown_keys(ks, i, g);
                if internal_len(ks2) > BODY_CAPACITY {
                    let s = split_point(key_sizes(ks2));
                    crate::btree::grow::lemma_split_point(key_sizes(ks2));
                    if s < i {
                        assert(ks2[s] == ks[s]);
                    } else if s > i {
                        assert(ks2[s] == ks[s - 1]);
                    }
                }
            }
        },
    }
}

proof fn lemma_chain_kept(a: Pages, b: Pages, ids: Seq<PageId>)
    requires
        chained(a, ids),
        kept(a, b),
    ensures
        chained(b, ids),
{
    assert forall|i: int| 0 <= i < ids.len() implies leafy(b, #[trigger] ids[i]) && prev_of(
        b,
        ids[i],
    ) == prev_of(a, ids[i]) && next_of(b, ids[i]) == next_of(a, ids[i]) by {
        assert(leafy(a, ids[i]));
        let es = choose|es: Seq<Entry>| leaf_page(a, ids[i], es);
        assert(leaf_page(b, ids[i], es));
    }
    lemma_linked_same(a, b, ids);
}

/// An insertion that began with pages that were kept.
proof fn lemma_inserted_from(
    a: Pages,
    a0: Pages,
    b: Pages,
    t: Tree,
    g: Grown,
    ids: Seq<PageId>,
    at: int,
)
    requires
        kept(a, a0),
        inserted(a0, b, t, g, ids, at),
    ensures
        inserted(a, b, t, g, ids, at),
{
    assert forall|p: PageId| #[trigger] a.dom().contains(p) && !owns(t, p) implies same_node(
        a,
        b,
        p,
    ) && (!ids.contains(p) ==> b[p] == a[p]) by {
        assert(a0.dom().contains(p));
        assert(same_node(a0, b, p));
        assert forall|es: Seq<Entry>| #[trigger] leaf_page(a, p, es) implies leaf_page(b, p, es) by {
            assert(leaf_page(a0, p, es));
        }
        assert forall|ks: Seq<Seq<u8>>, cs: Seq<PageId>| #[trigger]
            internal_page(a, p, ks, cs) implies internal_page(b, p, ks, cs) by {
            assert(internal_page(a0, p, ks, cs));
        }
    }
}

/// One more entry adds its size.
proof fn lemma_grown_size(es: Seq<Entry>, i: int, e: Entry)
    requires
        0 <= i <= es.len(),
    ensures
        leaf_len(es.insert(i, e)) == leaf_len(es) + 8 + e.0.len(),
{
    assert(entry_sizes(es.insert(i, e)) =~= entry_sizes(es).insert(i, 8 + e.0.len() as int));
    crate::btree::grow::lemma_sum_insert(entry_sizes(es), i, 8 + e.0.len() as int);
}

proof fn lemma_grown_key_size(ks: Seq<Seq<u8>>, i: int, sep: Seq<u8>)
    requires
        0 <= i <= ks.len(),
    ensures
        internal_len(ks.insert(i, sep)) == internal_len(ks) + 6 + sep.len(),
{
    assert(key_sizes(ks.insert(i, sep)) =~= key_sizes(ks).insert(i, 6 + sep.len() as int));
    crate::btree::grow::lemma_sum_insert(key_sizes(ks), i, 6 + sep.len() as int);
}

/// The leaves of a well-formed tree are a chain.
proof fn lemma_tree_chain(pages: Pages, t: Tree)
    requires
        tree_ok(pages, t),
    ensures
        chained(pages, leaf_ids(t)),
        leaf_ids(t).len() > 0,
        forall|p: PageId| #[trigger] leaf_ids(t).contains(p) ==> owns(t, p),
{
    lemma_ids_distinct(t);
    lemma_has_leaf(t, height(t));
    let ids = leaf_ids(t);
    assert forall|i: int| 0 <= i < ids.len() implies leafy(pages, #[trigger] ids[i]) && owns(
        t,
        ids[i],
    ) by {
        lemma_leaf_owned(pages, t, i);
        assert(leaf_page(pages, ids[i], leaves(t)[i].1));
    }
    assert forall|p: PageId| #[trigger] ids.contains(p) implies owns(t, p) by {
        let i = choose|i: int| 0 <= i < ids.len() && ids[i] == p;
        assert(owns(t, ids[i]));
    }
}

/// Every node that setting `key` writes fits its page, a new root among them.
pub open spec fn insertable(t: Tree, key: Seq<u8>, rid: Rid, fresh: int) -> bool {
    &&& grow_fits(t, key, rid, fresh)
    &&& grow(t, key, rid, fresh).up matches Some((sep, _)) ==> internal_len(seq![sep])
        <= BODY_CAPACITY
}

/// The tree after `key` is set to `rid`.
pub open spec fn grown_tree(t: Tree, key: Seq<u8>, rid: Rid, fresh: int) -> Tree {
    let g = grow(t, key, rid, fresh);
    match g.up {
        None => g.tree,
        Some((sep, right)) => Tree::Node {
            pid: g.fresh as u32,
            ks: seq![sep],
            kids: seq![g.tree, right],
        },
    }
}

/// The next page number after `key` was set.
pub open spec fn grown_count(t: Tree, key: Seq<u8>, rid: Rid, fresh: int) -> int {
    let g = grow(t, key, rid, fresh);
    g.fresh + if g.up is Some {
        1int
    } else {
        0
    }
}

/// An insertion keeps the pages of the tree, and every page that it takes becomes one
/// of them.
pub proof fn lemma_grown_tree_owns(t: Tree, key: Seq<u8>, rid: Rid, fresh: int)
    requires
        apart(t),
        level(t, height(t)),
        ordered(t, None, None),
        grow_fits(t, key, rid, fresh),
        forall|p: PageId| #[trigger] owns(t, p) ==> p < fresh,
        0 <= fresh,
        fresh + height(t) + 2 <= u32::MAX,
    ensures
        fresh <= grown_count(t, key, rid, fresh) <= fresh + height(t) + 2,
        forall|p: PageId| #[trigger]
            owns(grown_tree(t, key, rid, fresh), p) <==> owns(t, p) || fresh <= p < grown_count(
                t,
                key,
                rid,
                fresh,
            ),
{
    let g = grow(t, key, rid, fresh);
    let u = grown_tree(t, key, rid, fresh);
    lemma_ordered_shape(t, None, None);
    lemma_grow_apart(t, key, rid, fresh, height(t));
    assert forall|p: PageId| #[trigger] owns(u, p) implies owns(t, p) || fresh <= p < grown_count(
        t,
        key,
        rid,
        fresh,
    ) by {
        if g.up is Some && p != u.pid() {
            let j = choose|j: int| 0 <= j < u->kids.len() && owns(#[trigger] u->kids[j], p);
            assert(j == 0 || j == 1);
        }
    }
    assert forall|p: PageId| owns(t, p) || fresh <= p < grown_count(t, key, rid, fresh) implies #[trigger] owns(
        u,
        p,
    ) by {
        if owns(t, p) || p < g.fresh {
            lemma_grow_owns(t, key, rid, fresh, height(t), p);
            if g.up is Some {
                if owns(g.tree, p) {
                    assert(u->kids[0] == g.tree);
                    lemma_child_owns(u, 0, p);
                } else {
                    assert(u->kids[1] == (g.up->0).1);
                    lemma_child_owns(u, 1, p);
                }
            }
        }
    }
}

/// Setting a key in a well-formed tree sets it in what the tree holds.
pub proof fn law_insert_sets_the_key(t: Tree, key: Seq<u8>, rid: Rid, fresh: int)
    requires
        ordered(t, None, None),
        level(t, height(t)),
        grow_fits(t, key, rid, fresh),
    ensures
        ordered(grown_tree(t, key, rid, fresh), None, None),
        level(
            grown_tree(t, key, rid, fresh),
            height(t) + if grow(t, key, rid, fresh).up is Some {
                1int
            } else {
                0
            },
        ),
        flat(grown_tree(t, key, rid, fresh)) == put(flat(t), key, rid),
        contents(grown_tree(t, key, rid, fresh)) == contents(t).insert(key, rid),
{
    let g = grow(t, key, rid, fresh);
    let u = grown_tree(t, key, rid, fresh);
    lemma_grow_ordered(t, key, rid, fresh, None, None, height(t));
    lemma_ordered_flat(t, None, None);
    lemma_put(flat(t), key, rid);
    match g.up {
        None => {
            assert(grown_leaves(g) =~= leaves(g.tree));
        },
        Some((sep, right)) => {
            let kids = u->kids;
            assert(u is Node && kids =~= seq![g.tree, right]);
            assert(leaves_to(kids, 0) =~= Seq::<LeafOf>::empty());
            assert(leaves_to(kids, 1) =~= leaves(g.tree));
            assert(leaves_to(kids, 2) =~= leaves(g.tree) + leaves(right));
            assert(leaves(u) =~= grown_leaves(g));
            assert forall|i: int| 0 <= i < kids.len() implies ordered(
                #[trigger] kids[i],
                low_of(u->ks, i, None),
                high_of(u->ks, i, None),
            ) && level(kids[i], height(t)) by {}
        },
    }
}

impl BTree {
    /// Name the root on the meta page, where there is one.
    fn write_meta_root<P: Pager>(&self, bp: &mut P, root: PageId) -> (r: Result<(), BtreeError>)
        requires
            old(bp).pager_ok(),
            self.meta matches Some(m) ==> old(bp).pages().dom().contains(m),
        ensures
            final(bp).pager_ok(),
            final(bp).count() == old(bp).count(),
            final(bp).reach() == old(bp).reach(),
            match r {
                Ok(()) => match self.meta {
                    Some(m) => wrote(old(bp).pages(), final(bp).pages(), m) && named_root(
                        final(bp).pages(),
                        m,
                    ) == root && type_at(final(bp).pages(), m) == PageType::Meta.byte(),
                    None => final(bp).pages() == old(bp).pages(),
                },
                Err(e) => {
                    &&& e is Buffer
                    &&& !holds_out(old(bp), 0)
                },
            },
    {
        let m: PageId = match self.meta {
            Some(m) => m,
            None => {
                return Ok(());
            },
        };
        let f = |b: Vec<u8>| -> (o: (Vec<u8>, ()))
            requires
                b@.len() == PAGE_SIZE,
            ensures
                o.0@.len() == PAGE_SIZE,
                o.0@[14] == PageType::Meta.byte(),
                le64(o.0@, 24) == root,
            {
                let mut page: Vec<u8> = b;
                raw::set_page_type(page.as_mut_slice(), PageType::Meta);
                let ghost typed = page@;
                raw::set_extra(page.as_mut_slice(), root as u64);
                assert(page@[14] == typed[14]);
                (page, ())
            };
        match edit_page(bp, m, f) {
            Ok(()) => {
                proof {
                    let (b, c): (Vec<u8>, Vec<u8>) = choose|b: Vec<u8>, c: Vec<u8>|
                        #[trigger] holds(bp.pages(), m, b@, c@) && f.ensures((b,), (c, ()));
                    lemma_stored(bp.pages(), m, c@);
                }
                Ok(())
            },
            Err(e) => Err(e),
        }
    }

    /// Set `key` to `rid`.
    pub fn insert<P: Pager>(&mut self, bp: &mut P, key: &[u8], rid: Rid) -> (r: Result<
        (),
        BtreeError,
    >)
        requires
            old(self).ok(old(bp)),
            old(bp).count() + height(old(self).tree@) + 2 <= u32::MAX,
            key@.len() <= MAX_KEY ==> insertable(
                old(self).tree@,
                key@,
                rid,
                old(bp).count() as int,
            ),
        ensures
            final(bp).pager_ok(),
            final(bp).reach() == old(bp).reach(),
            final(self).meta == old(self).meta,
            match r {
                Ok(()) => {
                    &&& key@.len() <= MAX_KEY
                    &&& final(self).ok(final(bp))
                    &&& final(self)@.entries == old(self)@.entries.insert(key@, rid)
                    &&& final(self).tree@ == grown_tree(
                        old(self).tree@,
                        key@,
                        rid,
                        old(bp).count() as int,
                    )
                    &&& final(bp).count() == grown_count(
                        old(self).tree@,
                        key@,
                        rid,
                        old(bp).count() as int,
                    )
                    &&& old(bp).count() <= final(bp).count() <= old(bp).count() + height(
                        old(self).tree@,
                    ) + 2
                    &&& forall|p: PageId| #[trigger]
                        owns(final(self).tree@, p) <==> owns(old(self).tree@, p)
                            || old(bp).count() <= p < final(bp).count()
                    &&& forall|p: PageId| #[trigger]
                        old(bp).pages().dom().contains(p) && !owns(old(self).tree@, p) && old(self).meta != Some(p) ==> final(bp).pages().dom().contains(p) && final(bp).pages()[p] == old(bp).pages()[p]
                },
                Err(BtreeError::KeyTooLarge) => {
                    &&& key@.len() > MAX_KEY
                    &&& *final(self) == *old(self)
                    &&& final(self).ok(final(bp))
                    &&& kept(old(bp).pages(), final(bp).pages())
                    &&& final(bp).count() == old(bp).count()
                },
                Err(e) => e is Buffer && !holds_out(old(bp), height(old(self).tree@) + 2),
            },
    {
        let ghost a = bp.pages();
        let ghost t = self.tree@;
        let ghost fresh = bp.count() as int;
        let ghost ids = leaf_ids(t);
        let ghost g = grow(t, key@, rid, fresh);
        proof {
            lemma_tree_chain(a, t);
            bp.lemma_pages();
            lemma_owned_pages(a, t);
            assert(ids.subrange(0, ids.len() as int) =~= ids);
        }
        let up: Option<(Vec<u8>, PageId)> = match insert_rec(
            bp,
            self.root,
            key,
            rid,
            Ghost(t),
            Ghost(ids),
            Ghost(0),
            Ghost(None),
            Ghost(None),
        ) {
            Ok(u) => u,
            Err(e) => {
                proof {
                    if e is KeyTooLarge {
                        lemma_tree_kept(a, bp.pages(), t);
                    }
                }
                return Err(e);
            },
        };
        let ghost m = bp.pages();
        proof {
            law_insert_sets_the_key(t, key@, rid, fresh);
            lemma_grow_ordered(t, key@, rid, fresh, None, None, height(t));
            lemma_ordered_shape(t, None, None);
            lemma_grow_apart(t, key@, rid, fresh, height(t));
            lemma_grown_tree_owns(t, key@, rid, fresh);
            lemma_has_leaf(g.tree, height(t));
            assert(swapped(ids, 0, leaves(t).len() as int, ids_of(grown_leaves(g))) =~= ids_of(
                grown_leaves(g),
            ));
            if self.meta is Some {
                assert(a.dom().contains(self.meta->0));
            }
        }
        match up {
            None => {
                proof {
                    assert(grown_leaves(g) =~= leaves(g.tree));
                    self.tree@ = g.tree;
                }
            },
            Some((sep, right_pid)) => {
                let old_root: PageId = self.root;
                let new_root: PageId = match alloc_node(bp, PageType::BTreeInternal) {
                    Ok(p) => p,
                    Err(e) => {
                        return Err(e);
                    },
                };
                let ghost m1 = bp.pages();
                let mut keys: Vec<Vec<u8>> = Vec::new();
                keys.push(sep);
                let mut children: Vec<PageId> = Vec::new();
                children.push(old_root);
                children.push(right_pid);
                let node: Internal = Internal { keys, children };
                let ghost u = grown_tree(t, key@, rid, fresh);
                let ghost rt = (g.up->0).1;
                proof {
                    assert(node.ks() =~= seq![(g.up->0).0]);
                    assert(u is Node && u->kids =~= seq![g.tree, rt]);
                    assert(node.children@ =~= kid_pids(u->kids));
                }
                match store_internal(bp, new_root, &node) {
                    Ok(()) => {},
                    Err(e) => {
                        return Err(e);
                    },
                }
                let ghost m2 = bp.pages();
                self.root = new_root;
                proof {
                    self.tree@ = u;
                    assert forall|q: PageId| #[trigger] m.dom().contains(q) implies m2.dom().contains(
                        q,
                    ) && m2[q] == m[q] by {
                        assert(m1.dom().contains(q));
                    }
                    lemma_rooted(m, m2, t, g, u, fresh);
                    if self.meta is Some {
                        assert(m.dom().contains(self.meta->0));
                        assert(!owns(g.tree, self.meta->0));
                        assert(!owns(rt, self.meta->0));
                    }
                }
                match self.write_meta_root(bp, new_root) {
                    Ok(()) => {},
                    Err(e) => {
                        return Err(e);
                    },
                }
                proof {
                    let b = bp.pages();
                    if self.meta is Some {
                        lemma_meta_written(m2, b, u, self.meta->0);
                    }
                    assert forall|p: PageId| #[trigger]
                        a.dom().contains(p) && !owns(t, p) && self.meta != Some(p) implies b.dom().contains(
                        p,
                    ) && b[p] == a[p] by {
                        assert(same_node(a, m, p));
                        assert(m.dom().contains(p));
                        assert(m2.dom().contains(p));
                    }
                }
            },
        }
        Ok(())
    }
}

/// A new root over the two halves of the old one.
proof fn lemma_rooted(m: Pages, b: Pages, t: Tree, g: Grown, u: Tree, fresh: int)
    requires
        g.up is Some,
        shaped(m, g.tree),
        shaped(m, (g.up->0).1),
        linked(m, ids_of(grown_leaves(g))),
        grown_apart(g, t, fresh),
        forall|p: PageId| #[trigger] owns(t, p) ==> p < fresh,
        0 <= fresh <= g.fresh,
        g.fresh <= u32::MAX,
        u is Node,
        u.pid() == g.fresh,
        u->kids == seq![g.tree, (g.up->0).1],
        internal_page(b, u.pid(), u->ks, kid_pids(u->kids)),
        kept(m, b),
        ordered(u, None, None),
        level(u, height(u)),
    ensures
        tree_ok(b, u),
        forall|p: PageId| #[trigger]
            owns(u, p) ==> p == u.pid() || owns(g.tree, p) || owns((g.up->0).1, p),
{
    let rt = (g.up->0).1;
    let kids = u->kids;
    lemma_shaped_kept(m, b, g.tree);
    lemma_shaped_kept(m, b, rt);
    assert forall|i: int| 0 <= i < kids.len() implies shaped(b, #[trigger] kids[i]) && apart(kids[i])
        && !owns(kids[i], u.pid()) by {
        if owns(kids[i], u.pid()) {
            assert(owns(t, u.pid()) || fresh <= u.pid() < g.fresh);
        }
    }
    assert(shaped(b, u));
    assert(apart(u));
    assert(leaves_to(kids, 0) =~= Seq::<LeafOf>::empty());
    assert(leaves_to(kids, 1) =~= leaves(g.tree));
    assert(leaves_to(kids, 2) =~= leaves(g.tree) + leaves(rt));
    assert(leaves(u) =~= grown_leaves(g));
    let ids = leaf_ids(u);
    assert forall|i: int| 0 <= i < ids.len() implies prev_of(b, #[trigger] ids[i]) == prev_of(
        m,
        ids[i],
    ) && next_of(b, ids[i]) == next_of(m, ids[i]) by {
        if i < leaves(g.tree).len() {
            lemma_leaf_owned(m, g.tree, i);
        } else {
            lemma_leaf_owned(m, rt, i - leaves(g.tree).len());
        }
        assert(m.dom().contains(ids[i]));
    }
    lemma_linked_same(m, b, ids);
    assert forall|p: PageId| #[trigger] owns(u, p) implies p == u.pid() || owns(g.tree, p) || owns(
        rt,
        p,
    ) by {
        if p != u.pid() {
            let i = choose|i: int| 0 <= i < kids.len() && owns(#[trigger] kids[i], p);
            assert(kids[i] == g.tree || kids[i] == rt);
        }
    }
}

/// Writing a page that is none of the tree's leaves the tree alone.
proof fn lemma_meta_written(a: Pages, b: Pages, t: Tree, p: PageId)
    requires
        tree_ok(a, t),
        wrote(a, b, p),
        !owns(t, p),
    ensures
        tree_ok(b, t),
{
    lemma_owned_pages(a, t);
    assert forall|q: PageId| #[trigger] owns(t, q) implies same_node(a, b, q) by {
        assert(q != p);
        assert(a.dom().contains(q));
    }
    lemma_shaped_on(a, b, t);
    let ids = leaf_ids(t);
    assert forall|i: int| 0 <= i < ids.len() implies prev_of(b, #[trigger] ids[i]) == prev_of(
        a,
        ids[i],
    ) && next_of(b, ids[i]) == next_of(a, ids[i]) by {
        lemma_leaf_owned(a, t, i);
        assert(a.dom().contains(ids[i]));
    }
    lemma_linked_same(a, b, ids);
}

/// The links of every page are as they were.
pub open spec fn same_links(a: Pages, b: Pages) -> bool {
    forall|p: PageId| #[trigger]
        a.dom().contains(p) ==> b.dom().contains(p) && prev_of(b, p) == prev_of(a, p) && next_of(
            b,
            p,
        ) == next_of(a, p)
}

/// Remove `key` from the subtree on page `pid`; tells whether it was there.
#[verifier::rlimit(40)]
fn delete_rec<P: Pager>(
    bp: &mut P,
    pid: PageId,
    key: &[u8],
    Ghost(t): Ghost<Tree>,
    Ghost(low): Ghost<Option<Seq<u8>>>,
    Ghost(high): Ghost<Option<Seq<u8>>>,
) -> (r: Result<bool, BtreeError>)
    requires
        old(bp).pager_ok(),
        t.pid() == pid,
        shaped(old(bp).pages(), t),
        apart(t),
        ordered(t, low, high),
        level(t, height(t)),
    ensures
        final(bp).pager_ok(),
        final(bp).count() == old(bp).count(),
        final(bp).reach() == old(bp).reach(),
        match r {
            Ok(found) => {
                let a = old(bp).pages();
                let b = final(bp).pages();
                &&& found == present(flat(t), key@)
                &&& shaped(b, shrink(t, key@))
                &&& same_links(a, b)
                &&& forall|p: PageId| #[trigger]
                    a.dom().contains(p) && !owns(t, p) ==> b[p] == a[p]
            },
            Err(e) => {
                &&& e is Buffer
                &&& !holds_out(old(bp), 0)
                &&& kept(old(bp).pages(), final(bp).pages())
            },
        },
    decreases t,
{
    let ghost a = bp.pages();
    let loaded: Node = match load(bp, pid) {
        Ok(n) => n,
        Err(e) => {
            return Err(e);
        },
    };
    let ghost a0 = bp.pages();
    proof {
        bp.lemma_pages();
        lemma_shaped_kept(a, a0, t);
        lemma_owned_pages(a0, t);
    }
    match loaded {
        Node::Leaf(mut leaf) => {
            proof {
                assert(t is Leaf);
                lemma_leaf_body_unique(body_at(a, pid), leaf.es(), t->es);
                lemma_leaf_fits(a0, pid, t->es);
                lemma_one_leaf(pid, t->es);
            }
            let ghost es = leaf.es();
            match search(&leaf.entries, key) {
                Ok(i) => {
                    let ghost before = leaf.entries@;
                    let _gone: (Vec<u8>, Rid) = leaf.entries.remove(i);
                    proof {
                        assert(leaf.es() =~= cut(es, key@));
                        lemma_cut_size(es, i as int);
                    }
                    match store_leaf(bp, pid, &leaf) {
                        Ok(()) => {
                            proof {
                                let b = bp.pages();
                                let u = shrink(t, key@);
                                assert(u is Leaf && shaped(b, u));
                                assert forall|p: PageId| #[trigger] a.dom().contains(p) implies b.dom().contains(
                                    p,
                                ) && prev_of(b, p) == prev_of(a, p) && next_of(b, p) == next_of(
                                    a,
                                    p,
                                ) && (!owns(t, p) ==> b[p] == a[p]) by {
                                    assert(a0.dom().contains(p));
                                }
                            }
                            Ok(true)
                        },
                        Err(e) => {
                            proof {
                                lemma_kept_trans(a, a0, bp.pages());
                            }
                            Err(e)
                        },
                    }
                },
                Err(_) => {
                    proof {
                        let u = shrink(t, key@);
                        assert(u == t);
                    }
                    Ok(false)
                },
            }
        },
        Node::Internal(node) => {
            proof {
                assert(t is Node);
                lemma_internal_body_unique(
                    body_at(a, pid),
                    node.ks(),
                    node.children@,
                    t->ks,
                    kid_pids(t->kids),
                );
                lemma_child_of(t->ks, key@);
            }
            let i: usize = node.child_index(key);
            let ghost ks = t->ks;
            let ghost kids = t->kids;
            let ghost kid = kids[i as int];
            let ghost klow = low_of(ks, i as int, low);
            let ghost khigh = high_of(ks, i as int, high);
            proof {
                assert(kid_pids(kids)[i as int] == kid.pid());
                assert(shaped(a0, kid));
                assert(apart(kid));
                assert(ordered(kid, klow, khigh));
                assert(level(kid, height(t) - 1));
                lemma_has_leaf(kid, height(t) - 1);
                assert(decreases_to!(t => t->kids));
                lemma_child_decides(t, low, high, key@);
                lemma_middle(
                    before_child(kids, i as int),
                    flat(kid),
                    after_child(kids, i as int),
                    key@,
                    Rid { page: 0, slot: 0 },
                );
            }
            match delete_rec(
                bp,
                node.children[i],
                key,
                Ghost(kid),
                Ghost(klow),
                Ghost(khigh),
            ) {
                Ok(found) => {
                    proof {
                        lemma_shrunk_shape(a0, bp.pages(), t, i as int, key@, klow, khigh);
                        assert forall|p: PageId| #[trigger] a.dom().contains(p) implies bp.pages().dom().contains(
                            p,
                        ) && prev_of(bp.pages(), p) == prev_of(a, p) && next_of(bp.pages(), p)
                            == next_of(a, p) && (!owns(t, p) ==> bp.pages()[p] == a[p]) by {
                            assert(a0.dom().contains(p));
                            if owns(kid, p) {
                                assert(owns(t, p));
                            }
                        }
                    }
                    Ok(found)
                },
                Err(e) => {
                    proof {
                        lemma_kept_trans(a, a0, bp.pages());
                    }
                    Err(e)
                },
            }
        },
    }
}

/// One entry fewer takes less room.
proof fn lemma_cut_size(es: Seq<Entry>, i: int)
    requires
        0 <= i < es.len(),
    ensures
        leaf_len(es.remove(i)) <= leaf_len(es),
{
    let rest = es.remove(i);
    assert(rest.insert(i, es[i]) =~= es);
    lemma_grown_size(rest, i, es[i]);
}

/// A node whose child has lost a key.
proof fn lemma_shrunk_shape(
    a: Pages,
    b: Pages,
    t: Tree,
    i: int,
    key: Seq<u8>,
    klow: Option<Seq<u8>>,
    khigh: Option<Seq<u8>>,
)
    requires
        t is Node,
        shaped(a, t),
        apart(t),
        t->kids.len() == t->ks.len() + 1,
        i == child_of(t->ks, key),
        0 <= i < t->kids.len(),
        ordered(t->kids[i], klow, khigh),
        level(t->kids[i], height(t->kids[i])),
        shaped(b, shrink(t->kids[i], key)),
        forall|p: PageId| #[trigger] a.dom().contains(p) ==> b.dom().contains(p),
        forall|p: PageId| #[trigger]
            a.dom().contains(p) && !owns(t->kids[i], p) ==> b[p] == a[p],
    ensures
        shaped(b, shrink(t, key)),
{
    let kids = t->kids;
    let k = shrink(kids[i], key);
    let kids2 = kids.update(i, k);
    let u = shrink(t, key);
    assert(u is Node && u->kids == kids2 && u.pid() == t.pid() && u->ks == t->ks);
    lemma_shrink_ordered(kids[i], key, klow, khigh, height(kids[i]));
    assert(kid_pids(kids2) =~= kid_pids(kids));
    lemma_owned_pages(a, t);
    assert(owns(t, t.pid()));
    assert(!owns(kids[i], t.pid()));
    assert forall|j: int| 0 <= j < kids2.len() implies shaped(b, #[trigger] kids2[j]) by {
        if j != i {
            assert(shaped(a, kids[j]));
            lemma_owned_pages(a, kids[j]);
            assert forall|p: PageId| #[trigger] owns(kids[j], p) implies same_node(a, b, p) by {
                if j < i {
                    assert(crate::btree::tree::disjoint(kids[j], kids[i]));
                } else {
                    assert(crate::btree::tree::disjoint(kids[i], kids[j]));
                }
                assert(!owns(kids[i], p));
                assert(a.dom().contains(p));
            }
            lemma_shaped_on(a, b, kids[j]);
        }
    }
}

/// Removing a key from a well-formed tree removes it from what the tree holds.
pub proof fn law_delete_removes_the_key(t: Tree, key: Seq<u8>)
    requires
        ordered(t, None, None),
        level(t, height(t)),
    ensures
        ordered(shrink(t, key), None, None),
        level(shrink(t, key), height(t)),
        flat(shrink(t, key)) == cut(flat(t), key),
        contents(shrink(t, key)) == contents(t).remove(key),
{
    lemma_shrink_ordered(t, key, None, None, height(t));
    lemma_ordered_flat(t, None, None);
    lemma_cut(flat(t), key);
}

impl BTree {
    /// Remove `key`; tells whether it was there.
    pub fn delete<P: Pager>(&mut self, bp: &mut P, key: &[u8]) -> (r: Result<bool, BtreeError>)
        requires
            old(self).ok(old(bp)),
        ensures
            final(bp).pager_ok(),
            final(bp).count() == old(bp).count(),
            final(bp).reach() == old(bp).reach(),
            final(self).root == old(self).root,
            final(self).meta == old(self).meta,
            final(self).ok(final(bp)),
            match r {
                Ok(found) => {
                    &&& found == old(self)@.entries.dom().contains(key@)
                    &&& final(self)@.entries == old(self)@.entries.remove(key@)
                    &&& final(self).tree@ == shrink(old(self).tree@, key@)
                    &&& forall|p: PageId| #[trigger]
                        old(bp).pages().dom().contains(p) && !owns(old(self).tree@, p)
                            ==> final(bp).pages().dom().contains(p) && final(bp).pages()[p] == old(bp).pages()[p]
                },
                Err(e) => {
                    &&& e is Buffer
                    &&& !holds_out(old(bp), 0)
                    &&& final(self)@ == old(self)@
                    &&& kept(old(bp).pages(), final(bp).pages())
                },
            },
    {
        let ghost a = bp.pages();
        let ghost t = self.tree@;
        proof {
            lemma_owned_pages(a, t);
            lemma_ordered_flat(t, None, None);
            lemma_rank_finds(flat(t), key@);
        }
        match delete_rec(bp, self.root, key, Ghost(t), Ghost(None), Ghost(None)) {
            Ok(found) => {
                proof {
                    let b = bp.pages();
                    let u = shrink(t, key@);
                    law_delete_removes_the_key(t, key@);
                    lemma_shrink_ordered(t, key@, None, None, height(t));
                    lemma_shrink_apart(t, key@);
                    lemma_has_leaf(u, height(t));
                    let ids = leaf_ids(t);
                    assert forall|i: int| 0 <= i < ids.len() implies prev_of(b, #[trigger] ids[i])
                        == prev_of(a, ids[i]) && next_of(b, ids[i]) == next_of(a, ids[i]) by {
                        lemma_leaf_owned(a, t, i);
                        assert(a.dom().contains(ids[i]));
                    }
                    lemma_linked_same(a, b, ids);
                    self.tree@ = u;
                    if self.meta is Some {
                        assert(a.dom().contains(self.meta->0));
                    }
                }
                Ok(found)
            },
            Err(e) => {
                proof {
                    lemma_tree_kept(a, bp.pages(), t);
                }
                Err(e)
            },
        }
    }
}

/// A tree of short keys takes any short key, and is a tree of short keys again.
pub proof fn law_short_keys_are_insertable(pages: Pages, t: Tree, key: Seq<u8>, rid: Rid, fresh: int)
    requires
        tree_ok(pages, t),
        forall|p: PageId| #[trigger] pages.dom().contains(p) ==> pages[p].len() == PAGE_SIZE - 4,
        short(t),
        key.len() <= SHORT_KEY,
    ensures
        insertable(t, key, rid, fresh),
        short(grown_tree(t, key, rid, fresh)),
{
    lemma_fitting(pages, t);
    lemma_ordered_shape(t, None, None);
    law_short_keys_always_fit(t, key, rid, fresh);
    let g = grow(t, key, rid, fresh);
    if g.up is Some {
        let sep = (g.up->0).0;
        let ks = seq![sep];
        assert(sum_to(key_sizes(ks), 1) == sum_to(key_sizes(ks), 0) + key_sizes(ks)[0]);
        let u = grown_tree(t, key, rid, fresh);
        assert(u is Node && u->ks =~= ks);
    }
}

} // verus!
