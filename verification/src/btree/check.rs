//! Checking a B-tree: order, bounds, balance and the chain of leaves.

use vstd::prelude::*;

use crate::btree::node::{
    ascending, in_bounds, leaf_len, leaf_ser_len, lemma_internal_body_unique,
    lemma_leaf_body_unique, within, Entry, Internal, Leaf, Node, NIL,
};
use crate::btree::tree::{
    apart, body_at, concat, disjoint, flat, height, high_of, id_at, internal_page, ids_of, keys_ascending,
    kid_pids, leaf_ids, leaf_page, leaves, leaves_to,
    lemma_concat_add, lemma_has_leaf, lemma_leaf_owned, lemma_ordered_flat, level, linked,
    linked_at, low_of, next_of, ordered, owns, prev_of, shaped, tree_ok, type_at, LeafOf, Tree,
};
use crate::btree::walk::leftmost_leaf;
use crate::btree::{
    lemma_kept_trans, lemma_leaf_fits, lemma_shaped_kept, load, readable_node, BTree, BtreeError,
};
use crate::buffer::PageId;
use crate::bytes::{bytes_lt, copy_bytes, lemma_lex_transitive, lex_lt};
use crate::heap::Pages;
use crate::page::raw::BODY_CAPACITY;
use crate::page::{PageType, PAGE_SIZE};
use crate::pager::{holds_out, kept, Pager};
use crate::text::{
    around, decimal, decimal_text, list_text, option_text, show_list, show_option,
};

verus! {

/// Something wrong with a tree.
#[derive(Debug, PartialEq, Eq)]
pub enum Violation {
    /// Two neighbouring keys of a leaf do not ascend.
    LeafOrder(PageId),
    /// A key of a leaf lies outside the bounds of its subtree.
    LeafBounds(PageId),
    /// A leaf takes more than a page.
    LeafOverflow(PageId),
    /// An inner node does not have one child more than separators.
    ChildCount(PageId),
    /// Two neighbouring separators do not ascend.
    SeparatorOrder(PageId),
    /// A separator lies outside the bounds of its subtree.
    SeparatorBounds(PageId),
    /// Leaves lie at these different depths.
    Unbalanced(Vec<u32>),
    /// A leaf names `prev`, but `seen` came before it on the chain.
    PrevLink { leaf: PageId, prev: PageId, seen: Option<PageId> },
    /// Keys do not ascend along the chain at this leaf.
    ChainOrder(PageId),
    /// The chain, and the leaves as the tree has them.
    Chain { chain: Vec<PageId>, leaves: Vec<PageId> },
}

/// The same over plain sequences.
pub enum Fault {
    LeafOrder(PageId),
    LeafBounds(PageId),
    LeafOverflow(PageId),
    ChildCount(PageId),
    SeparatorOrder(PageId),
    SeparatorBounds(PageId),
    Unbalanced(Seq<u32>),
    PrevLink(PageId, int, Option<PageId>),
    ChainOrder(PageId),
    Chain(Seq<PageId>, Seq<PageId>),
}

impl Violation {
    pub open spec fn view(&self) -> Fault {
        match *self {
            Violation::LeafOrder(p) => Fault::LeafOrder(p),
            Violation::LeafBounds(p) => Fault::LeafBounds(p),
            Violation::LeafOverflow(p) => Fault::LeafOverflow(p),
            Violation::ChildCount(p) => Fault::ChildCount(p),
            Violation::SeparatorOrder(p) => Fault::SeparatorOrder(p),
            Violation::SeparatorBounds(p) => Fault::SeparatorBounds(p),
            Violation::Unbalanced(d) => Fault::Unbalanced(d@),
            Violation::PrevLink { leaf, prev, seen } => Fault::PrevLink(leaf, prev as int, seen),
            Violation::ChainOrder(p) => Fault::ChainOrder(p),
            Violation::Chain { chain, leaves } => Fault::Chain(chain@, leaves@),
        }
    }
}

/// What a report says of a fault.
pub open spec fn fault_text(f: Fault) -> Seq<char> {
    match f {
        Fault::LeafOrder(p) => "leaf "@ + decimal(p as nat) + ": keys not strictly ascending"@,
        Fault::LeafBounds(p) => "leaf "@ + decimal(p as nat) + ": key out of subtree bounds"@,
        Fault::LeafOverflow(p) => "leaf "@ + decimal(p as nat) + ": overflows page"@,
        Fault::ChildCount(p) => "internal "@ + decimal(p as nat) + ": children != keys+1"@,
        Fault::SeparatorOrder(p) => "internal "@ + decimal(p as nat)
            + ": separators not ascending"@,
        Fault::SeparatorBounds(p) => "internal "@ + decimal(p as nat)
            + ": separator out of bounds"@,
        Fault::Unbalanced(d) => "unbalanced: leaf depths vary "@ + list_text(d),
        Fault::PrevLink(p, prev, seen) => "leaf "@ + decimal(p as nat) + " prev="@ + decimal(
            prev as nat,
        ) + " but predecessor was "@ + option_text(seen),
        Fault::ChainOrder(p) => "keys not ascending across chain at leaf "@ + decimal(p as nat),
        Fault::Chain(chain, leaves) => "sibling chain "@ + list_text(chain)
            + " != DFS leaf order "@ + list_text(leaves),
    }
}

impl Violation {
    /// What a report says of it.
    pub fn text(&self) -> (t: String)
        ensures
            t@ == fault_text(self@),
    {
        match self {
            Violation::LeafOrder(p) => around("leaf ", *p, ": keys not strictly ascending"),
            Violation::LeafBounds(p) => around("leaf ", *p, ": key out of subtree bounds"),
            Violation::LeafOverflow(p) => around("leaf ", *p, ": overflows page"),
            Violation::ChildCount(p) => around("internal ", *p, ": children != keys+1"),
            Violation::SeparatorOrder(p) => around("internal ", *p, ": separators not ascending"),
            Violation::SeparatorBounds(p) => around("internal ", *p, ": separator out of bounds"),
            Violation::Unbalanced(d) => "unbalanced: leaf depths vary ".to_owned().concat(
                show_list(d).as_str(),
            ),
            Violation::PrevLink { leaf, prev, seen } => around("leaf ", *leaf, " prev=").concat(
                decimal_text(*prev as u64).as_str(),
            ).concat(" but predecessor was ").concat(show_option(*seen).as_str()),
            Violation::ChainOrder(p) => "keys not ascending across chain at leaf ".to_owned().concat(
                decimal_text(*p as u64).as_str(),
            ),
            Violation::Chain { chain, leaves } => "sibling chain ".to_owned().concat(
                show_list(chain).as_str(),
            ).concat(" != DFS leaf order ").concat(show_list(leaves).as_str()),
        }
    }
}

pub open spec fn faults_of(v: Seq<Violation>) -> Seq<Fault> {
    Seq::new(v.len(), |i: int| v[i].view())
}

#[derive(Debug)]
pub struct CheckReport {
    pub nodes: u64,
    pub leaves: u64,
    pub entries: u64,
    pub height: u32,
    pub violations: Vec<Violation>,
}

impl Default for CheckReport {
    fn default() -> (r: CheckReport)
        ensures
            r.nodes == 0,
            r.leaves == 0,
            r.entries == 0,
            r.height == 0,
            r.violations@ == Seq::<Violation>::empty(),
    {
        CheckReport { nodes: 0, leaves: 0, entries: 0, height: 0, violations: Vec::new() }
    }
}

impl CheckReport {
    /// Nothing is wrong.
    pub fn ok(&self) -> (r: bool)
        ensures
            r == (self.violations@.len() == 0),
    {
        self.violations.len() == 0
    }
}

// ---- what is found node by node ----

/// One fault for each of the first `n` entries that is not above the one before it.
pub open spec fn order_faults(es: Seq<Entry>, n: int, f: Fault) -> Seq<Fault>
    decreases n,
{
    if n <= 1 {
        Seq::empty()
    } else {
        order_faults(es, n - 1, f) + if lex_lt(es[n - 2].0, es[n - 1].0) {
            Seq::empty()
        } else {
            seq![f]
        }
    }
}

/// One fault for each of the first `n` entries that is out of bounds.
pub open spec fn bound_faults(
    es: Seq<Entry>,
    low: Option<Seq<u8>>,
    high: Option<Seq<u8>>,
    n: int,
    f: Fault,
) -> Seq<Fault>
    decreases n,
{
    if n <= 0 {
        Seq::empty()
    } else {
        bound_faults(es, low, high, n - 1, f) + if within(es[n - 1].0, low, high) {
            Seq::empty()
        } else {
            seq![f]
        }
    }
}

/// Keys as entries, so that they are checked alike.
pub open spec fn as_entries(ks: Seq<Seq<u8>>) -> Seq<Entry> {
    Seq::new(ks.len(), |i: int| (ks[i], crate::heap::Rid { page: 0, slot: 0 }))
}

pub open spec fn node_faults(t: Tree, low: Option<Seq<u8>>, high: Option<Seq<u8>>) -> Seq<Fault>
    decreases t, 0int,
{
    match t {
        Tree::Leaf { pid, es } => order_faults(es, es.len() as int, Fault::LeafOrder(pid))
            + bound_faults(es, low, high, es.len() as int, Fault::LeafBounds(pid)),
        Tree::Node { pid, ks, kids } => order_faults(
            as_entries(ks),
            ks.len() as int,
            Fault::SeparatorOrder(pid),
        ) + bound_faults(
            as_entries(ks),
            low,
            high,
            ks.len() as int,
            Fault::SeparatorBounds(pid),
        ) + kid_faults(ks, kids, low, high, kids.len() as int),
    }
}

/// What is found below the first `n` children.
pub open spec fn kid_faults(
    ks: Seq<Seq<u8>>,
    kids: Seq<Tree>,
    low: Option<Seq<u8>>,
    high: Option<Seq<u8>>,
    n: int,
) -> Seq<Fault>
    decreases kids, n,
{
    if n <= 0 || n > kids.len() {
        Seq::empty()
    } else {
        kid_faults(ks, kids, low, high, n - 1) + node_faults(
            kids[n - 1],
            low_of(ks, n - 1, low),
            high_of(ks, n - 1, high),
        )
    }
}

/// How many nodes there are.
pub open spec fn node_count(t: Tree) -> int
    decreases t, 0int,
{
    match t {
        Tree::Leaf { pid, es } => 1,
        Tree::Node { pid, ks, kids } => 1 + kid_count(kids, kids.len() as int),
    }
}

pub open spec fn kid_count(kids: Seq<Tree>, n: int) -> int
    decreases kids, n,
{
    if n <= 0 || n > kids.len() {
        0
    } else {
        kid_count(kids, n - 1) + node_count(kids[n - 1])
    }
}

/// How many levels there are below the top.
pub open spec fn deepest(t: Tree) -> int
    decreases t, 0int,
{
    match t {
        Tree::Leaf { pid, es } => 0,
        Tree::Node { pid, ks, kids } => 1 + kid_deepest(kids, kids.len() as int),
    }
}

pub open spec fn kid_deepest(kids: Seq<Tree>, n: int) -> int
    decreases kids, n,
{
    if n <= 0 || n > kids.len() {
        0
    } else {
        let d = kid_deepest(kids, n - 1);
        if d >= deepest(kids[n - 1]) {
            d
        } else {
            deepest(kids[n - 1])
        }
    }
}

/// The depth of each leaf, the top being at `d`.
pub open spec fn depths(t: Tree, d: int) -> Seq<u32>
    decreases t, 0int,
{
    match t {
        Tree::Leaf { pid, es } => seq![d as u32],
        Tree::Node { pid, ks, kids } => kid_depths(kids, d + 1, kids.len() as int),
    }
}

pub open spec fn kid_depths(kids: Seq<Tree>, d: int, n: int) -> Seq<u32>
    decreases kids, n,
{
    if n <= 0 || n > kids.len() {
        Seq::empty()
    } else {
        kid_depths(kids, d, n - 1) + depths(kids[n - 1], d)
    }
}

/// What the check of a subtree adds to a report.
pub open spec fn added(
    a: &CheckReport,
    b: &CheckReport,
    nodes: int,
    leaves: int,
    entries: int,
    faults: Seq<Fault>,
) -> bool {
    &&& b.nodes == a.nodes + nodes
    &&& b.leaves == a.leaves + leaves
    &&& b.entries == a.entries + entries
    &&& b.height == a.height
    &&& faults_of(b.violations@) == faults_of(a.violations@) + faults
}

proof fn lemma_push_fault(v: Seq<Violation>, x: Violation)
    ensures
        faults_of(v.push(x)) == faults_of(v).push(x.view()),
{
    assert(faults_of(v.push(x)) =~= faults_of(v).push(x.view()));
}

fn check_leaf(
    pid: PageId,
    leaf: &Leaf,
    low: &Option<Vec<u8>>,
    high: &Option<Vec<u8>>,
    report: &mut CheckReport,
)
    requires
        leaf_len(leaf.es()) <= BODY_CAPACITY,
    ensures
        added(
            old(report),
            final(report),
            0,
            0,
            0,
            order_faults(leaf.es(), leaf.es().len() as int, Fault::LeafOrder(pid)) + bound_faults(
                leaf.es(),
                end_of(low),
                end_of(high),
                leaf.es().len() as int,
                Fault::LeafBounds(pid),
            ),
        ),
{
    let ghost es = leaf.es();
    let ghost start = faults_of(report.violations@);
    let n: usize = leaf.entries.len();
    let mut i: usize = 1;
    assert(start =~= start + order_faults(es, 1, Fault::LeafOrder(pid)));
    while i < n
        invariant
            1 <= i,
            n == leaf.entries@.len(),
            es == leaf.es(),
            i <= n || i == 1,
            report.nodes == old(report).nodes,
            report.leaves == old(report).leaves,
            report.entries == old(report).entries,
            report.height == old(report).height,
            faults_of(report.violations@) == start + order_faults(
                es,
                i as int,
                Fault::LeafOrder(pid),
            ),
        decreases n - i,
    {
        assert(es[i - 1].0 == leaf.entries@[i - 1].0@ && es[i as int].0 == leaf.entries@[i as int].0@);
        if !bytes_lt(leaf.entries[i - 1].0.as_slice(), leaf.entries[i].0.as_slice()) {
            proof {
                lemma_push_fault(report.violations@, Violation::LeafOrder(pid));
            }
            report.violations.push(Violation::LeafOrder(pid));
        }
        assert(faults_of(report.violations@) =~= start + order_faults(
            es,
            i + 1,
            Fault::LeafOrder(pid),
        ));
        i = i + 1;
    }
    let ghost mid = faults_of(report.violations@);
    assert(order_faults(es, i as int, Fault::LeafOrder(pid)) =~= order_faults(
        es,
        n as int,
        Fault::LeafOrder(pid),
    ));
    let mut j: usize = 0;
    assert(mid =~= mid + bound_faults(es, end_of(low), end_of(high), 0, Fault::LeafBounds(pid)));
    while j < n
        invariant
            j <= n == leaf.entries@.len(),
            es == leaf.es(),
            report.nodes == old(report).nodes,
            report.leaves == old(report).leaves,
            report.entries == old(report).entries,
            report.height == old(report).height,
            faults_of(report.violations@) == mid + bound_faults(
                es,
                end_of(low),
                end_of(high),
                j as int,
                Fault::LeafBounds(pid),
            ),
        decreases n - j,
    {
        assert(es[j as int].0 == leaf.entries@[j as int].0@);
        if !inside(leaf.entries[j].0.as_slice(), low, high) {
            proof {
                lemma_push_fault(report.violations@, Violation::LeafBounds(pid));
            }
            report.violations.push(Violation::LeafBounds(pid));
        }
        assert(faults_of(report.violations@) =~= mid + bound_faults(
            es,
            end_of(low),
            end_of(high),
            j + 1,
            Fault::LeafBounds(pid),
        ));
        j = j + 1;
    }
    if leaf_ser_len(&leaf.entries) > BODY_CAPACITY {
        report.violations.push(Violation::LeafOverflow(pid));
    }
    assert(faults_of(report.violations@) =~= start + (order_faults(
        es,
        n as int,
        Fault::LeafOrder(pid),
    ) + bound_faults(es, end_of(low), end_of(high), n as int, Fault::LeafBounds(pid))));
}

/// An end of a range as a plain sequence.
pub open spec fn end_of(o: &Option<Vec<u8>>) -> Option<Seq<u8>> {
    match *o {
        Some(v) => Some(v@),
        None => None,
    }
}

fn inside(k: &[u8], low: &Option<Vec<u8>>, high: &Option<Vec<u8>>) -> (r: bool)
    ensures
        r == within(k@, end_of(low), end_of(high)),
{
    let l: Option<&[u8]> = match low {
        Some(v) => Some(v.as_slice()),
        None => None,
    };
    let h: Option<&[u8]> = match high {
        Some(v) => Some(v.as_slice()),
        None => None,
    };
    in_bounds(k, l, h)
}

fn check_separators(
    pid: PageId,
    node: &Internal,
    low: &Option<Vec<u8>>,
    high: &Option<Vec<u8>>,
    report: &mut CheckReport,
)
    requires
        node.children@.len() == node.keys@.len() + 1,
    ensures
        added(
            old(report),
            final(report),
            0,
            0,
            0,
            order_faults(
                as_entries(node.ks()),
                node.ks().len() as int,
                Fault::SeparatorOrder(pid),
            ) + bound_faults(
                as_entries(node.ks()),
                end_of(low),
                end_of(high),
                node.ks().len() as int,
                Fault::SeparatorBounds(pid),
            ),
        ),
{
    let ghost es = as_entries(node.ks());
    let ghost start = faults_of(report.violations@);
    let n: usize = node.keys.len();
    if node.children.len() != n + 1 {
        report.violations.push(Violation::ChildCount(pid));
    }
    let mut i: usize = 1;
    assert(start =~= start + order_faults(es, 1, Fault::SeparatorOrder(pid)));
    while i < n
        invariant
            1 <= i,
            n == node.keys@.len(),
            es == as_entries(node.ks()),
            i <= n || i == 1,
            report.nodes == old(report).nodes,
            report.leaves == old(report).leaves,
            report.entries == old(report).entries,
            report.height == old(report).height,
            faults_of(report.violations@) == start + order_faults(
                es,
                i as int,
                Fault::SeparatorOrder(pid),
            ),
        decreases n - i,
    {
        assert(es[i - 1].0 == node.keys@[i - 1]@ && es[i as int].0 == node.keys@[i as int]@);
        if !bytes_lt(node.keys[i - 1].as_slice(), node.keys[i].as_slice()) {
            proof {
                lemma_push_fault(report.violations@, Violation::SeparatorOrder(pid));
            }
            report.violations.push(Violation::SeparatorOrder(pid));
        }
        assert(faults_of(report.violations@) =~= start + order_faults(
            es,
            i + 1,
            Fault::SeparatorOrder(pid),
        ));
        i = i + 1;
    }
    let ghost mid = faults_of(report.violations@);
    assert(order_faults(es, i as int, Fault::SeparatorOrder(pid)) =~= order_faults(
        es,
        n as int,
        Fault::SeparatorOrder(pid),
    ));
    let mut j: usize = 0;
    assert(mid =~= mid + bound_faults(
        es,
        end_of(low),
        end_of(high),
        0,
        Fault::SeparatorBounds(pid),
    ));
    while j < n
        invariant
            j <= n == node.keys@.len(),
            es == as_entries(node.ks()),
            report.nodes == old(report).nodes,
            report.leaves == old(report).leaves,
            report.entries == old(report).entries,
            report.height == old(report).height,
            faults_of(report.violations@) == mid + bound_faults(
                es,
                end_of(low),
                end_of(high),
                j as int,
                Fault::SeparatorBounds(pid),
            ),
        decreases n - j,
    {
        assert(es[j as int].0 == node.keys@[j as int]@);
        if !inside(node.keys[j].as_slice(), low, high) {
            proof {
                lemma_push_fault(report.violations@, Violation::SeparatorBounds(pid));
            }
            report.violations.push(Violation::SeparatorBounds(pid));
        }
        assert(faults_of(report.violations@) =~= mid + bound_faults(
            es,
            end_of(low),
            end_of(high),
            j + 1,
            Fault::SeparatorBounds(pid),
        ));
        j = j + 1;
    }
    assert(faults_of(report.violations@) =~= start + (order_faults(
        es,
        n as int,
        Fault::SeparatorOrder(pid),
    ) + bound_faults(es, end_of(low), end_of(high), n as int, Fault::SeparatorBounds(pid))));
}

proof fn lemma_kid_sums(kids: Seq<Tree>, m: int, n: int)
    requires
        0 <= m <= n <= kids.len(),
    ensures
        0 <= kid_count(kids, m) <= kid_count(kids, n),
        0 <= kid_deepest(kids, m) <= kid_deepest(kids, n),
        leaves_to(kids, m).len() <= leaves_to(kids, n).len(),
        concat(leaves_to(kids, m)).len() <= concat(leaves_to(kids, n)).len(),
        m < n ==> {
            &&& kid_count(kids, m) + node_count(kids[m]) <= kid_count(kids, n)
            &&& deepest(kids[m]) <= kid_deepest(kids, n)
            &&& leaves_to(kids, m).len() + leaves(kids[m]).len() <= leaves_to(kids, n).len()
            &&& concat(leaves_to(kids, m)).len() + flat(kids[m]).len() <= concat(
                leaves_to(kids, n),
            ).len()
        },
    decreases kids, n,
{
    if m < n {
        lemma_kid_sums(kids, m, n - 1);
        lemma_concat_add(leaves_to(kids, n - 1), leaves(kids[n - 1]));
        lemma_counts(kids[n - 1]);
    } else if m > 0 {
        lemma_kid_sums(kids, m - 1, n - 1);
        lemma_counts(kids[n - 1]);
    }
}

proof fn lemma_counts(t: Tree)
    ensures
        node_count(t) >= 1,
        deepest(t) >= 0,
    decreases t, 0int,
{
    match t {
        Tree::Leaf { pid, es } => {},
        Tree::Node { pid, ks, kids } => {
            lemma_kid_sums(kids, 0, kids.len() as int);
        },
    }
}

// ---- trees that end in pages that are no nodes ----

/// Page `p` is there, but is no node's.
pub open spec fn other_kind(pages: Pages, p: PageId) -> bool {
    &&& pages.dom().contains(p)
    &&& type_at(pages, p) != PageType::BTreeLeaf.byte()
    &&& type_at(pages, p) != PageType::BTreeInternal.byte()
}

/// No node can be read from page `p`: it is of another kind, or it cannot be had.
pub open spec fn misfit(pages: Pages, gone: Set<PageId>, p: PageId) -> bool {
    other_kind(pages, p) || gone.contains(p) && !pages.dom().contains(p)
}

/// The pages hold the nodes of the tree, but that where `t` has a leaf without entries
/// there may be a page that is no node.
pub open spec fn rough(pages: Pages, gone: Set<PageId>, t: Tree) -> bool
    decreases t,
{
    match t {
        Tree::Leaf { pid, es } => leaf_page(pages, pid, es) || misfit(pages, gone, pid) && es.len()
            == 0,
        Tree::Node { pid, ks, kids } => {
            &&& internal_page(pages, pid, ks, kid_pids(kids))
            &&& forall|i: int| 0 <= i < kids.len() ==> rough(pages, gone, #[trigger] kids[i])
        },
    }
}

/// The first of some leaves that is no node.
pub open spec fn first_misfit(pages: Pages, gone: Set<PageId>, ls: Seq<LeafOf>) -> Option<PageId>
    decreases ls.len(),
{
    if ls.len() == 0 {
        None
    } else {
        let before = first_misfit(pages, gone, ls.drop_last());
        if before is Some {
            before
        } else if misfit(pages, gone, ls.last().0) {
            Some(ls.last().0)
        } else {
            None
        }
    }
}

proof fn lemma_misfit_add(pages: Pages, gone: Set<PageId>, x: Seq<LeafOf>, y: Seq<LeafOf>)
    ensures
        first_misfit(pages, gone, x + y) == if first_misfit(pages, gone, x) is Some {
            first_misfit(pages, gone, x)
        } else {
            first_misfit(pages, gone, y)
        },
    decreases y.len(),
{
    if y.len() == 0 {
        assert(x + y =~= x);
    } else {
        lemma_misfit_add(pages, gone, x, y.drop_last());
        assert((x + y).drop_last() =~= x + y.drop_last());
    }
}

/// What is met first is met.
proof fn lemma_misfit_met(pages: Pages, gone: Set<PageId>, ls: Seq<LeafOf>)
    ensures
        first_misfit(pages, gone, ls) matches Some(p) ==> misfit(pages, gone, p),
    decreases ls.len(),
{
    if ls.len() > 0 {
        lemma_misfit_met(pages, gone, ls.drop_last());
    }
}

/// What is met first below some children is met first below more of them.
proof fn lemma_misfit_kids(pages: Pages, gone: Set<PageId>, kids: Seq<Tree>, m: int, n: int)
    requires
        0 <= m <= n <= kids.len(),
    ensures
        first_misfit(pages, gone, leaves_to(kids, m)) is Some ==> first_misfit(
            pages,
            gone,
            leaves_to(kids, n),
        ) == first_misfit(pages, gone, leaves_to(kids, m)),
    decreases n,
{
    if m < n {
        lemma_misfit_kids(pages, gone, kids, m, n - 1);
        lemma_misfit_add(pages, gone, leaves_to(kids, n - 1), leaves(kids[n - 1]));
    }
}

/// A tree none of whose leaves is a misfit is a tree on the pages.
proof fn lemma_rough_shaped(pages: Pages, gone: Set<PageId>, t: Tree)
    requires
        rough(pages, gone, t),
        first_misfit(pages, gone, leaves(t)) is None,
    ensures
        shaped(pages, t),
    decreases t,
{
    match t {
        Tree::Leaf { pid, es } => {
            let ls = leaves(t);
            assert(ls.drop_last() =~= Seq::<LeafOf>::empty());
            assert(ls.last() == (pid, es));
        },
        Tree::Node { pid, ks, kids } => {
            let n = kids.len() as int;
            assert forall|i: int| 0 <= i < n implies shaped(pages, #[trigger] kids[i]) by {
                lemma_misfit_kids(pages, gone, kids, i + 1, n);
                lemma_misfit_add(pages, gone, leaves_to(kids, i), leaves(kids[i]));
                lemma_misfit_kids(pages, gone, kids, i, n);
                assert(rough(pages, gone, kids[i]));
                lemma_rough_shaped(pages, gone, kids[i]);
            }
        },
    }
}

/// A tree on the pages has no misfits.
proof fn lemma_shaped_rough(pages: Pages, gone: Set<PageId>, t: Tree)
    requires
        shaped(pages, t),
    ensures
        rough(pages, gone, t),
        first_misfit(pages, gone, leaves(t)) is None,
    decreases t, 0int,
{
    match t {
        Tree::Leaf { pid, es } => {
            let ls = leaves(t);
            assert(ls.drop_last() =~= Seq::<LeafOf>::empty());
            assert(ls.last() == (pid, es));
            assert(first_misfit(pages, gone, ls.drop_last()) is None);
        },
        Tree::Node { pid, ks, kids } => {
            lemma_shaped_kids(pages, gone, kids, kids.len() as int);
        },
    }
}

proof fn lemma_shaped_kids(pages: Pages, gone: Set<PageId>, kids: Seq<Tree>, n: int)
    requires
        0 <= n <= kids.len(),
        forall|i: int| 0 <= i < kids.len() ==> shaped(pages, #[trigger] kids[i]),
    ensures
        first_misfit(pages, gone, leaves_to(kids, n)) is None,
        forall|i: int| 0 <= i < n ==> rough(pages, gone, #[trigger] kids[i]),
    decreases kids, n,
{
    if n > 0 {
        lemma_shaped_kids(pages, gone, kids, n - 1);
        assert(shaped(pages, kids[n - 1]));
        lemma_shaped_rough(pages, gone, kids[n - 1]);
        lemma_misfit_add(pages, gone, leaves_to(kids, n - 1), leaves(kids[n - 1]));
    }
}

/// More pages change nothing of a tree.
proof fn lemma_rough_kept(a: Pages, b: Pages, gone: Set<PageId>, t: Tree)
    requires
        rough(a, gone, t),
        kept(a, b),
        forall|p: PageId| #[trigger] gone.contains(p) ==> !b.dom().contains(p),
    ensures
        rough(b, gone, t),
    decreases t,
{
    match t {
        Tree::Leaf { pid, es } => {
            assert(a.dom().contains(pid) ==> b[pid] == a[pid]);
        },
        Tree::Node { pid, ks, kids } => {
            assert(b.dom().contains(pid) && b[pid] == a[pid]);
            assert forall|i: int| 0 <= i < kids.len() implies rough(b, gone, #[trigger] kids[i]) by {
                lemma_rough_kept(a, b, gone, kids[i]);
            }
        },
    }
}

/// Nor does it change where a tree ends.
proof fn lemma_misfits_kept(a: Pages, b: Pages, gone: Set<PageId>, t: Tree)
    requires
        rough(a, gone, t),
        kept(a, b),
        forall|p: PageId| #[trigger] gone.contains(p) ==> !b.dom().contains(p),
    ensures
        first_misfit(b, gone, leaves(t)) == first_misfit(a, gone, leaves(t)),
        first_misfit(a, gone, leaves(t)) matches Some(p) ==> other_kind(a, p) == other_kind(b, p),
    decreases t, 0int,
{
    match t {
        Tree::Leaf { pid, es } => {
            let ls = leaves(t);
            assert(ls.drop_last() =~= Seq::<LeafOf>::empty());
            assert(ls.last() == (pid, es));
            assert(first_misfit(a, gone, ls.drop_last()) is None);
            assert(first_misfit(b, gone, ls.drop_last()) is None);
            assert(a.dom().contains(pid) ==> b.dom().contains(pid) && b[pid] == a[pid]);
        },
        Tree::Node { pid, ks, kids } => {
            lemma_kid_misfits_kept(a, b, gone, kids, kids.len() as int);
        },
    }
}

proof fn lemma_kid_misfits_kept(a: Pages, b: Pages, gone: Set<PageId>, kids: Seq<Tree>, n: int)
    requires
        0 <= n <= kids.len(),
        forall|i: int| 0 <= i < kids.len() ==> rough(a, gone, #[trigger] kids[i]),
        kept(a, b),
        forall|p: PageId| #[trigger] gone.contains(p) ==> !b.dom().contains(p),
    ensures
        first_misfit(b, gone, leaves_to(kids, n)) == first_misfit(a, gone, leaves_to(kids, n)),
        first_misfit(a, gone, leaves_to(kids, n)) matches Some(p) ==> other_kind(a, p)
            == other_kind(b, p),
    decreases kids, n,
{
    if n > 0 {
        lemma_kid_misfits_kept(a, b, gone, kids, n - 1);
        assert(rough(a, gone, kids[n - 1]));
        lemma_misfits_kept(a, b, gone, kids[n - 1]);
        lemma_misfit_add(a, gone, leaves_to(kids, n - 1), leaves(kids[n - 1]));
        lemma_misfit_add(b, gone, leaves_to(kids, n - 1), leaves(kids[n - 1]));
    }
}

/// The pages determine the tree, up to where it ends.
proof fn lemma_rough_unique(pages: Pages, gone: Set<PageId>, s: Tree, t: Tree)
    requires
        rough(pages, gone, s),
        rough(pages, gone, t),
        s.pid() == t.pid(),
    ensures
        s == t,
    decreases s,
{
    let p = s.pid();
    match s {
        Tree::Leaf { pid, es } => {
            assert(t is Leaf);
            if leaf_page(pages, p, es) {
                lemma_leaf_body_unique(body_at(pages, p), es, t->es);
            } else {
                assert(es =~= t->es);
            }
        },
        Tree::Node { pid, ks, kids } => {
            assert(t is Node);
            let other = t->kids;
            lemma_internal_body_unique(
                body_at(pages, p),
                ks,
                kid_pids(kids),
                t->ks,
                kid_pids(other),
            );
            assert(kid_pids(kids).len() == kids.len());
            assert(kid_pids(other).len() == other.len());
            assert forall|i: int| 0 <= i < kids.len() implies kids[i] == other[i] by {
                assert(kid_pids(kids)[i] == kid_pids(other)[i]);
                lemma_rough_unique(pages, gone, kids[i], other[i]);
            }
            assert(kids =~= other);
        },
    }
}

/// Every tree has a leaf.
proof fn lemma_rough_leaf(pages: Pages, gone: Set<PageId>, t: Tree)
    requires
        rough(pages, gone, t),
    ensures
        leaves(t).len() > 0,
    decreases t,
{
    match t {
        Tree::Leaf { pid, es } => {},
        Tree::Node { pid, ks, kids } => {
            let n = kids.len() as int;
            assert(kid_pids(kids).len() == kids.len());
            assert(rough(pages, gone, kids[n - 1]));
            lemma_rough_leaf(pages, gone, kids[n - 1]);
        },
    }
}

/// The pages that cannot be had.
pub open spec fn lost_pages<P: Pager>(bp: &P) -> Set<PageId> {
    Set::new(|p: PageId| bp.lost(p))
}

/// Check the subtree on page `pid`.
#[verifier::rlimit(60)]
fn check_node<P: Pager>(
    bp: &mut P,
    pid: PageId,
    low: &Option<Vec<u8>>,
    high: &Option<Vec<u8>>,
    depth: u32,
    report: &mut CheckReport,
    leaf_depths: &mut Vec<u32>,
    dfs_leaves: &mut Vec<PageId>,
    Ghost(t): Ghost<Tree>,
    Ghost(gone): Ghost<Set<PageId>>,
) -> (r: Result<(), BtreeError>)
    requires
        old(bp).pager_ok(),
        rough(old(bp).pages(), gone, t),
        forall|p: PageId| #[trigger] gone.contains(p) ==> old(bp).lost(p),
        t.pid() == pid,
        depth + deepest(t) <= u32::MAX,
        old(report).nodes + node_count(t) <= u64::MAX,
        old(report).leaves + leaves(t).len() <= u64::MAX,
        old(report).entries + flat(t).len() <= u64::MAX,
    ensures
        final(bp).pager_ok(),
        kept(old(bp).pages(), final(bp).pages()),
        final(bp).count() == old(bp).count(),
        final(bp).reach() == old(bp).reach(),
        forall|p: PageId| #[trigger] old(bp).lost(p) ==> final(bp).lost(p),
        match r {
            Ok(()) => {
                &&& first_misfit(old(bp).pages(), gone, leaves(t)) is None
                &&& added(
                    old(report),
                    final(report),
                    node_count(t),
                    leaves(t).len() as int,
                    flat(t).len() as int,
                    node_faults(t, end_of(low), end_of(high)),
                )
                &&& final(leaf_depths)@ == old(leaf_depths)@ + depths(t, depth as int)
                &&& final(dfs_leaves)@ == old(dfs_leaves)@ + leaf_ids(t)
            },
            Err(BtreeError::BadNode(p)) => {
                &&& first_misfit(old(bp).pages(), gone, leaves(t)) == Some(p)
                &&& other_kind(old(bp).pages(), p)
            },
            Err(BtreeError::Buffer(_)) => {
                let m = first_misfit(old(bp).pages(), gone, leaves(t));
                !holds_out(old(bp), 0) || m is Some && !other_kind(old(bp).pages(), m->0)
            },
            Err(BtreeError::KeyTooLarge) => false,
        },
    decreases t,
{
    let ghost a = bp.pages();
    proof {
        lemma_counts(t);
        bp.lemma_pages();
        if t is Leaf {
            let ls = leaves(t);
            assert(ls.drop_last() =~= Seq::<LeafOf>::empty());
            assert(ls.last() == (pid, t->es));
            assert(first_misfit(a, gone, ls.drop_last()) is None);
        }
    }
    report.nodes = report.nodes + 1;
    let loaded: Node = match load(bp, pid) {
        Ok(n) => n,
        Err(e) => {
            return Err(e);
        },
    };
    let ghost a0 = bp.pages();
    proof {
        bp.lemma_pages();
        lemma_rough_kept(a, a0, gone, t);
    }
    match loaded {
        Node::Leaf(leaf) => {
            proof {
                assert(t is Leaf);
                assert(leaf_page(a, pid, t->es));
                lemma_leaf_body_unique(body_at(a, pid), leaf.es(), t->es);
                lemma_leaf_fits(a0, pid, t->es);
                crate::btree::tree::lemma_one_leaf(pid, t->es);
            }
            report.leaves = report.leaves + 1;
            report.entries = report.entries + leaf.entries.len() as u64;
            leaf_depths.push(depth);
            dfs_leaves.push(pid);
            check_leaf(pid, &leaf, low, high, report);
            proof {
                assert(leaf_depths@ =~= old(leaf_depths)@ + depths(t, depth as int));
                assert(leaf_ids(t) =~= seq![pid]);
                assert(dfs_leaves@ =~= old(dfs_leaves)@ + leaf_ids(t));
            }
            Ok(())
        },
        Node::Internal(node) => {
            let ghost ks = t->ks;
            let ghost kids = t->kids;
            let ghost lo = end_of(low);
            let ghost hi = end_of(high);
            proof {
                assert(t is Node);
                lemma_internal_body_unique(
                    body_at(a, pid),
                    node.ks(),
                    node.children@,
                    ks,
                    kid_pids(kids),
                );
                assert(kid_pids(kids).len() == kids.len());
            }
            check_separators(pid, &node, low, high, report);
            let ghost own = faults_of(report.violations@);
            let n: usize = node.children.len();
            let mut i: usize = 0;
            proof {
                assert(own =~= own + kid_faults(ks, kids, lo, hi, 0));
                assert(leaf_depths@ =~= old(leaf_depths)@ + kid_depths(kids, depth + 1, 0));
                assert(dfs_leaves@ =~= old(dfs_leaves)@ + ids_of(leaves_to(kids, 0)));
            }
            while i < n
                invariant
                    i <= n == kids.len(),
                    t is Node,
                    ks == t->ks,
                    kids == t->kids,
                    kids.len() == ks.len() + 1,
                    node.ks() == ks,
                    node.children@ == kid_pids(kids),
                    lo == end_of(low),
                    hi == end_of(high),
                    bp.pager_ok(),
                    a == old(bp).pages(),
                    kept(a, bp.pages()),
                    rough(a, gone, t),
                    rough(bp.pages(), gone, t),
                    forall|p: PageId| #[trigger] gone.contains(p) ==> old(bp).lost(p),
                    forall|p: PageId| #[trigger] old(bp).lost(p) ==> bp.lost(p),
                    first_misfit(a, gone, leaves_to(kids, i as int)) is None,
                    bp.count() == old(bp).count(),
                    bp.reach() == old(bp).reach(),
                    depth + deepest(t) <= u32::MAX,
                    old(report).nodes + node_count(t) <= u64::MAX,
                    old(report).leaves + leaves(t).len() <= u64::MAX,
                    old(report).entries + flat(t).len() <= u64::MAX,
                    report.nodes == old(report).nodes + 1 + kid_count(kids, i as int),
                    report.leaves == old(report).leaves + leaves_to(kids, i as int).len(),
                    report.entries == old(report).entries + concat(leaves_to(kids, i as int)).len(),
                    report.height == old(report).height,
                    faults_of(report.violations@) == own + kid_faults(ks, kids, lo, hi, i as int),
                    leaf_depths@ == old(leaf_depths)@ + kid_depths(kids, depth + 1, i as int),
                    dfs_leaves@ == old(dfs_leaves)@ + ids_of(leaves_to(kids, i as int)),
                decreases n - i,
            {
                let clow: Option<Vec<u8>> = if i == 0 {
                    copy_end(low)
                } else {
                    Some(copy_bytes(node.keys[i - 1].as_slice()))
                };
                let chigh: Option<Vec<u8>> = if i == node.keys.len() {
                    copy_end(high)
                } else {
                    Some(copy_bytes(node.keys[i].as_slice()))
                };
                let ghost kid = kids[i as int];
                let ghost m = bp.pages();
                proof {
                    assert(kid_pids(kids)[i as int] == kid.pid());
                    bp.lemma_pages();
                    assert(rough(m, gone, kid));
                    assert(rough(a, gone, kid));
                    lemma_misfits_kept(a, m, gone, kid);
                    lemma_misfit_add(a, gone, leaves_to(kids, i as int), leaves(kid));
                    lemma_misfit_kids(a, gone, kids, i + 1, n as int);
                    lemma_kid_sums(kids, i as int, n as int);
                    lemma_counts(kid);
                    assert(end_of(&clow) == low_of(ks, i as int, lo)) by {
                        if i > 0 {
                            assert(node.ks()[i - 1] == node.keys@[i - 1]@);
                        }
                    }
                    assert(end_of(&chigh) == high_of(ks, i as int, hi)) by {
                        if i < ks.len() {
                            assert(node.ks()[i as int] == node.keys@[i as int]@);
                        }
                    }
                    assert(decreases_to!(t => t->kids));
                }
                let ghost was = *report;
                let ghost was_depths = leaf_depths@;
                let ghost was_leaves = dfs_leaves@;
                match check_node(
                    bp,
                    node.children[i],
                    &clow,
                    &chigh,
                    depth + 1,
                    report,
                    leaf_depths,
                    dfs_leaves,
                    Ghost(kid),
                    Ghost(gone),
                ) {
                    Ok(()) => {},
                    Err(e) => {
                        proof {
                            lemma_kept_trans(a, m, bp.pages());
                        }
                        return Err(e);
                    },
                }
                proof {
                    lemma_kept_trans(a, m, bp.pages());
                    bp.lemma_pages();
                    lemma_rough_kept(m, bp.pages(), gone, t);
                    lemma_concat_add(leaves_to(kids, i as int), leaves(kid));
                    assert(kid_faults(ks, kids, lo, hi, i + 1) == kid_faults(
                        ks,
                        kids,
                        lo,
                        hi,
                        i as int,
                    ) + node_faults(kid, end_of(&clow), end_of(&chigh)));
                    assert(faults_of(report.violations@) =~= own + kid_faults(
                        ks,
                        kids,
                        lo,
                        hi,
                        i + 1,
                    ));
                    assert(leaf_depths@ =~= old(leaf_depths)@ + kid_depths(
                        kids,
                        depth + 1,
                        i + 1,
                    ));
                    assert(ids_of(leaves_to(kids, i + 1)) =~= ids_of(leaves_to(kids, i as int))
                        + leaf_ids(kid));
                    assert(dfs_leaves@ =~= old(dfs_leaves)@ + ids_of(leaves_to(kids, i + 1)));
                }
                i = i + 1;
            }
            proof {
                assert(faults_of(report.violations@) =~= faults_of(old(report).violations@)
                    + node_faults(t, lo, hi));
            }
            Ok(())
        },
    }
}

fn copy_end(o: &Option<Vec<u8>>) -> (r: Option<Vec<u8>>)
    ensures
        end_of(&r) == end_of(o),
{
    match o {
        Some(v) => Some(copy_bytes(v.as_slice())),
        None => None,
    }
}

// ---- what is found along the chain ----

/// The page after leaf `i` of a chain.
pub open spec fn after(ls: Seq<LeafOf>, i: int) -> PageId {
    id_at(ids_of(ls), i + 1)
}

/// Following the chain from `first` leads through the leaves `ls` to its end.
pub open spec fn walks(pages: Pages, first: PageId, ls: Seq<LeafOf>) -> bool {
    &&& ls.len() > 0
    &&& ls[0].0 == first
    &&& forall|i: int| 0 <= i < ls.len() ==> #[trigger] walk_step(pages, ls, i)
}

pub open spec fn walk_step(pages: Pages, ls: Seq<LeafOf>, i: int) -> bool {
    &&& leaf_page(pages, ls[i].0, ls[i].1)
    &&& ls[i].0 != NIL
    &&& next_of(pages, ls[i].0) == after(ls, i)
}

/// Following the chain from `first` leads through the leaves `ls` to page `end`.
pub open spec fn runs(pages: Pages, first: PageId, ls: Seq<LeafOf>, end: PageId) -> bool {
    &&& ls.len() > 0
    &&& ls[0].0 == first
    &&& forall|i: int| 0 <= i < ls.len() ==> #[trigger] run_step(pages, ls, end, i)
}

pub open spec fn run_step(pages: Pages, ls: Seq<LeafOf>, end: PageId, i: int) -> bool {
    &&& leaf_page(pages, ls[i].0, ls[i].1)
    &&& ls[i].0 != NIL
    &&& next_of(pages, ls[i].0) == at_or(ls, end, i + 1)
}

/// The page of leaf `i`, or `end` behind the last.
pub open spec fn at_or(ls: Seq<LeafOf>, end: PageId, i: int) -> PageId {
    if i < ls.len() {
        ls[i].0
    } else {
        end
    }
}

/// Page `p` is an inner node's.
pub open spec fn inner_page(pages: Pages, p: PageId) -> bool {
    exists|ks: Seq<Seq<u8>>, cs: Seq<PageId>| internal_page(pages, p, ks, cs)
}

/// A chain ends here: at its proper end, or at a page that is no leaf.
pub open spec fn stops(pages: Pages, gone: Set<PageId>, p: PageId) -> bool {
    p == NIL || misfit(pages, gone, p) || inner_page(pages, p)
}

/// The leaves of the chain from `first`, and where it ends.
pub open spec fn chain_from(pages: Pages, gone: Set<PageId>, first: PageId) -> (
    Seq<LeafOf>,
    PageId,
) {
    choose|x: (Seq<LeafOf>, PageId)| ends_at(pages, gone, first, x)
}

pub open spec fn ends_at(
    pages: Pages,
    gone: Set<PageId>,
    first: PageId,
    x: (Seq<LeafOf>, PageId),
) -> bool {
    runs(pages, first, x.0, x.1) && stops(pages, gone, x.1)
}

proof fn lemma_runs_walks(pages: Pages, first: PageId, ls: Seq<LeafOf>)
    ensures
        runs(pages, first, ls, NIL) == walks(pages, first, ls),
{
    assert forall|i: int| 0 <= i < ls.len() implies #[trigger] run_step(pages, ls, NIL, i)
        == walk_step(pages, ls, i) by {
        if i + 1 < ls.len() {
            assert(ids_of(ls)[i + 1] == ls[i + 1].0);
        }
    }
    assert forall|i: int| 0 <= i < ls.len() implies #[trigger] walk_step(pages, ls, i) == run_step(
        pages,
        ls,
        NIL,
        i,
    ) by {
        assert(run_step(pages, ls, NIL, i) == walk_step(pages, ls, i));
    }
}

/// The chain from a page is determined, and so is where it ends.
pub proof fn lemma_chain_unique(
    pages: Pages,
    gone: Set<PageId>,
    first: PageId,
    x: (Seq<LeafOf>, PageId),
    y: (Seq<LeafOf>, PageId),
)
    requires
        ends_at(pages, gone, first, x),
        ends_at(pages, gone, first, y),
    ensures
        x == y,
{
    let n = x.0.len() as int;
    lemma_runs_agree(pages, gone, first, x, y, n);
    lemma_runs_agree(pages, gone, first, y, x, y.0.len() as int);
    assert(x.0 =~= y.0);
    assert(run_step(pages, x.0, x.1, n - 1));
    assert(run_step(pages, y.0, y.1, n - 1));
}

proof fn lemma_runs_agree(
    pages: Pages,
    gone: Set<PageId>,
    first: PageId,
    x: (Seq<LeafOf>, PageId),
    y: (Seq<LeafOf>, PageId),
    n: int,
)
    requires
        ends_at(pages, gone, first, x),
        ends_at(pages, gone, first, y),
        0 <= n <= x.0.len(),
    ensures
        n <= y.0.len(),
        forall|i: int| 0 <= i < n ==> x.0[i] == y.0[i],
    decreases n,
{
    if n > 0 {
        lemma_runs_agree(pages, gone, first, x, y, n - 1);
        assert(run_step(pages, x.0, x.1, n - 1));
        if n > 1 {
            assert(run_step(pages, x.0, x.1, n - 2));
            assert(run_step(pages, y.0, y.1, n - 2));
        }
        if n - 1 < y.0.len() {
            assert(run_step(pages, y.0, y.1, n - 1));
            lemma_leaf_body_unique(body_at(pages, x.0[n - 1].0), x.0[n - 1].1, y.0[n - 1].1);
        }
    }
}

/// The chain from `first`.
pub open spec fn walk_from(pages: Pages, first: PageId) -> Seq<LeafOf> {
    choose|ls: Seq<LeafOf>| walks(pages, first, ls)
}

/// The chain from a page is determined.
pub proof fn lemma_walk_unique(pages: Pages, first: PageId, x: Seq<LeafOf>, y: Seq<LeafOf>)
    requires
        walks(pages, first, x),
        walks(pages, first, y),
    ensures
        x == y,
{
    lemma_walks_agree(pages, first, x, y, x.len() as int);
    if x.len() < y.len() {
        let n = x.len() as int;
        assert(walk_step(pages, x, n - 1));
        assert(walk_step(pages, y, n - 1));
        assert(walk_step(pages, y, n));
        assert(ids_of(y)[n] == y[n].0);
    }
    assert(x =~= y);
}

proof fn lemma_walks_agree(pages: Pages, first: PageId, x: Seq<LeafOf>, y: Seq<LeafOf>, n: int)
    requires
        walks(pages, first, x),
        walks(pages, first, y),
        0 <= n <= x.len(),
    ensures
        n <= y.len(),
        forall|i: int| 0 <= i < n ==> x[i] == y[i],
    decreases n,
{
    if n > 0 {
        lemma_walks_agree(pages, first, x, y, n - 1);
        assert(walk_step(pages, x, n - 1));
        if n > 1 {
            assert(walk_step(pages, x, n - 2));
            assert(walk_step(pages, y, n - 2));
            assert(ids_of(x)[n - 1] == x[n - 1].0);
            if n - 1 < y.len() {
                assert(ids_of(y)[n - 1] == y[n - 1].0);
            }
        }
        assert(walk_step(pages, y, n - 1));
        lemma_leaf_body_unique(body_at(pages, x[n - 1].0), x[n - 1].1, y[n - 1].1);
    }
}

/// The leaf before leaf `i` of a chain.
pub open spec fn seen_before(ls: Seq<LeafOf>, i: int) -> Option<PageId> {
    if i > 0 {
        Some(ls[i - 1].0)
    } else {
        None
    }
}

/// A fault where leaf `i` names another predecessor.
pub open spec fn prev_fault(pages: Pages, ls: Seq<LeafOf>, i: int) -> Seq<Fault> {
    if prev_of(pages, ls[i].0) == id_at(ids_of(ls), i - 1) {
        Seq::empty()
    } else {
        seq![Fault::PrevLink(ls[i].0, prev_of(pages, ls[i].0), seen_before(ls, i))]
    }
}

/// One fault for each of the entries from `from` to `n` that is not above the one
/// before it.
pub open spec fn run_faults(es: Seq<Entry>, from: int, n: int, f: Fault) -> Seq<Fault>
    decreases n - from,
{
    if n <= from {
        Seq::empty()
    } else {
        run_faults(es, from, n - 1, f) + if n >= 2 && !lex_lt(es[n - 2].0, es[n - 1].0) {
            seq![f]
        } else {
            Seq::empty()
        }
    }
}

/// What is found along the first `k` leaves.
pub open spec fn chain_faults(pages: Pages, ls: Seq<LeafOf>, k: int) -> Seq<Fault>
    decreases k,
{
    if k <= 0 {
        Seq::empty()
    } else {
        let es = concat(ls);
        let from = concat(ls.take(k - 1)).len() as int;
        let to = concat(ls.take(k)).len() as int;
        chain_faults(pages, ls, k - 1) + prev_fault(pages, ls, k - 1) + run_faults(
            es,
            from,
            to,
            Fault::ChainOrder(ls[k - 1].0),
        )
    }
}

/// Some depth differs from the first.
pub open spec fn uneven(ds: Seq<u32>) -> bool {
    exists|i: int| 0 <= i < ds.len() && #[trigger] ds[i] != ds[0]
}

pub open spec fn balance_faults(ds: Seq<u32>) -> Seq<Fault> {
    if uneven(ds) {
        seq![Fault::Unbalanced(ds)]
    } else {
        Seq::empty()
    }
}

pub open spec fn order_of_chain(ls: Seq<LeafOf>, t: Tree) -> Seq<Fault> {
    if ids_of(ls) == leaf_ids(t) {
        Seq::empty()
    } else {
        seq![Fault::Chain(ids_of(ls), leaf_ids(t))]
    }
}

/// All that is found wrong with a tree.
pub open spec fn all_faults(pages: Pages, t: Tree) -> Seq<Fault> {
    let ls = walk_from(pages, leaves(t)[0].0);
    node_faults(t, None, None) + balance_faults(depths(t, 0)) + chain_faults(
        pages,
        ls,
        ls.len() as int,
    ) + order_of_chain(ls, t)
}

/// The tree under a root, up to where it ends.
pub open spec fn tree_at(pages: Pages, gone: Set<PageId>, root: PageId) -> Tree {
    choose|t: Tree| rough(pages, gone, t) && t.pid() == root
}

/// The walk of a check comes to an end: the nodes under `root` form a finite tree, whose
/// ends may be pages that are no nodes; and where it has none of these, the chain from its
/// first leaf ends, be it at a page that is no leaf.
pub open spec fn checkable(pages: Pages, gone: Set<PageId>, root: PageId) -> bool {
    let t = tree_at(pages, gone, root);
    &&& exists|t: Tree| #[trigger] rough(pages, gone, t) && t.pid() == root
    &&& first_misfit(pages, gone, leaves(t)) is None ==> exists|x: (Seq<LeafOf>, PageId)|
        ends_at(pages, gone, leaves(t)[0].0, x)
    &&& deepest(t) <= u32::MAX
    &&& node_count(t) <= u64::MAX
    &&& leaves(t).len() <= u64::MAX
    &&& flat(t).len() <= u64::MAX
}

/// The first page on the walk of a check that is no node of the kind that belongs there:
/// no node at all in the tree, or no leaf on the chain.
pub open spec fn first_bad(pages: Pages, gone: Set<PageId>, root: PageId) -> Option<PageId> {
    let t = tree_at(pages, gone, root);
    let m = first_misfit(pages, gone, leaves(t));
    let end = chain_from(pages, gone, leaves(t)[0].0).1;
    if m is Some {
        m
    } else if end != NIL {
        Some(end)
    } else {
        None
    }
}

/// Read a leaf of the chain.
fn chain_leaf<P: Pager>(bp: &mut P, cur: PageId) -> (r: Result<Leaf, BtreeError>)
    requires
        old(bp).pager_ok(),
        readable_node(old(bp).pages(), cur) || old(bp).lost(cur),
    ensures
        final(bp).pager_ok(),
        final(bp).count() == old(bp).count(),
        final(bp).reach() == old(bp).reach(),
        kept(old(bp).pages(), final(bp).pages()),
        forall|p: PageId| #[trigger] old(bp).lost(p) ==> final(bp).lost(p),
        match r {
            Ok(l) => {
                &&& leaf_page(old(bp).pages(), cur, l.es())
                &&& l.prev == prev_of(old(bp).pages(), cur)
                &&& l.next == next_of(old(bp).pages(), cur)
            },
            Err(BtreeError::BadNode(p)) => {
                &&& p == cur
                &&& old(bp).pages().dom().contains(cur)
                &&& type_at(old(bp).pages(), cur) != PageType::BTreeLeaf.byte()
            },
            Err(BtreeError::Buffer(_)) => !holds_out(old(bp), 0) || old(bp).lost(cur),
            Err(BtreeError::KeyTooLarge) => false,
        },
{
    match load(bp, cur) {
        Ok(Node::Leaf(l)) => Ok(l),
        Ok(Node::Internal(_)) => Err(BtreeError::BadNode(cur)),
        Err(e) => Err(e),
    }
}

fn same_ids(a: &Vec<PageId>, b: &Vec<PageId>) -> (r: bool)
    ensures
        r == (a@ == b@),
{
    let n: usize = a.len();
    if n != b.len() {
        return false;
    }
    let mut i: usize = 0;
    while i < n
        invariant
            i <= n == a@.len(),
            n == b@.len(),
            forall|j: int| 0 <= j < i ==> a@[j] == b@[j],
        decreases n - i,
    {
        if a[i] != b[i] {
            assert(a@[i as int] != b@[i as int]);
            return false;
        }
        i = i + 1;
    }
    assert(a@ =~= b@);
    true
}

fn any_other(ds: &Vec<u32>) -> (r: bool)
    requires
        ds@.len() > 0,
    ensures
        r == uneven(ds@),
{
    let mut i: usize = 0;
    while i < ds.len()
        invariant
            i <= ds@.len(),
            ds@.len() > 0,
            forall|j: int| 0 <= j < i ==> #[trigger] ds@[j] == ds@[0],
        decreases ds@.len() - i,
    {
        if ds[i] != ds[0] {
            assert(ds@[i as int] != ds@[0]);
            return true;
        }
        i = i + 1;
    }
    false
}

/// Check the keys of one leaf of the chain against what came before.
fn check_run(
    cur: PageId,
    leaf: &Leaf,
    last_key: &mut Option<Vec<u8>>,
    report: &mut CheckReport,
    Ghost(es): Ghost<Seq<Entry>>,
    Ghost(from): Ghost<int>,
)
    requires
        0 <= from,
        from + leaf.es().len() <= es.len(),
        es.subrange(from, from + leaf.es().len()) == leaf.es(),
        end_of(old(last_key)) == if from > 0 {
            Some(es[from - 1].0)
        } else {
            None
        },
    ensures
        added(
            old(report),
            final(report),
            0,
            0,
            0,
            run_faults(es, from, from + leaf.es().len(), Fault::ChainOrder(cur)),
        ),
        end_of(final(last_key)) == if from + leaf.es().len() > 0 {
            Some(es[from + leaf.es().len() - 1].0)
        } else {
            None
        },
{
    let ghost start = faults_of(report.violations@);
    let n: usize = leaf.entries.len();
    let mut i: usize = 0;
    let ghost f = Fault::ChainOrder(cur);
    assert(start =~= start + run_faults(es, from, from, f));
    while i < n
        invariant
            i <= n == leaf.entries@.len(),
            n == leaf.es().len(),
            f == Fault::ChainOrder(cur),
            0 <= from,
            from + leaf.es().len() <= es.len(),
            es.subrange(from, from + leaf.es().len()) == leaf.es(),
            report.nodes == old(report).nodes,
            report.leaves == old(report).leaves,
            report.entries == old(report).entries,
            report.height == old(report).height,
            end_of(last_key) == if from + i > 0 {
                Some(es[from + i - 1].0)
            } else {
                None
            },
            faults_of(report.violations@) == start + run_faults(es, from, from + i, f),
        decreases n - i,
    {
        let ghost x = from + i;
        proof {
            assert(es.subrange(from, from + leaf.es().len())[i as int] == es[x]);
            assert(es[x].0 == leaf.entries@[i as int].0@);
        }
        let key: &Vec<u8> = &leaf.entries[i].0;
        if let Some(lk) = last_key.as_ref() {
            if !bytes_lt(lk.as_slice(), key.as_slice()) {
                proof {
                    lemma_push_fault(report.violations@, Violation::ChainOrder(cur));
                }
                report.violations.push(Violation::ChainOrder(cur));
            }
        }
        assert(faults_of(report.violations@) =~= start + run_faults(es, from, x + 1, f));
        *last_key = Some(copy_bytes(key.as_slice()));
        i = i + 1;
    }
}

impl BTree {
    /// Check the whole tree: order, bounds and balance, and the chain of leaves.
    #[verifier::rlimit(40)]
    pub fn check<P: Pager>(&self, bp: &mut P) -> (r: Result<CheckReport, BtreeError>)
        requires
            old(bp).pager_ok(),
            checkable(old(bp).pages(), lost_pages(old(bp)), self.root),
        ensures
            final(bp).pager_ok(),
            kept(old(bp).pages(), final(bp).pages()),
            final(bp).count() == old(bp).count(),
            final(bp).reach() == old(bp).reach(),
            match r {
                Ok(rep) => {
                    let t = tree_at(old(bp).pages(), lost_pages(old(bp)), self.root);
                    &&& first_bad(old(bp).pages(), lost_pages(old(bp)), self.root) is None
                    &&& rep.nodes == node_count(t)
                    &&& rep.leaves == leaves(t).len()
                    &&& rep.entries == flat(t).len()
                    &&& rep.height == depths(t, 0)[0]
                    &&& faults_of(rep.violations@) == all_faults(old(bp).pages(), t)
                },
                Err(BtreeError::BadNode(p)) => {
                    &&& first_bad(old(bp).pages(), lost_pages(old(bp)), self.root) == Some(p)
                    &&& old(bp).pages().dom().contains(p)
                },
                Err(BtreeError::Buffer(_)) => {
                    let b = first_bad(old(bp).pages(), lost_pages(old(bp)), self.root);
                    !holds_out(old(bp), 0) || b is Some && !old(bp).pages().dom().contains(b->0)
                },
                Err(BtreeError::KeyTooLarge) => false,
            },
    {
        let ghost a = bp.pages();
        let ghost gone = lost_pages(bp);
        let ghost t = tree_at(a, gone, self.root);
        let ghost first = leaves(t)[0].0;
        let ghost ls = chain_from(a, gone, first).0;
        let ghost end = chain_from(a, gone, first).1;
        proof {
            bp.lemma_pages();
            lemma_rough_leaf(a, gone, t);
            lemma_misfit_met(a, gone, leaves(t));
        }
        let mut report: CheckReport = CheckReport::default();
        let mut leaf_depths: Vec<u32> = Vec::new();
        let mut dfs_leaves: Vec<PageId> = Vec::new();
        let none: Option<Vec<u8>> = None;
        match check_node(
            bp,
            self.root,
            &none,
            &none,
            0,
            &mut report,
            &mut leaf_depths,
            &mut dfs_leaves,
            Ghost(t),
            Ghost(gone),
        ) {
            Ok(()) => {},
            Err(e) => {
                return Err(e);
            },
        }
        let ghost a0 = bp.pages();
        let ghost ds = depths(t, 0);
        proof {
            lemma_depths(t, 0);
            assert(leaf_depths@ =~= ds);
            assert(dfs_leaves@ =~= leaf_ids(t));
            assert(faults_of(report.violations@) =~= node_faults(t, None, None));
            lemma_rough_shaped(a, gone, t);
            lemma_shaped_kept(a, a0, t);
            assert(ends_at(a, gone, first, (ls, end)));
        }
        if any_other(&leaf_depths) {
            let copy: Vec<u32> = copy_depths(&leaf_depths);
            proof {
                lemma_push_fault(report.violations@, Violation::Unbalanced(copy));
            }
            report.violations.push(Violation::Unbalanced(copy));
        }
        report.height = leaf_depths[0];
        let ghost own = faults_of(report.violations@);
        assert(own =~= node_faults(t, None, None) + balance_faults(ds));
        let mut chain: Vec<PageId> = Vec::new();
        let mut prev_seen: Option<PageId> = None;
        let mut last_key: Option<Vec<u8>> = None;
        let mut cur: PageId = match leftmost_leaf(bp, self.root, Ghost(t)) {
            Ok(p) => p,
            Err(e) => {
                proof {
                    lemma_kept_trans(a, a0, bp.pages());
                }
                return Err(e);
            },
        };
        let ghost mut k: int = 0;
        proof {
            lemma_kept_trans(a, a0, bp.pages());
            assert(chain@ =~= ids_of(ls).take(0));
            assert(ls.take(0) =~= Seq::<LeafOf>::empty());
            assert(own =~= own + chain_faults(a, ls, 0));
        }
        while cur != NIL
            invariant
                bp.pager_ok(),
                a == old(bp).pages(),
                gone == lost_pages(old(bp)),
                t == tree_at(a, gone, self.root),
                first == leaves(t)[0].0,
                (ls, end) == chain_from(a, gone, first),
                first_misfit(a, gone, leaves(t)) is None,
                kept(a, bp.pages()),
                forall|p: PageId| #[trigger] old(bp).lost(p) ==> bp.lost(p),
                bp.count() == old(bp).count(),
                bp.reach() == old(bp).reach(),
                ends_at(a, gone, first, (ls, end)),
                0 <= k <= ls.len(),
                cur == at_or(ls, end, k),
                chain@ == ids_of(ls).take(k),
                prev_seen == seen_before(ls, k),
                end_of(&last_key) == if concat(ls.take(k)).len() > 0 {
                    Some(concat(ls)[concat(ls.take(k)).len() - 1].0)
                } else {
                    None
                },
                report.nodes == node_count(t),
                report.leaves == leaves(t).len(),
                report.entries == flat(t).len(),
                report.height == ds[0],
                faults_of(report.violations@) == own + chain_faults(a, ls, k),
            decreases ls.len() - k,
        {
            let ghost m = bp.pages();
            proof {
                bp.lemma_pages();
                if k < ls.len() {
                    assert(run_step(a, ls, end, k));
                    assert(leaf_page(m, cur, ls[k].1));
                } else {
                    assert(stops(a, gone, end));
                    if a.dom().contains(end) {
                        assert(m[end] == a[end]);
                    }
                    if inner_page(a, end) {
                        let (ks, cs) = choose|ks: Seq<Seq<u8>>, cs: Seq<PageId>|
                            internal_page(a, end, ks, cs);
                        assert(internal_page(m, end, ks, cs));
                    } else if !gone.contains(end) {
                        assert(other_kind(m, end));
                    }
                }
            }
            let leaf: Leaf = match chain_leaf(bp, cur) {
                Ok(l) => l,
                Err(e) => {
                    proof {
                        lemma_kept_trans(a, m, bp.pages());
                        if k < ls.len() {
                            assert(m.dom().contains(cur));
                        }
                    }
                    return Err(e);
                },
            };
            proof {
                lemma_kept_trans(a, m, bp.pages());
                assert(k < ls.len());
                lemma_leaf_body_unique(body_at(m, cur), leaf.es(), ls[k].1);
                assert(prev_of(m, cur) == prev_of(a, cur));
            }
            let expected: PageId = match prev_seen {
                Some(p) => p,
                None => NIL,
            };
            let ghost was = report.violations@;
            if leaf.prev != expected {
                proof {
                    lemma_push_fault(
                        report.violations@,
                        Violation::PrevLink { leaf: cur, prev: leaf.prev, seen: prev_seen },
                    );
                }
                report.violations.push(
                    Violation::PrevLink { leaf: cur, prev: leaf.prev, seen: prev_seen },
                );
            }
            let ghost from = concat(ls.take(k)).len() as int;
            let ghost to = concat(ls.take(k + 1)).len() as int;
            proof {
                assert(expected == id_at(ids_of(ls), k - 1));
                assert(faults_of(report.violations@) =~= own + chain_faults(a, ls, k) + prev_fault(
                    a,
                    ls,
                    k,
                ));
                lemma_run(ls, k);
            }
            let ghost before = faults_of(report.violations@);
            check_run(cur, &leaf, &mut last_key, &mut report, Ghost(concat(ls)), Ghost(from));
            let ghost seen_ids = chain@;
            chain.push(cur);
            prev_seen = Some(cur);
            cur = leaf.next;
            proof {
                assert(chain@ =~= ids_of(ls).take(k + 1));
                assert(faults_of(report.violations@) =~= own + chain_faults(a, ls, k + 1));
                k = k + 1;
            }
        }
        proof {
            if k < ls.len() {
                assert(run_step(a, ls, end, k));
            }
            assert(ids_of(ls).take(k) =~= ids_of(ls));
            lemma_runs_walks(a, first, ls);
            assert(walks(a, first, walk_from(a, first)));
            lemma_walk_unique(a, first, ls, walk_from(a, first));
        }
        if !same_ids(&chain, &dfs_leaves) {
            let v: Violation = Violation::Chain { chain, leaves: dfs_leaves };
            proof {
                lemma_push_fault(report.violations@, v);
            }
            report.violations.push(v);
        }
        assert(faults_of(report.violations@) =~= all_faults(a, t));
        Ok(report)
    }
}

/// The entries of leaf `k` stand together among those of the chain.
proof fn lemma_run(ls: Seq<LeafOf>, k: int)
    requires
        0 <= k < ls.len(),
    ensures
        ({
            let es = concat(ls);
            let from = concat(ls.take(k)).len() as int;
            let to = concat(ls.take(k + 1)).len() as int;
            &&& to == from + ls[k].1.len()
            &&& to <= es.len()
            &&& es.subrange(from, to) == ls[k].1
        }),
{
    let es = concat(ls);
    assert(ls.take(k + 1).drop_last() =~= ls.take(k));
    assert(ls =~= ls.take(k + 1) + ls.skip(k + 1));
    lemma_concat_add(ls.take(k + 1), ls.skip(k + 1));
    let from = concat(ls.take(k)).len() as int;
    let to = concat(ls.take(k + 1)).len() as int;
    assert(es.subrange(from, to) =~= ls[k].1);
}

fn copy_depths(v: &Vec<u32>) -> (r: Vec<u32>)
    ensures
        r@ == v@,
{
    let mut r: Vec<u32> = Vec::with_capacity(v.len());
    r.extend_from_slice(v.as_slice());
    assert(r@ =~= v@);
    r
}

/// There is one depth for each leaf.
proof fn lemma_depths(t: Tree, d: int)
    ensures
        depths(t, d).len() == leaves(t).len(),
    decreases t, 0int,
{
    match t {
        Tree::Leaf { pid, es } => {},
        Tree::Node { pid, ks, kids } => {
            lemma_kid_depths(kids, d + 1, kids.len() as int);
        },
    }
}

proof fn lemma_kid_depths(kids: Seq<Tree>, d: int, n: int)
    requires
        0 <= n <= kids.len(),
    ensures
        kid_depths(kids, d, n).len() == leaves_to(kids, n).len(),
    decreases kids, n,
{
    if n > 0 {
        lemma_kid_depths(kids, d, n - 1);
        lemma_depths(kids[n - 1], d);
    }
}

// ---- what a clean report means ----

proof fn lemma_order_faults(es: Seq<Entry>, n: int, f: Fault)
    requires
        0 <= n <= es.len(),
    ensures
        order_faults(es, n, f).len() == 0 <==> ascending(es.take(n)),
    decreases n,
{
    let s = es.take(n);
    if n > 1 {
        let s0 = es.take(n - 1);
        lemma_order_faults(es, n - 1, f);
        if ascending(s) {
            assert forall|i: int, j: int| 0 <= i < j < s0.len() implies lex_lt(
                (#[trigger] s0[i]).0,
                (#[trigger] s0[j]).0,
            ) by {
                assert(lex_lt(s[i].0, s[j].0));
            }
            assert(lex_lt(s[n - 2].0, s[n - 1].0));
        }
        if ascending(s0) && lex_lt(es[n - 2].0, es[n - 1].0) {
            assert forall|i: int, j: int| 0 <= i < j < s.len() implies lex_lt(
                (#[trigger] s[i]).0,
                (#[trigger] s[j]).0,
            ) by {
                if j < n - 1 {
                    assert(lex_lt(s0[i].0, s0[j].0));
                } else if i < n - 2 {
                    assert(lex_lt(s0[i].0, s0[n - 2].0));
                    lemma_lex_transitive(s[i].0, es[n - 2].0, es[n - 1].0);
                }
            }
        }
    }
}

proof fn lemma_bound_faults(
    es: Seq<Entry>,
    low: Option<Seq<u8>>,
    high: Option<Seq<u8>>,
    n: int,
    f: Fault,
)
    requires
        0 <= n <= es.len(),
    ensures
        bound_faults(es, low, high, n, f).len() == 0 <==> forall|i: int|
            0 <= i < n ==> within((#[trigger] es[i]).0, low, high),
    decreases n,
{
    if n > 0 {
        lemma_bound_faults(es, low, high, n - 1, f);
        assert(within(es[n - 1].0, low, high) || !within(es[n - 1].0, low, high));
    }
}

/// Every inner node has one child more than it has separators, as its page has it.
proof fn lemma_one_more(pages: Pages, t: Tree)
    requires
        t is Node,
        shaped(pages, t),
    ensures
        t->kids.len() == t->ks.len() + 1,
{
    assert(kid_pids(t->kids).len() == t->kids.len());
}

/// Nothing is found in the nodes exactly where the tree is ordered.
proof fn lemma_node_faults(pages: Pages, t: Tree, low: Option<Seq<u8>>, high: Option<Seq<u8>>)
    requires
        shaped(pages, t),
    ensures
        node_faults(t, low, high).len() == 0 <==> ordered(t, low, high),
    decreases t, 0int,
{
    match t {
        Tree::Leaf { pid, es } => {
            lemma_order_faults(es, es.len() as int, Fault::LeafOrder(pid));
            lemma_bound_faults(es, low, high, es.len() as int, Fault::LeafBounds(pid));
            assert(es.take(es.len() as int) =~= es);
        },
        Tree::Node { pid, ks, kids } => {
            lemma_one_more(pages, t);
            let n = ks.len() as int;
            let es = as_entries(ks);
            lemma_order_faults(es, n, Fault::SeparatorOrder(pid));
            lemma_bound_faults(es, low, high, n, Fault::SeparatorBounds(pid));
            assert(es.take(n) =~= es);
            lemma_kid_faults(pages, ks, kids, low, high, kids.len() as int);
            if ascending(es) {
                assert forall|i: int, j: int| 0 <= i < j < ks.len() implies lex_lt(
                    #[trigger] ks[i],
                    #[trigger] ks[j],
                ) by {
                    assert(lex_lt(es[i].0, es[j].0));
                }
            }
            if keys_ascending(ks) {
                assert forall|i: int, j: int| 0 <= i < j < es.len() implies lex_lt(
                    (#[trigger] es[i]).0,
                    (#[trigger] es[j]).0,
                ) by {
                    assert(lex_lt(ks[i], ks[j]));
                }
            }
            if forall|i: int| 0 <= i < n ==> within((#[trigger] es[i]).0, low, high) {
                assert forall|i: int| 0 <= i < ks.len() implies within(#[trigger] ks[i], low, high) by {
                    assert(within(es[i].0, low, high));
                }
            }
            if forall|i: int| 0 <= i < ks.len() ==> within(#[trigger] ks[i], low, high) {
                assert forall|i: int| 0 <= i < n implies within((#[trigger] es[i]).0, low, high) by {
                    assert(within(ks[i], low, high));
                }
            }
        },
    }
}

proof fn lemma_kid_faults(
    pages: Pages,
    ks: Seq<Seq<u8>>,
    kids: Seq<Tree>,
    low: Option<Seq<u8>>,
    high: Option<Seq<u8>>,
    n: int,
)
    requires
        0 <= n <= kids.len(),
        forall|i: int| 0 <= i < kids.len() ==> shaped(pages, #[trigger] kids[i]),
    ensures
        kid_faults(ks, kids, low, high, n).len() == 0 <==> forall|i: int|
            0 <= i < n ==> ordered(
                #[trigger] kids[i],
                low_of(ks, i, low),
                high_of(ks, i, high),
            ),
    decreases kids, n,
{
    if n > 0 {
        lemma_kid_faults(pages, ks, kids, low, high, n - 1);
        let k = kids[n - 1];
        assert(shaped(pages, k));
        lemma_node_faults(pages, k, low_of(ks, n - 1, low), high_of(ks, n - 1, high));
        assert(ordered(k, low_of(ks, n - 1, low), high_of(ks, n - 1, high)) || !ordered(
            k,
            low_of(ks, n - 1, low),
            high_of(ks, n - 1, high),
        ));
    }
}

/// All depths are `v`.
pub open spec fn all_at(ds: Seq<u32>, v: int) -> bool {
    forall|i: int| 0 <= i < ds.len() ==> (#[trigger] ds[i]) == v
}

/// Every leaf lies at depth `v` exactly where the tree is level.
proof fn lemma_level_depths(pages: Pages, t: Tree, d: int, v: int)
    requires
        shaped(pages, t),
        0 <= d,
        d + deepest(t) <= u32::MAX,
    ensures
        depths(t, d).len() > 0,
        all_at(depths(t, d), v) <==> level(t, v - d),
        all_at(depths(t, d), v) ==> v >= d,
    decreases t, 0int,
{
    match t {
        Tree::Leaf { pid, es } => {
            assert(depths(t, d)[0] == d);
        },
        Tree::Node { pid, ks, kids } => {
            lemma_one_more(pages, t);
            let n = kids.len() as int;
            lemma_kid_sums(kids, 0, n);
            lemma_kid_levels(pages, kids, d + 1, v, n);
            assert(depths(t, d) == kid_depths(kids, d + 1, n));
            if all_at(depths(t, d), v) {
                assert(level(kids[0], v - (d + 1)));
                assert forall|i: int| 0 <= i < kids.len() implies level(#[trigger] kids[i], v - d - 1) by {
                    assert(level(kids[i], v - (d + 1)));
                }
            }
            if level(t, v - d) {
                assert forall|i: int| 0 <= i < n implies level(#[trigger] kids[i], v - (d + 1)) by {
                    assert(level(kids[i], v - d - 1));
                }
            }
        },
    }
}

proof fn lemma_kid_levels(pages: Pages, kids: Seq<Tree>, d: int, v: int, n: int)
    requires
        1 <= n <= kids.len(),
        forall|i: int| 0 <= i < kids.len() ==> shaped(pages, #[trigger] kids[i]),
        0 <= d,
        d + kid_deepest(kids, n) <= u32::MAX,
    ensures
        kid_depths(kids, d, n).len() > 0,
        all_at(kid_depths(kids, d, n), v) <==> forall|i: int|
            0 <= i < n ==> level(#[trigger] kids[i], v - d),
        all_at(kid_depths(kids, d, n), v) ==> v >= d,
    decreases kids, n,
{
    let k = kids[n - 1];
    assert(shaped(pages, k));
    lemma_kid_sums(kids, n - 1, n);
    lemma_level_depths(pages, k, d, v);
    let x = kid_depths(kids, d, n - 1);
    let y = depths(k, d);
    let all = kid_depths(kids, d, n);
    assert(all == x + y);
    if n > 1 {
        lemma_kid_levels(pages, kids, d, v, n - 1);
    }
    if all_at(all, v) {
        assert forall|i: int| 0 <= i < x.len() implies (#[trigger] x[i]) == v by {
            assert(all[i] == v);
        }
        assert forall|i: int| 0 <= i < y.len() implies (#[trigger] y[i]) == v by {
            assert(all[i + x.len()] == v);
        }
        assert forall|i: int| 0 <= i < n implies level(#[trigger] kids[i], v - d) by {}
    }
    if forall|i: int| 0 <= i < n ==> level(#[trigger] kids[i], v - d) {
        assert(level(kids[n - 1], v - d));
        assert forall|i: int| 0 <= i < all.len() implies (#[trigger] all[i]) == v by {
            if i < x.len() {
                assert(all[i] == x[i]);
            } else {
                assert(all[i] == y[i - x.len()]);
            }
        }
    }
}

/// Depths do not differ exactly where the tree is level.
proof fn lemma_balance(pages: Pages, t: Tree)
    requires
        shaped(pages, t),
        deepest(t) <= u32::MAX,
    ensures
        !uneven(depths(t, 0)) <==> level(t, height(t)),
{
    let ds = depths(t, 0);
    lemma_level_depths(pages, t, 0, ds[0] as int);
    if !uneven(ds) {
        assert(all_at(ds, ds[0] as int));
        lemma_has_leaf(t, ds[0] as int);
    }
    if level(t, height(t)) {
        lemma_level_depths(pages, t, 0, height(t));
        assert(ds[0] == height(t));
        assert forall|i: int| 0 <= i < ds.len() implies #[trigger] ds[i] == ds[0] by {
            assert(ds[i] == height(t));
        }
    }
}

proof fn lemma_run_faults(es: Seq<Entry>, from: int, n: int, f: Fault)
    requires
        0 <= from,
        n <= es.len(),
        ascending(es),
    ensures
        run_faults(es, from, n, f).len() == 0,
    decreases n - from,
{
    if n > from {
        lemma_run_faults(es, from, n - 1, f);
        if n >= 2 {
            assert(lex_lt(es[n - 2].0, es[n - 1].0));
        }
    }
}

/// Along a linked chain of ascending entries nothing is found.
proof fn lemma_chain_clean(pages: Pages, ls: Seq<LeafOf>, k: int)
    requires
        0 <= k <= ls.len(),
        linked(pages, ids_of(ls)),
        ascending(concat(ls)),
    ensures
        chain_faults(pages, ls, k).len() == 0,
    decreases k,
{
    if k > 0 {
        lemma_chain_clean(pages, ls, k - 1);
        assert(linked_at(pages, ids_of(ls), k - 1));
        lemma_run(ls, k - 1);
        lemma_run_faults(
            concat(ls),
            concat(ls.take(k - 1)).len() as int,
            concat(ls.take(k)).len() as int,
            Fault::ChainOrder(ls[k - 1].0),
        );
    }
}

/// Where nothing is found along a chain, every leaf names the one before it.
proof fn lemma_chain_prevs(pages: Pages, ls: Seq<LeafOf>, k: int)
    requires
        0 <= k <= ls.len(),
        chain_faults(pages, ls, k).len() == 0,
    ensures
        forall|i: int|
            0 <= i < k ==> prev_of(pages, (#[trigger] ls[i]).0) == id_at(ids_of(ls), i - 1),
    decreases k,
{
    if k > 0 {
        lemma_chain_prevs(pages, ls, k - 1);
        assert(prev_fault(pages, ls, k - 1).len() == 0);
    }
}

/// A check finds nothing exactly where the tree is well formed: ordered, balanced,
/// and with its leaves chained in order.
pub proof fn law_clean_check_iff_well_formed(pages: Pages, t: Tree)
    requires
        shaped(pages, t),
        leaves(t).len() > 0,
        exists|ls: Seq<LeafOf>| walks(pages, leaves(t)[0].0, ls),
        deepest(t) <= u32::MAX,
        forall|p: PageId| #[trigger] pages.dom().contains(p) ==> p != NIL,
    ensures
        all_faults(pages, t).len() == 0 <==> ordered(t, None, None) && level(t, height(t)) && linked(
            pages,
            leaf_ids(t),
        ),
{
    let first = leaves(t)[0].0;
    let ls = walk_from(pages, first);
    assert(walks(pages, first, ls));
    lemma_node_faults(pages, t, None, None);
    lemma_balance(pages, t);
    if all_faults(pages, t).len() == 0 {
        assert(chain_faults(pages, ls, ls.len() as int).len() == 0);
        assert(ids_of(ls) == leaf_ids(t));
        lemma_chain_prevs(pages, ls, ls.len() as int);
        let ids = leaf_ids(t);
        assert forall|i: int| 0 <= i < ids.len() implies #[trigger] linked_at(pages, ids, i) by {
            assert(walk_step(pages, ls, i));
            assert(ids[i] == ls[i].0);
        }
    }
    if ordered(t, None, None) && level(t, height(t)) && linked(pages, leaf_ids(t)) {
        let own = leaves(t);
        let ids = leaf_ids(t);
        assert forall|i: int| 0 <= i < own.len() implies #[trigger] walk_step(pages, own, i) by {
            lemma_leaf_owned(pages, t, i);
            assert(linked_at(pages, ids, i));
        }
        assert(walks(pages, first, own));
        lemma_walk_unique(pages, first, own, ls);
        lemma_ordered_flat(t, None, None);
        lemma_chain_clean(pages, ls, ls.len() as int);
    }
}

// ---- well-formed trees can be checked ----

/// The pages of a tree, as numbers.
spec fn page_set(t: Tree) -> Set<int>
    decreases t, 0int,
{
    match t {
        Tree::Leaf { pid, es } => Set::empty().insert(pid as int),
        Tree::Node { pid, ks, kids } => kid_set(kids, kids.len() as int).insert(pid as int),
    }
}

spec fn kid_set(kids: Seq<Tree>, n: int) -> Set<int>
    decreases kids, n,
{
    if n <= 0 || n > kids.len() {
        Set::empty()
    } else {
        kid_set(kids, n - 1).union(page_set(kids[n - 1]))
    }
}

proof fn lemma_page_set(t: Tree)
    requires
        apart(t),
    ensures
        page_set(t).finite(),
        page_set(t).len() == node_count(t),
        forall|x: int| #[trigger]
            page_set(t).contains(x) ==> 0 <= x <= u32::MAX && owns(t, x as u32),
    decreases t, 0int,
{
    match t {
        Tree::Leaf { pid, es } => {},
        Tree::Node { pid, ks, kids } => {
            lemma_kid_set(kids, kids.len() as int);
            if kid_set(kids, kids.len() as int).contains(pid as int) {
                let i = choose|i: int| 0 <= i < kids.len() && owns(#[trigger] kids[i], pid);
                assert(!owns(kids[i], pid));
            }
            assert forall|x: int| #[trigger] page_set(t).contains(x) implies 0 <= x <= u32::MAX
                && owns(t, x as u32) by {
                if x != pid {
                    assert(kid_set(kids, kids.len() as int).contains(x));
                }
            }
        },
    }
}

proof fn lemma_kid_set(kids: Seq<Tree>, n: int)
    requires
        0 <= n <= kids.len(),
        forall|i: int, j: int|
            0 <= i < j < kids.len() ==> disjoint(#[trigger] kids[i], #[trigger] kids[j]),
        forall|i: int| 0 <= i < kids.len() ==> apart(#[trigger] kids[i]),
    ensures
        kid_set(kids, n).finite(),
        kid_set(kids, n).len() == kid_count(kids, n),
        forall|x: int| #[trigger]
            kid_set(kids, n).contains(x) ==> 0 <= x <= u32::MAX && exists|i: int|
                0 <= i < n && owns(#[trigger] kids[i], x as u32),
    decreases kids, n,
{
    if n > 0 {
        lemma_kid_set(kids, n - 1);
        let k = kids[n - 1];
        assert(apart(k));
        lemma_page_set(k);
        let a = kid_set(kids, n - 1);
        let b = page_set(k);
        assert(a.disjoint(b)) by {
            assert forall|x: int| a.contains(x) implies !b.contains(x) by {
                if b.contains(x) {
                    let i = choose|i: int| 0 <= i < n - 1 && owns(#[trigger] kids[i], x as u32);
                    assert(disjoint(kids[i], kids[n - 1]));
                    assert(owns(kids[i], x as u32));
                    assert(owns(k, x as u32));
                }
            }
        }
        vstd::set_lib::lemma_set_disjoint_lens(a, b);
        assert forall|x: int| #[trigger] kid_set(kids, n).contains(x) implies 0 <= x <= u32::MAX
            && exists|i: int| 0 <= i < n && owns(#[trigger] kids[i], x as u32) by {
            if b.contains(x) {
                assert(owns(kids[n - 1], x as u32));
            } else {
                let i = choose|i: int| 0 <= i < n - 1 && owns(#[trigger] kids[i], x as u32);
                assert(owns(kids[i], x as u32));
            }
        }
    }
}

/// A tree is no deeper than it has nodes, nor has it more leaves.
proof fn lemma_shallow(t: Tree)
    ensures
        deepest(t) <= node_count(t),
        leaves(t).len() <= node_count(t),
    decreases t, 0int,
{
    match t {
        Tree::Leaf { pid, es } => {},
        Tree::Node { pid, ks, kids } => {
            lemma_kid_shallow(kids, kids.len() as int);
        },
    }
}

proof fn lemma_kid_shallow(kids: Seq<Tree>, n: int)
    requires
        0 <= n <= kids.len(),
    ensures
        kid_deepest(kids, n) <= kid_count(kids, n),
        leaves_to(kids, n).len() <= kid_count(kids, n),
        kid_count(kids, n) >= 0,
    decreases kids, n,
{
    if n > 0 {
        lemma_kid_shallow(kids, n - 1);
        lemma_shallow(kids[n - 1]);
        lemma_counts(kids[n - 1]);
    }
}

proof fn lemma_few_entries(pages: Pages, t: Tree, k: int)
    requires
        shaped(pages, t),
        forall|p: PageId| #[trigger] pages.dom().contains(p) ==> pages[p].len() == PAGE_SIZE - 4,
        0 <= k <= leaves(t).len(),
    ensures
        concat(leaves(t).take(k)).len() <= 1020 * k,
    decreases k,
{
    let ls = leaves(t);
    if k > 0 {
        lemma_few_entries(pages, t, k - 1);
        assert(ls.take(k).drop_last() =~= ls.take(k - 1));
        lemma_leaf_owned(pages, t, k - 1);
        lemma_leaf_fits(pages, ls[k - 1].0, ls[k - 1].1);
        crate::btree::lemma_leaf_small(ls[k - 1].1);
    } else {
        assert(ls.take(0) =~= Seq::<LeafOf>::empty());
    }
}

/// A well-formed tree can be checked, whatever other pages are lost, and nothing is found.
pub proof fn law_well_formed_trees_check_clean(pages: Pages, gone: Set<PageId>, t: Tree)
    requires
        tree_ok(pages, t),
        forall|p: PageId| #[trigger]
            pages.dom().contains(p) ==> p != NIL && pages[p].len() == PAGE_SIZE - 4,
    ensures
        checkable(pages, gone, t.pid()),
        tree_at(pages, gone, t.pid()) == t,
        first_bad(pages, gone, t.pid()) is None,
        all_faults(pages, t).len() == 0,
        depths(t, 0)[0] == height(t),
{
    let u = tree_at(pages, gone, t.pid());
    lemma_shaped_rough(pages, gone, t);
    assert(rough(pages, gone, t) && t.pid() == t.pid());
    lemma_rough_unique(pages, gone, u, t);
    lemma_has_leaf(t, height(t));
    let own = leaves(t);
    assert forall|i: int| 0 <= i < own.len() implies #[trigger] walk_step(pages, own, i) by {
        lemma_leaf_owned(pages, t, i);
        assert(linked_at(pages, leaf_ids(t), i));
    }
    assert(walks(pages, own[0].0, own));
    lemma_runs_walks(pages, own[0].0, own);
    let x = (own, NIL);
    assert(ends_at(pages, gone, own[0].0, x));
    lemma_chain_unique(pages, gone, own[0].0, x, chain_from(pages, gone, own[0].0));
    lemma_page_set(t);
    crate::btree::tree::lemma_owned_pages(pages, t);
    let all = vstd::set_lib::set_int_range(0, u32::MAX as int);
    vstd::set_lib::lemma_int_range(0, u32::MAX as int);
    assert(page_set(t).subset_of(all)) by {
        assert forall|x: int| page_set(t).contains(x) implies all.contains(x) by {
            assert(owns(t, x as u32));
            assert(pages.dom().contains(x as u32));
        }
    }
    vstd::set_lib::lemma_len_subset(page_set(t), all);
    lemma_shallow(t);
    lemma_few_entries(pages, t, own.len() as int);
    assert(own.take(own.len() as int) =~= own);
    law_clean_check_iff_well_formed(pages, t);
    lemma_level_depths(pages, t, 0, height(t));
    assert(depths(t, 0)[0] == height(t));
}

/// A finite tree can be checked though some of its pages are no nodes or cannot be had; where
/// none of them is, as long as the chain of its leaves ends. What the check runs into first
/// is then the first such page of the tree, else the page that the chain ends at.
pub proof fn law_damaged_trees_are_checkable(
    pages: Pages,
    gone: Set<PageId>,
    t: Tree,
    chain: (Seq<LeafOf>, PageId),
)
    requires
        rough(pages, gone, t),
        deepest(t) <= u32::MAX,
        node_count(t) <= u64::MAX,
        leaves(t).len() <= u64::MAX,
        flat(t).len() <= u64::MAX,
        first_misfit(pages, gone, leaves(t)) is None ==> ends_at(
            pages,
            gone,
            leaves(t)[0].0,
            chain,
        ),
    ensures
        checkable(pages, gone, t.pid()),
        tree_at(pages, gone, t.pid()) == t,
        first_bad(pages, gone, t.pid()) == match first_misfit(pages, gone, leaves(t)) {
            Some(p) => Some(p),
            None => if chain.1 != NIL {
                Some(chain.1)
            } else {
                None
            },
        },
{
    let u = tree_at(pages, gone, t.pid());
    assert(rough(pages, gone, t) && t.pid() == t.pid());
    lemma_rough_unique(pages, gone, u, t);
    if first_misfit(pages, gone, leaves(t)) is None {
        let first = leaves(t)[0].0;
        lemma_chain_unique(pages, gone, first, chain, chain_from(pages, gone, first));
    }
}

} // verus!
