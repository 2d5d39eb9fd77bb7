//! A lock manager: multi-granularity modes, FIFO queues per resource, and
//! deadlock detection on a waits-for graph.

use std::collections::{BTreeSet, HashMap, HashSet};

use vstd::prelude::*;

use crate::sets::{map_keys, members};

verus! {

broadcast use {
    vstd::std_specs::btree::group_btree_axioms,
    vstd::std_specs::hash::group_hash_axioms,
    vstd::laws_cmp::group_laws_cmp,
};

pub type TxnId = u64;

/// What can be locked.
#[derive(Clone, Copy, Debug, PartialEq, Eq, Hash, Structural)]
pub enum Resource {
    Table(u32),
    Row(u32, u64),
}

/// Lock modes, weakest first.
#[derive(Clone, Copy, Debug, PartialEq, Eq, Structural)]
pub enum Mode {
    IS,
    IX,
    S,
    SIX,
    X,
}

/// Two transactions may hold modes `a` and `b` at once: intention modes go
/// together, `S` goes with `S` and `IS`, `SIX` with `IS` alone, `X` with nothing.
pub open spec fn compatible_modes(a: Mode, b: Mode) -> bool {
    match (a, b) {
        (Mode::X, _) => false,
        (_, Mode::X) => false,
        (Mode::IS, _) => true,
        (_, Mode::IS) => true,
        (Mode::IX, Mode::IX) => true,
        (Mode::S, Mode::S) => true,
        _ => false,
    }
}

impl Mode {
    fn idx(self) -> (i: usize)
        ensures
            i < 5,
            i == match self {
                Mode::IS => 0int,
                Mode::IX => 1,
                Mode::S => 2,
                Mode::SIX => 3,
                Mode::X => 4,
            },
    {
        match self {
            Mode::IS => 0,
            Mode::IX => 1,
            Mode::S => 2,
            Mode::SIX => 3,
            Mode::X => 4,
        }
    }

    /// May another transaction hold `other` beside this mode?
    pub fn compatible(self, other: Mode) -> (r: bool)
        ensures
            r == compatible_modes(self, other),
    {
        let matrix: [[bool; 5]; 5] = [
            [true, true, true, true, false],
            [true, true, false, false, false],
            [true, false, true, false, false],
            [true, false, false, false, false],
            [false, false, false, false, false],
        ];
        matrix[self.idx()][other.idx()]
    }
}

/// Compatibility is mutual.
pub proof fn law_compatibility_is_symmetric(a: Mode, b: Mode)
    ensures
        compatible_modes(a, b) == compatible_modes(b, a),
{
}

/// The answer to a lock request.
#[derive(Clone, Copy, Debug, PartialEq, Eq, Structural)]
pub enum Grant {
    Granted,
    Waiting,
    Deadlock { victim: TxnId },
}

/// Who waits for whom.
pub type Graph = Map<TxnId, Set<TxnId>>;

pub open spec fn edge(g: Graph, a: TxnId, b: TxnId) -> bool {
    g.dom().contains(a) && g[a].contains(b)
}

/// Consecutive transactions of `p` wait for one another.
pub open spec fn is_path(g: Graph, p: Seq<TxnId>) -> bool {
    p.len() > 0 && forall|i: int| 0 <= i < p.len() - 1 ==> #[trigger] step_ok(g, p, i)
}

pub open spec fn step_ok(g: Graph, p: Seq<TxnId>, i: int) -> bool {
    edge(g, p[i], p[i + 1])
}

/// `p` leads from `a` to `b`.
pub open spec fn leads(g: Graph, p: Seq<TxnId>, a: TxnId, b: TxnId) -> bool {
    is_path(g, p) && p.first() == a && p.last() == b
}

/// `a` waits for `b`, directly or through others, or is `b`.
pub open spec fn reaches(g: Graph, a: TxnId, b: TxnId) -> bool {
    exists|p: Seq<TxnId>| leads(g, p, a, b)
}

/// Nobody waits for itself through others.
pub open spec fn acyclic(g: Graph) -> bool {
    forall|a: TxnId, b: TxnId| #[trigger] edge(g, a, b) ==> !reaches(g, b, a)
}

/// All but the last node of `p` lie in `s`.
pub open spec fn inside(p: Seq<TxnId>, s: Set<TxnId>) -> bool {
    forall|i: int| 0 <= i < p.len() - 1 ==> s.contains(#[trigger] p[i])
}

proof fn lemma_reaches_self(g: Graph, a: TxnId)
    ensures
        reaches(g, a, a),
{
    assert(leads(g, seq![a], a, a));
}

proof fn lemma_path_append(g: Graph, p: Seq<TxnId>, a: TxnId, b: TxnId, c: TxnId)
    requires
        leads(g, p, a, b),
        edge(g, b, c),
    ensures
        leads(g, p.push(c), a, c),
{
    let q = p.push(c);
    assert forall|i: int| 0 <= i < q.len() - 1 implies #[trigger] step_ok(g, q, i) by {
        if i < p.len() - 1 {
            assert(step_ok(g, p, i));
        }
    }
}

proof fn lemma_reaches_append(g: Graph, a: TxnId, b: TxnId, c: TxnId)
    requires
        reaches(g, a, b),
        edge(g, b, c),
    ensures
        reaches(g, a, c),
{
    let p = choose|p: Seq<TxnId>| leads(g, p, a, b);
    lemma_path_append(g, p, a, b, c);
}

proof fn lemma_reaches_trans(g: Graph, a: TxnId, b: TxnId, c: TxnId)
    requires
        reaches(g, a, b),
        reaches(g, b, c),
    ensures
        reaches(g, a, c),
{
    let p = choose|p: Seq<TxnId>| leads(g, p, a, b);
    let q = choose|q: Seq<TxnId>| leads(g, q, b, c);
    let r = p + q.drop_first();
    assert forall|i: int| 0 <= i < r.len() - 1 implies #[trigger] step_ok(g, r, i) by {
        if i < p.len() - 1 {
            assert(step_ok(g, p, i));
        } else {
            let j = i - (p.len() - 1);
            assert(step_ok(g, q, j));
            assert(r[i] == q[j]);
            assert(r[i + 1] == q[j + 1]);
        }
    }
    assert(r.last() == c) by {
        if q.len() == 1 {
            assert(r =~= p);
        }
    }
    assert(leads(g, r, a, c));
}

proof fn lemma_reaches_prepend(g: Graph, a: TxnId, b: TxnId, c: TxnId)
    requires
        edge(g, a, b),
        reaches(g, b, c),
    ensures
        reaches(g, a, c),
{
    lemma_reaches_self(g, a);
    lemma_reaches_append(g, a, a, b);
    lemma_reaches_trans(g, a, b, c);
}

/// A set that contains `a` and everything its members wait for contains all that
/// `a` reaches.
proof fn lemma_closed_set(g: Graph, s: Set<TxnId>, p: Seq<TxnId>)
    requires
        is_path(g, p),
        s.contains(p.first()),
        forall|x: TxnId, y: TxnId| s.contains(x) && #[trigger] edge(g, x, y) ==> s.contains(y),
    ensures
        s.contains(p.last()),
    decreases p.len(),
{
    if p.len() > 1 {
        let q = p.drop_first();
        assert(step_ok(g, p, 0));
        assert forall|i: int| 0 <= i < q.len() - 1 implies #[trigger] step_ok(g, q, i) by {
            assert(step_ok(g, p, i + 1));
        }
        lemma_closed_set(g, s, q);
    }
}

/// The graph with edges from `t` to all of `w` added.
pub open spec fn with_edges(g: Graph, t: TxnId, w: Set<TxnId>) -> Graph {
    g.insert(
        t,
        if g.dom().contains(t) {
            g[t].union(w)
        } else {
            w
        },
    )
}

proof fn lemma_new_edges_split(
    g: Graph,
    t: TxnId,
    w: Set<TxnId>,
    p: Seq<TxnId>,
    x: TxnId,
    y: TxnId,
)
    requires
        leads(with_edges(g, t, w), p, x, y),
    ensures
        reaches(g, x, y) || (reaches(g, x, t) && exists|b: TxnId| w.contains(b) && reaches(g, b, y)),
    decreases p.len(),
{
    let h = with_edges(g, t, w);
    if p.len() == 1 {
        lemma_reaches_self(g, x);
    } else {
        let q = p.drop_first();
        let x2 = p[1];
        assert(step_ok(h, p, 0));
        assert forall|i: int| 0 <= i < q.len() - 1 implies #[trigger] step_ok(h, q, i) by {
            assert(step_ok(h, p, i + 1));
        }
        lemma_new_edges_split(g, t, w, q, x2, y);
        lemma_reaches_self(g, t);
        if edge(g, x, x2) {
            if reaches(g, x2, y) {
                lemma_reaches_prepend(g, x, x2, y);
            } else {
                lemma_reaches_prepend(g, x, x2, t);
            }
        } else {
            assert(x == t && w.contains(x2));
        }
    }
}

/// Waiting for transactions that do not lead back to oneself closes no cycle.
pub proof fn law_waiting_closes_no_cycle(g: Graph, t: TxnId, w: Set<TxnId>)
    requires
        acyclic(g),
        forall|b: TxnId| w.contains(b) ==> !reaches(g, b, t),
    ensures
        acyclic(with_edges(g, t, w)),
{
    let h = with_edges(g, t, w);
    assert forall|a: TxnId, b: TxnId| #[trigger] edge(h, a, b) implies !reaches(h, b, a) by {
        if reaches(h, b, a) {
            let p = choose|p: Seq<TxnId>| leads(h, p, b, a);
            lemma_new_edges_split(g, t, w, p, b, a);
            if edge(g, a, b) {
                if !reaches(g, b, a) {
                    let c = choose|c: TxnId| w.contains(c) && reaches(g, c, a);
                    lemma_reaches_append(g, c, a, b);
                    lemma_reaches_trans(g, c, b, t);
                }
            } else {
                assert(a == t && w.contains(b));
            }
        }
    }
}

/// Every edge of `h` is one of `g`.
pub open spec fn subgraph(h: Graph, g: Graph) -> bool {
    forall|a: TxnId, b: TxnId| #[trigger] edge(h, a, b) ==> edge(g, a, b)
}

proof fn lemma_subgraph_acyclic(h: Graph, g: Graph)
    requires
        subgraph(h, g),
        acyclic(g),
    ensures
        acyclic(h),
{
    assert forall|a: TxnId, b: TxnId| #[trigger] edge(h, a, b) implies !reaches(h, b, a) by {
        if reaches(h, b, a) {
            let p = choose|p: Seq<TxnId>| leads(h, p, b, a);
            assert forall|i: int| 0 <= i < p.len() - 1 implies #[trigger] step_ok(g, p, i) by {
                assert(step_ok(h, p, i));
            }
            assert(leads(g, p, b, a));
        }
    }
}


/// A transaction with the mode it holds or wants.
pub type Claim = (TxnId, Mode);

/// The queue of one resource.
#[verifier::ext_equal]
pub ghost struct Queue {
    pub granted: Seq<Claim>,
    pub waiting: Seq<Claim>,
}

pub open spec fn empty_queue() -> Queue {
    Queue { granted: Seq::empty(), waiting: Seq::empty() }
}

/// `txn` is among the claims.
pub open spec fn claims(cs: Seq<Claim>, txn: TxnId) -> bool {
    exists|i: int| 0 <= i < cs.len() && (#[trigger] cs[i]).0 == txn
}

/// Some other transaction's claim in `cs` keeps `txn` from having `mode`.
pub open spec fn blocks(cs: Seq<Claim>, txn: TxnId, mode: Mode, t: TxnId) -> bool {
    &&& t != txn
    &&& exists|i: int|
        0 <= i < cs.len() && (#[trigger] cs[i]).0 == t && !compatible_modes(mode, cs[i].1)
}

/// The transactions that a request has to wait for.
pub open spec fn wait_set(q: Queue, txn: TxnId, mode: Mode) -> Set<TxnId> {
    Set::new(|t: TxnId| blocks(q.granted, txn, mode, t) || blocks(q.waiting, txn, mode, t))
}

/// `mode` goes with every claim of `cs`.
pub open spec fn fits(cs: Seq<Claim>, mode: Mode) -> bool {
    forall|i: int| 0 <= i < cs.len() ==> compatible_modes(mode, (#[trigger] cs[i]).1)
}

/// The claims of `cs` that are not `txn`'s.
pub open spec fn without(cs: Seq<Claim>, txn: TxnId) -> Seq<Claim>
    decreases cs.len(),
{
    if cs.len() == 0 {
        Seq::empty()
    } else if cs.last().0 == txn {
        without(cs.drop_last(), txn)
    } else {
        without(cs.drop_last(), txn).push(cs.last())
    }
}

/// How many waiters at the head of the queue can be granted.
pub open spec fn ready(q: Queue) -> nat
    decreases q.waiting.len(),
{
    if q.waiting.len() > 0 && fits(q.granted, q.waiting.first().1) {
        1 + ready(
            Queue {
                granted: q.granted.push(q.waiting.first()),
                waiting: q.waiting.drop_first(),
            },
        )
    } else {
        0
    }
}

/// The queue after its ready waiters were granted, first come first served.
pub open spec fn promoted(q: Queue) -> Queue {
    Queue {
        granted: q.granted + q.waiting.take(ready(q) as int),
        waiting: q.waiting.skip(ready(q) as int),
    }
}

proof fn lemma_ready(q: Queue)
    ensures
        ready(q) <= q.waiting.len(),
    decreases q.waiting.len(),
{
    if q.waiting.len() > 0 && fits(q.granted, q.waiting.first().1) {
        lemma_ready(
            Queue {
                granted: q.granted.push(q.waiting.first()),
                waiting: q.waiting.drop_first(),
            },
        );
    }
}

/// The queue after `txn` left it.
pub open spec fn dropped(q: Queue, txn: TxnId) -> Queue {
    Queue { granted: without(q.granted, txn), waiting: without(q.waiting, txn) }
}

pub open spec fn released(q: Queue, txn: TxnId) -> Queue {
    promoted(dropped(q, txn))
}

/// Granted modes go together.
pub open spec fn coexist(cs: Seq<Claim>) -> bool {
    forall|i: int, j: int|
        0 <= i < j < cs.len() ==> compatible_modes((#[trigger] cs[i]).1, (#[trigger] cs[j]).1)
}

/// The state of the lock manager.
#[verifier::ext_equal]
pub ghost struct LockView {
    pub table: Map<Resource, Queue>,
    pub waits: Graph,
}

impl LockView {
    /// The queue of a resource, empty where nobody claims it.
    pub open spec fn queue(self, res: Resource) -> Queue {
        if self.table.dom().contains(res) {
            self.table[res]
        } else {
            empty_queue()
        }
    }

    /// On every resource the granted modes go together, and the waits-for graph
    /// has no cycle.
    pub open spec fn wf(self) -> bool {
        &&& forall|r: Resource| coexist((#[trigger] self.queue(r)).granted)
        &&& acyclic(self.waits)
    }

    /// A request of `txn` can be granted at once: nobody waits, and no holder is
    /// in the way.
    pub open spec fn free(self, txn: TxnId, res: Resource, mode: Mode) -> bool {
        &&& self.queue(res).waiting.len() == 0
        &&& forall|t: TxnId| !blocks(self.queue(res).granted, txn, mode, t)
    }

    /// Waiting would close a cycle.
    pub open spec fn deadlocks(self, txn: TxnId, res: Resource, mode: Mode) -> bool {
        closes_cycle(self.waits, txn, wait_set(self.queue(res), txn, mode))
    }

    /// `txn` got its lock.
    pub open spec fn granted(self, txn: TxnId, res: Resource, mode: Mode) -> LockView {
        let q = self.queue(res);
        LockView {
            table: self.table.insert(
                res,
                Queue { granted: q.granted.push((txn, mode)), waiting: q.waiting },
            ),
            waits: self.waits,
        }
    }

    /// `txn` was queued.
    pub open spec fn queued(self, txn: TxnId, res: Resource, mode: Mode) -> LockView {
        let q = self.queue(res);
        LockView {
            table: self.table.insert(
                res,
                Queue { granted: q.granted, waiting: q.waiting.push((txn, mode)) },
            ),
            waits: with_edges(self.waits, txn, wait_set(q, txn, mode)),
        }
    }

    /// `t` is granted something when `txn` lets go.
    pub open spec fn is_promoted(self, txn: TxnId, t: TxnId) -> bool {
        exists|r: Resource| #[trigger]
            self.table.dom().contains(r) && ({
                let q = dropped(self.table[r], txn);
                claims(q.waiting.take(ready(q) as int), t)
            })
    }

    /// `txn` let go of everything: it left every queue, the waiters that became
    /// ready were granted, queues that became empty are gone, and neither `txn`
    /// nor anyone just granted something waits any more.
    pub open spec fn all_released(self, txn: TxnId) -> LockView {
        LockView {
            table: Map::new(
                |r: Resource|
                    self.table.dom().contains(r) && released(self.table[r], txn) != empty_queue(),
                |r: Resource| released(self.table[r], txn),
            ),
            waits: Map::new(
                |t: TxnId|
                    self.waits.dom().contains(t) && t != txn && !self.is_promoted(txn, t),
                |t: TxnId| self.waits[t].remove(txn),
            ),
        }
    }
}

/// Waiting for all of `w` would close a cycle through `txn`.
pub open spec fn closes_cycle(g: Graph, txn: TxnId, w: Set<TxnId>) -> bool {
    exists|b: TxnId| w.contains(b) && reaches(g, b, txn)
}

/// `v` is the youngest of `txn`, all it would wait for, and a set of transactions
/// met on the way from one of those back to `txn`, a whole path among them.
pub open spec fn is_victim(g: Graph, txn: TxnId, w: Set<TxnId>, v: TxnId) -> bool {
    exists|b: TxnId, met: Set<TxnId>, p: Seq<TxnId>| #[trigger]
        youngest_on(g, txn, w, v, b, met, p)
}

pub open spec fn youngest_on(
    g: Graph,
    txn: TxnId,
    w: Set<TxnId>,
    v: TxnId,
    b: TxnId,
    met: Set<TxnId>,
    p: Seq<TxnId>,
) -> bool {
    &&& w.contains(b)
    &&& leads(g, p, b, txn)
    &&& inside(p, met)
    &&& forall|t: TxnId| met.contains(t) ==> reaches(g, b, t)
    &&& v == txn || w.contains(v) || met.contains(v)
    &&& txn <= v
    &&& forall|t: TxnId| w.contains(t) || met.contains(t) ==> t <= v
}

#[derive(Debug)]
struct Entry {
    granted: Vec<Claim>,
    waiting: Vec<Claim>,
}

impl View for Entry {
    type V = Queue;

    closed spec fn view(&self) -> Queue {
        Queue { granted: self.granted@, waiting: self.waiting@ }
    }
}

fn copy_claims(cs: &Vec<Claim>) -> (r: Vec<Claim>)
    ensures
        r@ == cs@,
{
    let mut r: Vec<Claim> = Vec::new();
    let mut i: usize = 0;
    while i < cs.len()
        invariant
            i <= cs@.len(),
            r@ == cs@.take(i as int),
        decreases cs.len() - i,
    {
        r.push(cs[i]);
        i = i + 1;
    }
    assert(cs@.take(i as int) =~= cs@);
    r
}

fn is_claimed(cs: &Vec<Claim>, txn: TxnId) -> (r: bool)
    ensures
        r == claims(cs@, txn),
{
    let mut i: usize = 0;
    while i < cs.len()
        invariant
            i <= cs@.len(),
            forall|j: int| 0 <= j < i ==> (#[trigger] cs@[j]).0 != txn,
        decreases cs.len() - i,
    {
        if cs[i].0 == txn {
            assert(cs@[i as int].0 == txn);
            return true;
        }
        i = i + 1;
    }
    false
}

/// Add the transactions of `cs` that keep `txn` from having `mode`.
fn add_blockers(cs: &Vec<Claim>, txn: TxnId, mode: Mode, out: &mut BTreeSet<TxnId>)
    ensures
        forall|t: TxnId| #[trigger]
            final(out)@.contains(t) <==> old(out)@.contains(t) || blocks(cs@, txn, mode, t),
{
    let mut i: usize = 0;
    while i < cs.len()
        invariant
            i <= cs@.len(),
            forall|t: TxnId| #[trigger]
                out@.contains(t) <==> old(out)@.contains(t) || (t != txn && exists|j: int|
                    0 <= j < i && (#[trigger] cs@[j]).0 == t && !compatible_modes(mode, cs@[j].1)),
        decreases cs.len() - i,
    {
        let (t, m): (TxnId, Mode) = cs[i];
        if t != txn && !mode.compatible(m) {
            out.insert(t);
            assert(cs@[i as int].0 == t);
        }
        i = i + 1;
    }
}

fn without_txn(cs: &Vec<Claim>, txn: TxnId) -> (r: Vec<Claim>)
    ensures
        r@ == without(cs@, txn),
{
    let mut r: Vec<Claim> = Vec::new();
    let mut i: usize = 0;
    while i < cs.len()
        invariant
            i <= cs@.len(),
            r@ == without(cs@.take(i as int), txn),
        decreases cs.len() - i,
    {
        assert(cs@.take(i + 1).drop_last() =~= cs@.take(i as int));
        if cs[i].0 != txn {
            r.push(cs[i]);
        }
        i = i + 1;
    }
    assert(cs@.take(i as int) =~= cs@);
    r
}

fn fits_all(cs: &Vec<Claim>, mode: Mode) -> (r: bool)
    ensures
        r == fits(cs@, mode),
{
    let mut i: usize = 0;
    while i < cs.len()
        invariant
            i <= cs@.len(),
            forall|j: int| 0 <= j < i ==> compatible_modes(mode, (#[trigger] cs@[j]).1),
        decreases cs.len() - i,
    {
        if !mode.compatible(cs[i].1) {
            return false;
        }
        i = i + 1;
    }
    true
}

/// The youngest of `txn`, the transactions of `w` and those on `path`.
fn youngest(txn: TxnId, w: &Vec<TxnId>, path: &Vec<TxnId>) -> (v: TxnId)
    ensures
        v == txn || w@.contains(v) || path@.contains(v),
        txn <= v,
        forall|i: int| 0 <= i < w@.len() ==> #[trigger] w@[i] <= v,
        forall|i: int| 0 <= i < path@.len() ==> #[trigger] path@[i] <= v,
{
    let mut v: TxnId = txn;
    let mut i: usize = 0;
    while i < w.len()
        invariant
            i <= w@.len(),
            v == txn || w@.contains(v),
            txn <= v,
            forall|j: int| 0 <= j < i ==> #[trigger] w@[j] <= v,
        decreases w.len() - i,
    {
        if w[i] > v {
            v = w[i];
            assert(w@.contains(w@[i as int]));
        }
        i = i + 1;
    }
    i = 0;
    while i < path.len()
        invariant
            i <= path@.len(),
            v == txn || w@.contains(v) || path@.contains(v),
            txn <= v,
            forall|j: int| 0 <= j < w@.len() ==> #[trigger] w@[j] <= v,
            forall|j: int| 0 <= j < i ==> #[trigger] path@[j] <= v,
        decreases path.len() - i,
    {
        if path[i] > v {
            v = path[i];
            assert(path@.contains(path@[i as int]));
        }
        i = i + 1;
    }
    v
}

type WaitMap = HashMap<TxnId, BTreeSet<TxnId>>;

spec fn graph_of(m: Map<TxnId, BTreeSet<TxnId>>) -> Graph {
    Map::new(|t: TxnId| m.dom().contains(t), |t: TxnId| m[t]@)
}

/// The stack holds nothing that is not reached from `b` through visited nodes.
spec fn stack_ok(g: Graph, b: TxnId, stack: Seq<TxnId>, met: Set<TxnId>) -> bool {
    forall|i: int|
        0 <= i < stack.len() ==> exists|p: Seq<TxnId>|
            leads(g, p, b, #[trigger] stack[i]) && inside(p, met)
}

/// Search from `b` for a way to `txn`, noting on `path` what was met.
fn search(waits: &WaitMap, txn: TxnId, b: TxnId, path: &mut Vec<TxnId>) -> (found: bool)
    requires
        old(path)@.len() == 0,
    ensures
        found == reaches(graph_of(waits@), b, txn),
        forall|i: int|
            0 <= i < final(path)@.len() ==> reaches(
                graph_of(waits@),
                b,
                #[trigger] final(path)@[i],
            ),
        found ==> exists|p: Seq<TxnId>|
            #![trigger leads(graph_of(waits@), p, b, txn)]
            leads(graph_of(waits@), p, b, txn) && inside(p, final(path)@.to_set()),
{
    let ghost g = graph_of(waits@);
    let mut stack: Vec<TxnId> = Vec::new();
    stack.push(b);
    let mut seen: HashSet<TxnId> = HashSet::new();
    proof {
        assert(leads(g, seq![b], b, stack@[0]) && inside(seq![b], path@.to_set()));
        lemma_finite(waits);
    }
    while stack.len() > 0
        invariant
            g == graph_of(waits@),
            g.dom().finite(),
            stack_ok(g, b, stack@, path@.to_set()),
            forall|t: TxnId| seen@.contains(t) <==> path@.contains(t),
            forall|t: TxnId| seen@.contains(t) ==> reaches(g, b, t) && t != txn,
            seen@.contains(b) || stack@.contains(b),
            forall|x: TxnId, y: TxnId|
                seen@.contains(x) && #[trigger] edge(g, x, y) ==> seen@.contains(y)
                    || stack@.contains(y),
        decreases g.dom().difference(seen@).len(), stack@.len(),
    {
        let ghost stack0 = stack@;
        let ghost seen0 = seen@;
        let ghost path0 = path@;
        let node: TxnId = match stack.pop() {
            Some(n) => n,
            None => txn,
        };
        proof {
            assert(stack0[stack0.len() - 1] == node);
            assert forall|y: TxnId| stack0.contains(y) implies y == node || stack@.contains(y) by {
                let j = choose|j: int| 0 <= j < stack0.len() && stack0[j] == y;
                if j < stack@.len() {
                    assert(stack@[j] == y);
                }
            }
        }
        let ghost p = choose|p: Seq<TxnId>|
            leads(g, p, b, stack0[stack0.len() - 1]) && inside(p, path0.to_set());
        if node == txn {
            assert(leads(g, p, b, txn));
            return true;
        }
        if seen.contains(&node) {
            continue;
        }
        seen.insert(node);
        path.push(node);
        proof {
            assert(leads(g, p, b, node));
            assert forall|t: TxnId| path0.contains(t) implies path@.contains(t) by {
                let j = choose|j: int| 0 <= j < path0.len() && path0[j] == t;
                assert(path@[j] == t);
            }
            assert(path@[path@.len() - 1] == node);
            assert forall|t: TxnId| path@.contains(t) implies path0.contains(t) || t == node by {
                let j = choose|j: int| 0 <= j < path@.len() && path@[j] == t;
                if j < path0.len() {
                    assert(path0[j] == t);
                }
            }
            assert forall|i: int| 0 <= i < stack@.len() implies exists|q: Seq<TxnId>|
                leads(g, q, b, #[trigger] stack@[i]) && inside(q, path@.to_set()) by {
                assert(stack@[i] == stack0[i]);
                let q = choose|q: Seq<TxnId>|
                    leads(g, q, b, stack0[i]) && inside(q, path0.to_set());
                lemma_inside_grows(q, path0, path@);
            }
        }
        let nexts: Vec<TxnId> = match waits.get(&node) {
            Some(edges) => members(edges),
            None => Vec::new(),
        };
        proof {
            assert(forall|y: TxnId| edge(g, node, y) <==> nexts@.contains(y));
            if !g.dom().contains(node) {
                assert(g.dom().difference(seen@) =~= g.dom().difference(seen0));
            } else {
                assert(g.dom().difference(seen@) =~= g.dom().difference(seen0).remove(node));
                assert(g.dom().difference(seen0).finite());
                assert(g.dom().difference(seen0).contains(node));
            }
        }
        let ghost below = stack@;
        let mut k: usize = 0;
        while k < nexts.len()
            invariant
                k <= nexts@.len(),
                stack@ == below + nexts@.take(k as int),
            decreases nexts.len() - k,
        {
            stack.push(nexts[k]);
            k = k + 1;
        }
        proof {
            assert(nexts@.take(k as int) =~= nexts@);
            lemma_inside_grows(p, path0, path@);
            assert forall|i: int| 0 <= i < stack@.len() implies exists|q: Seq<TxnId>|
                leads(g, q, b, #[trigger] stack@[i]) && inside(q, path@.to_set()) by {
                if i < below.len() {
                    assert(stack@[i] == below[i]);
                } else {
                    let y = nexts@[i - below.len()];
                    assert(nexts@.contains(y));
                    lemma_path_append(g, p, b, node, y);
                    assert(inside(p.push(y), path@.to_set()));
                    assert(stack@[i] == y);
                }
            }
            assert forall|x: TxnId, y: TxnId| seen@.contains(x) && #[trigger] edge(
                g,
                x,
                y,
            ) implies seen@.contains(y) || stack@.contains(y) by {
                if x == node {
                    assert(nexts@.contains(y));
                    let j = choose|j: int| 0 <= j < nexts@.len() && nexts@[j] == y;
                    assert(stack@[j + below.len()] == y);
                } else {
                    assert(seen0.contains(y) || stack0.contains(y));
                    if stack0.contains(y) && y != node {
                        assert(below.contains(y));
                        let j = choose|j: int| 0 <= j < below.len() && below[j] == y;
                        assert(stack@[j] == y);
                    }
                }
            }
        }
    }
    proof {
        if reaches(g, b, txn) {
            let q = choose|q: Seq<TxnId>| leads(g, q, b, txn);
            lemma_closed_set(g, seen@, q);
        }
        assert forall|i: int| 0 <= i < path@.len() implies reaches(g, b, #[trigger] path@[i]) by {
            assert(path@.contains(path@[i]));
        }
    }
    false
}

proof fn lemma_inside_grows(p: Seq<TxnId>, a: Seq<TxnId>, b: Seq<TxnId>)
    requires
        inside(p, a.to_set()),
        forall|t: TxnId| a.contains(t) ==> b.contains(t),
    ensures
        inside(p, b.to_set()),
{
    assert forall|i: int| 0 <= i < p.len() - 1 implies b.to_set().contains(#[trigger] p[i]) by {
        assert(a.to_set().contains(p[i]));
    }
}

proof fn lemma_finite(waits: &WaitMap)
    ensures
        graph_of(waits@).dom().finite(),
{
    assert(graph_of(waits@).dom() =~= waits@.dom());
}


const ROW_BASE: u128 = 0x1_0000_0000_0000_0000_0000_0000;

const TABLE_STEP: u128 = 0x1_0000_0000_0000_0000;

/// The number that stands for a resource.
spec fn key_of(r: Resource) -> int {
    match r {
        Resource::Table(t) => t as int,
        Resource::Row(t, k) => ROW_BASE + t * TABLE_STEP + k,
    }
}

/// The resource that a number stands for.
spec fn resource_of(k: int) -> Resource {
    if k < ROW_BASE {
        Resource::Table(k as u32)
    } else {
        Resource::Row(((k - ROW_BASE) / TABLE_STEP as int) as u32, (k % TABLE_STEP as int) as u64)
    }
}

proof fn lemma_key_of(r: Resource)
    ensures
        0 <= key_of(r) <= u128::MAX,
        resource_of(key_of(r)) == r,
{
}

fn key(r: Resource) -> (k: u128)
    ensures
        k == key_of(r),
{
    match r {
        Resource::Table(t) => t as u128,
        Resource::Row(t, k) => ROW_BASE + t as u128 * TABLE_STEP + k as u128,
    }
}

type LockTable = HashMap<u128, Entry>;

spec fn queues(m: Map<u128, Entry>) -> Map<Resource, Queue> {
    Map::new(
        |r: Resource| m.dom().contains(key_of(r) as u128),
        |r: Resource| m[key_of(r) as u128]@,
    )
}

/// A lock manager.
pub struct LockManager {
    table: LockTable,
    waits_for: WaitMap,
}

impl View for LockManager {
    type V = LockView;

    closed spec fn view(&self) -> LockView {
        LockView { table: queues(self.table@), waits: graph_of(self.waits_for@) }
    }
}

/// Let go of `txn`'s edges, and of the edges to it.
fn forget(waits: &mut WaitMap, txn: TxnId)
    ensures
        graph_of(final(waits)@) == Map::<TxnId, Set<TxnId>>::new(
            |t: TxnId| old(waits)@.dom().contains(t) && t != txn,
            |t: TxnId| old(waits)@[t]@.remove(txn),
        ),
{
    let ghost before = waits@;
    waits.remove(&txn);
    let keys: Vec<TxnId> = map_keys(waits);
    assert forall|j: int| 0 <= j < keys@.len() implies waits@[#[trigger] keys@[j]]
        == before[keys@[j]] by {
        assert(keys@.contains(keys@[j]));
    }
    let mut k: usize = 0;
    while k < keys.len()
        invariant
            k <= keys@.len(),
            keys@.no_duplicates(),
            forall|t: TxnId| waits@.dom().contains(t) <==> before.dom().contains(t) && t != txn,
            forall|t: TxnId| waits@.dom().contains(t) <==> keys@.contains(t),
            forall|j: int|
                0 <= j < k ==> waits@[#[trigger] keys@[j]]@ == before[keys@[j]]@.remove(txn),
            forall|j: int| k <= j < keys@.len() ==> waits@[#[trigger] keys@[j]] == before[keys@[j]],
        decreases keys.len() - k,
    {
        let t: TxnId = keys[k];
        assert(keys@.contains(t));
        if let Some(edges) = waits.remove(&t) {
            let mut edges: BTreeSet<TxnId> = edges;
            edges.remove(&txn);
            waits.insert(t, edges);
        }
        k = k + 1;
    }
    proof {
        let want = Map::<TxnId, Set<TxnId>>::new(
            |t: TxnId| before.dom().contains(t) && t != txn,
            |t: TxnId| before[t]@.remove(txn),
        );
        assert forall|t: TxnId| want.dom().contains(t) implies #[trigger] graph_of(waits@)[t]
            == want[t] by {
            assert(keys@.contains(t));
            let j = choose|j: int| 0 <= j < keys@.len() && keys@[j] == t;
            assert(waits@[keys@[j]]@ == before[keys@[j]]@.remove(txn));
        }
        assert(graph_of(waits@) =~= want);
    }
}

/// Grant the waiters at the head of the queue that fit, in order.
fn promote_waiters(entry: Entry, waits: &mut WaitMap) -> (r: Entry)
    ensures
        r@ == promoted(entry@),
        graph_of(final(waits)@) == Map::<TxnId, Set<TxnId>>::new(
            |t: TxnId|
                old(waits)@.dom().contains(t) && !claims(
                    entry@.waiting.take(ready(entry@) as int),
                    t,
                ),
            |t: TxnId| old(waits)@[t]@,
        ),
{
    let ghost before = waits@;
    let ghost q = entry@;
    let mut granted: Vec<Claim> = entry.granted;
    let waiting: Vec<Claim> = entry.waiting;
    let n: usize = waiting.len();
    let mut i: usize = 0;
    proof {
        assert(q.granted + q.waiting.take(0) =~= q.granted);
        assert(q.waiting.skip(0) =~= q.waiting);
    }
    while i < n && fits_all(&granted, waiting[i].1)
        invariant
            i <= n,
            n == waiting@.len(),
            waiting@ == q.waiting,
            granted@ == q.granted + q.waiting.take(i as int),
            ready(q) == i + ready(Queue { granted: granted@, waiting: q.waiting.skip(i as int) }),
            forall|t: TxnId| #[trigger]
                waits@.dom().contains(t) <==> before.dom().contains(t) && !claims(
                    q.waiting.take(i as int),
                    t,
                ),
            forall|t: TxnId| waits@.dom().contains(t) ==> waits@[t] == before[t],
        ensures
            i <= n,
            i < n ==> !fits(granted@, waiting@[i as int].1),
        decreases n - i,
    {
        let ghost qi = Queue { granted: granted@, waiting: q.waiting.skip(i as int) };
        let (t, m): (TxnId, Mode) = waiting[i];
        granted.push((t, m));
        let ghost prev = waits@;
        waits.remove(&t);
        assert(waits@ =~= prev.remove(t));
        proof {
            assert(qi.waiting.first() == q.waiting[i as int]);
            assert(qi.waiting.drop_first() =~= q.waiting.skip(i + 1));
            assert(q.waiting.take(i + 1) =~= q.waiting.take(i as int).push((t, m)));
            assert(granted@ =~= q.granted + q.waiting.take(i + 1));
            assert forall|u: TxnId| claims(q.waiting.take(i + 1), u) <==> claims(
                q.waiting.take(i as int),
                u,
            ) || u == t by {
                let a = q.waiting.take(i as int);
                let b = q.waiting.take(i + 1);
                if claims(a, u) {
                    let j = choose|j: int| 0 <= j < a.len() && (#[trigger] a[j]).0 == u;
                    assert(b[j].0 == u);
                }
                if u == t {
                    assert(b[i as int].0 == u);
                }
                if claims(b, u) {
                    let j = choose|j: int| 0 <= j < b.len() && (#[trigger] b[j]).0 == u;
                    if j < i {
                        assert(a[j].0 == u);
                    }
                }
            }
            assert forall|u: TxnId| #[trigger] waits@.dom().contains(u) <==> before.dom().contains(u)
                && !claims(q.waiting.take(i + 1), u) by {
                assert(prev.dom().contains(u) <==> before.dom().contains(u) && !claims(
                    q.waiting.take(i as int),
                    u,
                ));
            }
        }
        i = i + 1;
    }
    proof {
        let qi = Queue { granted: granted@, waiting: q.waiting.skip(i as int) };
        assert(ready(qi) == 0) by {
            if i < n {
                assert(qi.waiting.first() == q.waiting[i as int]);
            }
        }
    }
    let mut rest: Vec<Claim> = Vec::new();
    let mut j: usize = i;
    while j < n
        invariant
            i <= j <= n,
            n == waiting@.len(),
            rest@ == waiting@.subrange(i as int, j as int),
        decreases n - j,
    {
        rest.push(waiting[j]);
        j = j + 1;
    }
    proof {
        assert(rest@ =~= q.waiting.skip(i as int));
        assert(graph_of(waits@) =~= Map::<TxnId, Set<TxnId>>::new(
            |t: TxnId| before.dom().contains(t) && !claims(q.waiting.take(ready(q) as int), t),
            |t: TxnId| before[t]@,
        ));
    }
    Entry { granted, waiting: rest }
}


impl Default for LockManager {
    fn default() -> (m: LockManager)
        ensures
            m.wf(),
            m@.table == Map::<Resource, Queue>::empty(),
            m@.waits == Map::<TxnId, Set<TxnId>>::empty(),
    {
        LockManager::new()
    }
}

impl LockManager {
    /// Every entry stands for a resource.
    pub closed spec fn keys_ok(&self) -> bool {
        forall|k: u128| #[trigger]
            self.table@.dom().contains(k) ==> key_of(resource_of(k as int)) == k
    }

    pub open spec fn wf(&self) -> bool {
        self@.wf() && self.keys_ok()
    }

    pub fn new() -> (m: LockManager)
        ensures
            m.wf(),
            m@.table == Map::<Resource, Queue>::empty(),
            m@.waits == Map::<TxnId, Set<TxnId>>::empty(),
    {
        let m: LockManager = LockManager { table: HashMap::new(), waits_for: HashMap::new() };
        assert(m@.table =~= Map::<Resource, Queue>::empty());
        assert(m@.waits =~= Map::<TxnId, Set<TxnId>>::empty());
        m
    }

    /// The youngest transaction on a cycle that waiting would close, if it would
    /// close one.
    fn would_deadlock(&self, txn: TxnId, wait_on: &BTreeSet<TxnId>) -> (r: Option<TxnId>)
        ensures
            r is Some <==> closes_cycle(self@.waits, txn, wait_on@),
            r matches Some(v) ==> is_victim(self@.waits, txn, wait_on@, v),
    {
        let ghost g = self@.waits;
        let starts: Vec<TxnId> = members(wait_on);
        let mut k: usize = 0;
        while k < starts.len()
            invariant
                g == graph_of(self.waits_for@),
                k <= starts@.len(),
                forall|t: TxnId| wait_on@.contains(t) <==> starts@.contains(t),
                forall|j: int| 0 <= j < k ==> !reaches(g, #[trigger] starts@[j], txn),
            decreases starts.len() - k,
        {
            let b: TxnId = starts[k];
            assert(starts@.contains(b));
            let mut path: Vec<TxnId> = Vec::new();
            if search(&self.waits_for, txn, b, &mut path) {
                let v: TxnId = youngest(txn, &starts, &path);
                proof {
                    let met = path@.to_set();
                    let p = choose|p: Seq<TxnId>|
                        #![trigger leads(g, p, b, txn)]
                        leads(g, p, b, txn) && inside(p, met);
                    assert forall|t: TxnId| met.contains(t) implies reaches(g, b, t) && t <= v by {
                        assert(path@.contains(t));
                        let j = choose|j: int| 0 <= j < path@.len() && path@[j] == t;
                        assert(path@[j] <= v);
                    }
                    assert forall|t: TxnId| wait_on@.contains(t) implies t <= v by {
                        assert(starts@.contains(t));
                        let j = choose|j: int| 0 <= j < starts@.len() && starts@[j] == t;
                        assert(starts@[j] <= v);
                    }
                    assert(youngest_on(g, txn, wait_on@, v, b, met, p));
                }
                return Some(v);
            }
            k = k + 1;
        }
        proof {
            assert forall|t: TxnId| wait_on@.contains(t) implies !reaches(g, t, txn) by {
                assert(starts@.contains(t));
                let j = choose|j: int| 0 <= j < starts@.len() && starts@[j] == t;
                assert(!reaches(g, starts@[j], txn));
            }
        }
        None
    }

    /// Ask for `mode` on `res`. A transaction that holds the resource already is
    /// granted it again as it holds it. Otherwise it is granted if nobody waits
    /// and no holder is in the way, refused if waiting would close a cycle, and
    /// queued if not.
    pub fn lock(&mut self, txn: TxnId, res: Resource, mode: Mode) -> (r: Grant)
        requires
            old(self).wf(),
        ensures
            final(self).wf(),
            match r {
                Grant::Granted => {
                    ||| claims(old(self)@.queue(res).granted, txn) && final(self)@ == old(self)@
                    ||| !claims(old(self)@.queue(res).granted, txn) && old(self)@.free(
                        txn,
                        res,
                        mode,
                    ) && final(self)@ == old(self)@.granted(txn, res, mode)
                },
                Grant::Waiting => {
                    &&& !claims(old(self)@.queue(res).granted, txn)
                    &&& !old(self)@.free(txn, res, mode)
                    &&& !old(self)@.deadlocks(txn, res, mode)
                    &&& final(self)@ == old(self)@.queued(txn, res, mode)
                },
                Grant::Deadlock { victim } => {
                    &&& !claims(old(self)@.queue(res).granted, txn)
                    &&& !old(self)@.free(txn, res, mode)
                    &&& old(self)@.deadlocks(txn, res, mode)
                    &&& is_victim(
                        old(self)@.waits,
                        txn,
                        wait_set(old(self)@.queue(res), txn, mode),
                        victim,
                    )
                    &&& final(self)@ == old(self)@
                },
            },
    {
        let ghost before = self@;
        let ghost q = before.queue(res);
        let k: u128 = key(res);
        proof {
            lemma_key_of(res);
        }
        let mut wait_on: BTreeSet<TxnId> = BTreeSet::new();
        let nobody_waits: bool = match self.table.get(&k) {
            Some(entry) => {
                if is_claimed(&entry.granted, txn) {
                    return Grant::Granted;
                }
                add_blockers(&entry.granted, txn, mode, &mut wait_on);
                entry.waiting.len() == 0
            },
            None => true,
        };
        assert(!claims(q.granted, txn));
        assert(nobody_waits == (q.waiting.len() == 0));
        assert(forall|t: TxnId| wait_on@.contains(t) <==> blocks(q.granted, txn, mode, t));
        if wait_on.is_empty() && nobody_waits {
            let mut granted: Vec<Claim> = Vec::new();
            let mut waiting: Vec<Claim> = Vec::new();
            if let Some(entry) = self.table.remove(&k) {
                granted = entry.granted;
                waiting = entry.waiting;
            }
            granted.push((txn, mode));
            self.table.insert(k, Entry { granted, waiting });
            proof {
                assert forall|t: TxnId| !blocks(q.granted, txn, mode, t) by {
                    assert(!wait_on@.contains(t));
                }
                let after = before.granted(txn, res, mode);
                assert(self@.table =~= after.table) by {
                    lemma_insert_queue(before.table, self.table@, res);
                }
                assert(self@.waits =~= after.waits);
                lemma_grant_keeps_wf(before, txn, res, mode);
            }
            return Grant::Granted;
        }
        if let Some(entry) = self.table.get(&k) {
            add_blockers(&entry.waiting, txn, mode, &mut wait_on);
        }
        proof {
            assert(wait_on@ =~= wait_set(q, txn, mode));
            assert(!before.free(txn, res, mode)) by {
                if nobody_waits {
                    let t = choose|t: TxnId| blocks(q.granted, txn, mode, t);
                }
            }
        }
        if let Some(victim) = self.would_deadlock(txn, &wait_on) {
            return Grant::Deadlock { victim };
        }
        self.wait_for(txn, &wait_on);
        let mut granted: Vec<Claim> = Vec::new();
        let mut waiting: Vec<Claim> = Vec::new();
        if let Some(entry) = self.table.remove(&k) {
            granted = entry.granted;
            waiting = entry.waiting;
        }
        waiting.push((txn, mode));
        self.table.insert(k, Entry { granted, waiting });
        proof {
            let after = before.queued(txn, res, mode);
            assert(self@.table =~= after.table) by {
                lemma_insert_queue(before.table, self.table@, res);
            }
            law_waiting_closes_no_cycle(before.waits, txn, wait_on@);
            assert forall|r: Resource| coexist((#[trigger] after.queue(r)).granted) by {
                assert(coexist(before.queue(r).granted));
            }
        }
        Grant::Waiting
    }

    /// Note that `txn` waits for all of `on`.
    fn wait_for(&mut self, txn: TxnId, on: &BTreeSet<TxnId>)
        ensures
            final(self).table == old(self).table,
            final(self)@.waits == with_edges(old(self)@.waits, txn, on@),
    {
        let ghost before = self@.waits;
        let mut edges: BTreeSet<TxnId> = BTreeSet::new();
        if let Some(e) = self.waits_for.remove(&txn) {
            edges = e;
        }
        let ghost start = edges@;
        let more: Vec<TxnId> = members(on);
        let mut k: usize = 0;
        while k < more.len()
            invariant
                k <= more@.len(),
                forall|t: TxnId| #[trigger]
                    edges@.contains(t) <==> start.contains(t) || exists|j: int|
                        0 <= j < k && #[trigger] more@[j] == t,
            decreases more.len() - k,
        {
            edges.insert(more[k]);
            assert(more@[k as int] == more@[k as int]);
            k = k + 1;
        }
        proof {
            assert(edges@ =~= start.union(on@)) by {
                assert forall|t: TxnId| on@.contains(t) implies edges@.contains(t) by {
                    assert(more@.contains(t));
                }
                assert forall|t: TxnId| edges@.contains(t) implies start.union(on@).contains(t) by {
                    if !start.contains(t) {
                        let j = choose|j: int| 0 <= j < k && #[trigger] more@[j] == t;
                        assert(more@.contains(t));
                    }
                }
            }
        }
        self.waits_for.insert(txn, edges);
        proof {
            let after = with_edges(before, txn, on@);
            if !before.dom().contains(txn) {
                assert(edges@ =~= on@);
            }
            assert(self@.waits =~= after);
        }
    }

    /// Let go of everything `txn` holds or waits for, and grant whoever became
    /// ready.
    pub fn release_all(&mut self, txn: TxnId)
        requires
            old(self).wf(),
        ensures
            final(self).wf(),
            final(self)@ == old(self)@.all_released(txn),
    {
        let ghost before = self@;
        let ghost table0 = self.table@;
        forget(&mut self.waits_for, txn);
        let ghost cut = graph_of(self.waits_for@);
        let keys: Vec<u128> = map_keys(&self.table);
        let mut k: usize = 0;
        proof {
            assert forall|j: int| 0 <= j < keys@.len() implies table0.dom().contains(
                #[trigger] keys@[j],
            ) by {
                assert(keys@.contains(keys@[j]));
            }
            assert(cut =~= cut_by(cut, table0, keys@, 0, txn));
        }
        while k < keys.len()
            invariant
                k <= keys@.len(),
                keys@.no_duplicates(),
                forall|x: u128| table0.dom().contains(x) <==> keys@.contains(x),
                forall|x: u128| #[trigger]
                    self.table@.dom().contains(x) ==> table0.dom().contains(x),
                forall|j: int|
                    k <= j < keys@.len() ==> self.table@.dom().contains(#[trigger] keys@[j])
                        && self.table@[keys@[j]] == table0[keys@[j]],
                forall|j: int|
                    0 <= j < k ==> {
                        let q = released(table0[#[trigger] keys@[j]]@, txn);
                        &&& self.table@.dom().contains(keys@[j]) <==> q != empty_queue()
                        &&& self.table@.dom().contains(keys@[j]) ==> self.table@[keys@[j]]@ == q
                    },
                graph_of(self.waits_for@) == cut_by(cut, table0, keys@, k as int, txn),
            decreases keys.len() - k,
        {
            let x: u128 = keys[k];
            assert(keys@.contains(x));
            let ghost waits0 = self.waits_for@;
            if let Some(entry) = self.table.remove(&x) {
                let ghost q0 = table0[x]@;
                let left: Entry = Entry {
                    granted: without_txn(&entry.granted, txn),
                    waiting: without_txn(&entry.waiting, txn),
                };
                let ghost q = left@;
                let left: Entry = promote_waiters(left, &mut self.waits_for);
                let gone: bool = left.granted.len() == 0 && left.waiting.len() == 0;
                proof {
                    assert(q == dropped(q0, txn));
                    assert(left@ == released(q0, txn));
                    assert(gone == (left@ == empty_queue())) by {
                        if gone {
                            assert(left@ =~= empty_queue());
                        }
                    }
                    assert(graph_of(self.waits_for@) =~= cut_by(
                        cut,
                        table0,
                        keys@,
                        k + 1,
                        txn,
                    )) by {
                        lemma_cut_step(cut, table0, keys@, k as int, txn, graph_of(waits0));
                    }
                }
                if !gone {
                    self.table.insert(x, left);
                }
            }
            k = k + 1;
        }
        proof {
            let after = before.all_released(txn);
            assert(forall|r: Resource| before.table.dom().contains(r) <==> table0.dom().contains(
                key_of(r) as u128,
            ));
            assert forall|r: Resource| self@.table.dom().contains(r) <==> after.table.dom().contains(
                r,
            ) by {
                lemma_key_of(r);
                let x = key_of(r) as u128;
                if table0.dom().contains(x) {
                    assert(keys@.contains(x));
                    let j = choose|j: int| 0 <= j < keys@.len() && keys@[j] == x;
                    assert(table0[keys@[j]]@ == before.table[r]);
                }
            }
            assert forall|r: Resource| self@.table.dom().contains(r) implies #[trigger] self@.table[r]
                == after.table[r] by {
                let x = key_of(r) as u128;
                assert(keys@.contains(x));
                let j = choose|j: int| 0 <= j < keys@.len() && keys@[j] == x;
                assert(table0[keys@[j]]@ == before.table[r]);
            }
            assert(self@.table =~= after.table);
            assert(cut =~= Map::<TxnId, Set<TxnId>>::new(
                |t: TxnId| before.waits.dom().contains(t) && t != txn,
                |t: TxnId| before.waits[t].remove(txn),
            ));
            lemma_cut_all(before, table0, keys@, txn, cut);
            assert(self@.waits =~= after.waits);
            lemma_release_keeps_wf(before, txn);
        }
    }

    /// Who holds `res`, in the order in which they were granted it.
    pub fn holders(&self, res: Resource) -> (r: Vec<(TxnId, Mode)>)
        ensures
            r@ == self@.queue(res).granted,
    {
        proof {
            lemma_key_of(res);
        }
        match self.table.get(&key(res)) {
            Some(entry) => copy_claims(&entry.granted),
            None => Vec::new(),
        }
    }
}

/// Changing the entry of one resource changes its queue alone.
proof fn lemma_insert_queue(before: Map<Resource, Queue>, table: Map<u128, Entry>, res: Resource)
    requires
        table.dom().contains(key_of(res) as u128),
        forall|r: Resource|
            r != res ==> (#[trigger] before.dom().contains(r) <==> table.dom().contains(
                key_of(r) as u128,
            )),
        forall|r: Resource|
            r != res && #[trigger] before.dom().contains(r) ==> before[r] == table[key_of(
                r,
            ) as u128]@,
    ensures
        queues(table) == before.insert(res, table[key_of(res) as u128]@),
{
    assert(queues(table) =~= before.insert(res, table[key_of(res) as u128]@));
}

proof fn lemma_grant_keeps_wf(v: LockView, txn: TxnId, res: Resource, mode: Mode)
    requires
        v.wf(),
        !claims(v.queue(res).granted, txn),
        v.free(txn, res, mode),
    ensures
        v.granted(txn, res, mode).wf(),
{
    let after = v.granted(txn, res, mode);
    assert forall|r: Resource| coexist((#[trigger] after.queue(r)).granted) by {
        assert(coexist(v.queue(r).granted));
        if r == res {
            let cs = v.queue(res).granted;
            let ds = after.queue(res).granted;
            assert forall|i: int, j: int| 0 <= i < j < ds.len() implies compatible_modes(
                (#[trigger] ds[i]).1,
                (#[trigger] ds[j]).1,
            ) by {
                assert(ds[i] == cs[i]);
                if j == cs.len() {
                    assert(cs[i].0 != txn);
                    assert(!blocks(cs, txn, mode, cs[i].0));
                    law_compatibility_is_symmetric(mode, cs[i].1);
                } else {
                    assert(ds[j] == cs[j]);
                }
            }
        }
    }
}

/// The graph without those granted something on the first `n` keys.
spec fn cut_by(
    g: Graph,
    table: Map<u128, Entry>,
    keys: Seq<u128>,
    n: int,
    txn: TxnId,
) -> Graph {
    Map::new(
        |t: TxnId| g.dom().contains(t) && !promoted_on(table, keys, n, txn, t),
        |t: TxnId| g[t],
    )
}

spec fn promoted_at(table: Map<u128, Entry>, x: u128, txn: TxnId, t: TxnId) -> bool {
    let q = dropped(table[x]@, txn);
    claims(q.waiting.take(ready(q) as int), t)
}

spec fn promoted_on(
    table: Map<u128, Entry>,
    keys: Seq<u128>,
    n: int,
    txn: TxnId,
    t: TxnId,
) -> bool {
    exists|j: int| 0 <= j < n && promoted_at(table, #[trigger] keys[j], txn, t)
}

proof fn lemma_cut_step(
    g: Graph,
    table: Map<u128, Entry>,
    keys: Seq<u128>,
    n: int,
    txn: TxnId,
    now: Graph,
)
    requires
        0 <= n < keys.len(),
        now == cut_by(g, table, keys, n, txn),
    ensures
        cut_by(g, table, keys, n + 1, txn) == Map::<TxnId, Set<TxnId>>::new(
            |t: TxnId| now.dom().contains(t) && !promoted_at(table, keys[n], txn, t),
            |t: TxnId| now[t],
        ),
{
    assert forall|t: TxnId| promoted_on(table, keys, n + 1, txn, t) <==> promoted_on(
        table,
        keys,
        n,
        txn,
        t,
    ) || promoted_at(table, keys[n], txn, t) by {
        if promoted_at(table, keys[n], txn, t) {
            assert(promoted_at(table, keys[n], txn, t));
        }
        if promoted_on(table, keys, n + 1, txn, t) {
            let j = choose|j: int| 0 <= j < n + 1 && promoted_at(table, #[trigger] keys[j], txn, t);
        }
    }
    assert(cut_by(g, table, keys, n + 1, txn) =~= Map::<TxnId, Set<TxnId>>::new(
        |t: TxnId| now.dom().contains(t) && !promoted_at(table, keys[n], txn, t),
        |t: TxnId| now[t],
    ));
}

proof fn lemma_cut_all(
    v: LockView,
    table: Map<u128, Entry>,
    keys: Seq<u128>,
    txn: TxnId,
    cut: Graph,
)
    requires
        v.table == queues(table),
        forall|x: u128| table.dom().contains(x) <==> keys.contains(x),
        forall|k: u128| #[trigger]
            table.dom().contains(k) ==> key_of(resource_of(k as int)) == k,
        cut == Map::<TxnId, Set<TxnId>>::new(
            |t: TxnId| v.waits.dom().contains(t) && t != txn,
            |t: TxnId| v.waits[t].remove(txn),
        ),
    ensures
        cut_by(cut, table, keys, keys.len() as int, txn) == v.all_released(txn).waits,
{
    let n = keys.len() as int;
    assert forall|t: TxnId| promoted_on(table, keys, n, txn, t) <==> v.is_promoted(txn, t) by {
        if promoted_on(table, keys, n, txn, t) {
            let j = choose|j: int| 0 <= j < n && promoted_at(table, #[trigger] keys[j], txn, t);
            assert(keys.contains(keys[j]));
            let r = resource_of(keys[j] as int);
            assert(v.table.dom().contains(r));
            assert(v.table[r] == table[keys[j]]@);
        }
        if v.is_promoted(txn, t) {
            let r = choose|r: Resource| #[trigger]
                v.table.dom().contains(r) && ({
                    let q = dropped(v.table[r], txn);
                    claims(q.waiting.take(ready(q) as int), t)
                });
            lemma_key_of(r);
            let x = key_of(r) as u128;
            assert(keys.contains(x));
            let j = choose|j: int| 0 <= j < keys.len() && keys[j] == x;
            assert(promoted_at(table, keys[j], txn, t));
        }
    }
    assert(cut_by(cut, table, keys, n, txn) =~= v.all_released(txn).waits);
}

proof fn lemma_without(cs: Seq<Claim>, txn: TxnId)
    requires
        coexist(cs),
    ensures
        coexist(without(cs, txn)),
        forall|i: int|
            0 <= i < without(cs, txn).len() ==> exists|j: int|
                0 <= j < cs.len() && cs[j] == #[trigger] without(cs, txn)[i],
        !claims(without(cs, txn), txn),
    decreases cs.len(),
{
    if cs.len() > 0 {
        let d = cs.drop_last();
        let w = without(d, txn);
        lemma_without(d, txn);
        assert forall|i: int| 0 <= i < without(cs, txn).len() implies exists|j: int|
            0 <= j < cs.len() && cs[j] == #[trigger] without(cs, txn)[i] by {
            if i < w.len() {
                let j = choose|j: int| 0 <= j < d.len() && d[j] == w[i];
                assert(cs[j] == w[i]);
            } else {
                assert(cs[cs.len() - 1] == without(cs, txn)[i]);
            }
        }
        if cs.last().0 != txn {
            assert forall|i: int, j: int| 0 <= i < j < without(cs, txn).len() implies
                compatible_modes(
                (#[trigger] without(cs, txn)[i]).1,
                (#[trigger] without(cs, txn)[j]).1,
            ) by {
                assert(without(cs, txn)[i] == w[i]);
                if j < w.len() {
                    assert(without(cs, txn)[j] == w[j]);
                } else {
                    let k = choose|k: int| 0 <= k < d.len() && d[k] == w[i];
                    assert(cs[k] == d[k]);
                    assert(cs[cs.len() - 1] == cs.last());
                }
            }
        }
    }
}

proof fn lemma_promoted_coexist(q: Queue)
    requires
        coexist(q.granted),
    ensures
        coexist(promoted(q).granted),
    decreases q.waiting.len(),
{
    if q.waiting.len() > 0 && fits(q.granted, q.waiting.first().1) {
        let c = q.waiting.first();
        let q2 = Queue { granted: q.granted.push(c), waiting: q.waiting.drop_first() };
        assert forall|i: int, j: int| 0 <= i < j < q2.granted.len() implies compatible_modes(
            (#[trigger] q2.granted[i]).1,
            (#[trigger] q2.granted[j]).1,
        ) by {
            assert(q2.granted[i] == q.granted[i]);
            if j == q.granted.len() {
                law_compatibility_is_symmetric(c.1, q.granted[i].1);
            } else {
                assert(q2.granted[j] == q.granted[j]);
            }
        }
        lemma_promoted_coexist(q2);
        lemma_ready(q2);
        let n = ready(q2) as int;
        assert(q.waiting.take(n + 1) =~= seq![c] + q2.waiting.take(n));
        assert(promoted(q).granted =~= promoted(q2).granted);
    } else {
        assert(promoted(q).granted =~= q.granted);
    }
}

proof fn lemma_release_keeps_wf(v: LockView, txn: TxnId)
    requires
        v.wf(),
    ensures
        v.all_released(txn).wf(),
{
    let after = v.all_released(txn);
    assert forall|r: Resource| coexist((#[trigger] after.queue(r)).granted) by {
        assert(coexist(v.queue(r).granted));
        if after.table.dom().contains(r) {
            lemma_without(v.table[r].granted, txn);
            lemma_promoted_coexist(dropped(v.table[r], txn));
        }
    }
    assert forall|a: TxnId, b: TxnId| #[trigger] edge(after.waits, a, b) implies edge(
        v.waits,
        a,
        b,
    ) by {}
    lemma_subgraph_acyclic(after.waits, v.waits);
}

/// After it let go, a transaction holds nothing and waits for nothing, and nobody
/// waits for it.
pub proof fn law_release_leaves_nothing(v: LockView, txn: TxnId, res: Resource, t: TxnId)
    requires
        v.wf(),
    ensures
        !claims(v.all_released(txn).queue(res).granted, txn),
        !claims(v.all_released(txn).queue(res).waiting, txn),
        !edge(v.all_released(txn).waits, txn, t),
        !edge(v.all_released(txn).waits, t, txn),
{
    let after = v.all_released(txn);
    if after.table.dom().contains(res) {
        let q = dropped(v.table[res], txn);
        assert(coexist(v.queue(res).granted));
        lemma_without(v.table[res].granted, txn);
        lemma_without_leaves_none(v.table[res].waiting, txn);
        lemma_ready(q);
        let n = ready(q) as int;
        let p = promoted(q);
        assert forall|i: int| 0 <= i < p.granted.len() implies (#[trigger] p.granted[i]).0
            != txn by {
            if i < q.granted.len() {
                assert(p.granted[i] == q.granted[i]);
            } else {
                assert(p.granted[i] == q.waiting[i - q.granted.len()]);
            }
        }
        assert forall|i: int| 0 <= i < p.waiting.len() implies (#[trigger] p.waiting[i]).0
            != txn by {
            assert(p.waiting[i] == q.waiting[n + i]);
        }
    }
}

proof fn lemma_without_leaves_none(cs: Seq<Claim>, txn: TxnId)
    ensures
        forall|i: int| 0 <= i < without(cs, txn).len() ==> (#[trigger] without(cs, txn)[i]).0 != txn,
    decreases cs.len(),
{
    if cs.len() > 0 {
        let w = without(cs.drop_last(), txn);
        lemma_without_leaves_none(cs.drop_last(), txn);
        assert forall|i: int| 0 <= i < without(cs, txn).len() implies (#[trigger] without(
            cs,
            txn,
        )[i]).0 != txn by {
            if i < w.len() {
                assert(without(cs, txn)[i] == w[i]);
            }
        }
    }
}

/// An exclusive lock excludes: whoever holds `X` is the only holder.
pub proof fn law_exclusive_is_alone(v: LockView, res: Resource, i: int)
    requires
        v.wf(),
        0 <= i < v.queue(res).granted.len(),
        v.queue(res).granted[i].1 == Mode::X,
    ensures
        v.queue(res).granted.len() == 1,
{
    let cs = v.queue(res).granted;
    assert(coexist(v.queue(res).granted));
    if cs.len() > 1 {
        if i == 0 {
            assert(compatible_modes(cs[0].1, cs[1].1));
        } else {
            assert(compatible_modes(cs[0].1, cs[i].1));
        }
    }
}

// ---- what the modes stand for ----

/// What the holder of a mode does with the resource itself, and what it announces for the
/// resources below.
pub ghost struct Meaning {
    pub reads_all: bool,
    pub writes_all: bool,
    pub reads_below: bool,
    pub writes_below: bool,
}

pub open spec fn meaning(m: Mode) -> Meaning {
    match m {
        Mode::IS => Meaning {
            reads_all: false,
            writes_all: false,
            reads_below: true,
            writes_below: false,
        },
        Mode::IX => Meaning {
            reads_all: false,
            writes_all: false,
            reads_below: true,
            writes_below: true,
        },
        Mode::S => Meaning {
            reads_all: true,
            writes_all: false,
            reads_below: false,
            writes_below: false,
        },
        Mode::SIX => Meaning {
            reads_all: true,
            writes_all: false,
            reads_below: true,
            writes_below: true,
        },
        Mode::X => Meaning {
            reads_all: true,
            writes_all: true,
            reads_below: true,
            writes_below: true,
        },
    }
}

/// `a` spoils what `b` does: it writes everything, or it writes, here or below, while `b`
/// reads everything.
pub open spec fn spoils(a: Meaning, b: Meaning) -> bool {
    a.writes_all || a.writes_below && b.reads_all
}

/// Two holders of these modes would spoil one another's work.
pub open spec fn collide(a: Mode, b: Mode) -> bool {
    spoils(meaning(a), meaning(b)) || spoils(meaning(b), meaning(a))
}

/// Two modes go together exactly where neither spoils the other: writing all goes with
/// nothing, reading all with no writer, and what is only announced below goes with whatever
/// else is only announced below.
pub proof fn law_modes_go_together_unless_they_collide(a: Mode, b: Mode)
    ensures
        compatible_modes(a, b) <==> !collide(a, b),
        !meaning(a).reads_all && !meaning(a).writes_all && !meaning(b).reads_all && !meaning(
            b,
        ).writes_all ==> compatible_modes(a, b),
{
}

/// No two holders of a resource spoil one another's work.
pub proof fn law_holders_do_not_collide(v: LockView, res: Resource, i: int, j: int)
    requires
        v.wf(),
        0 <= i < v.queue(res).granted.len(),
        0 <= j < v.queue(res).granted.len(),
        i != j,
    ensures
        !collide(v.queue(res).granted[i].1, v.queue(res).granted[j].1),
{
    let cs = v.queue(res).granted;
    assert(coexist(v.queue(res).granted));
    if i < j {
        assert(compatible_modes(cs[i].1, cs[j].1));
    } else {
        assert(compatible_modes(cs[j].1, cs[i].1));
    }
}

/// A request is granted at once exactly where nobody waits for the resource and it collides
/// with no other holder; else it waits for those, holders and waiters, with whom it
/// collides.
pub proof fn law_requests_wait_for_those_they_collide_with(
    v: LockView,
    txn: TxnId,
    res: Resource,
    mode: Mode,
    t: TxnId,
)
    ensures
        v.free(txn, res, mode) <==> v.queue(res).waiting.len() == 0 && forall|i: int|
            0 <= i < v.queue(res).granted.len() ==> (#[trigger] v.queue(res).granted[i]).0 == txn
                || !collide(mode, v.queue(res).granted[i].1),
        wait_set(v.queue(res), txn, mode).contains(t) <==> t != txn && exists|i: int|
            0 <= i < (v.queue(res).granted + v.queue(res).waiting).len() && (#[trigger] (v.queue(
                res,
            ).granted + v.queue(res).waiting)[i]).0 == t && collide(
                mode,
                (v.queue(res).granted + v.queue(res).waiting)[i].1,
            ),
{
    let g = v.queue(res).granted;
    let w = v.queue(res).waiting;
    let all = g + w;
    if v.free(txn, res, mode) {
        assert forall|i: int| 0 <= i < g.len() implies (#[trigger] g[i]).0 == txn || !collide(
            mode,
            g[i].1,
        ) by {
            assert(!blocks(g, txn, mode, g[i].0));
            law_modes_go_together_unless_they_collide(mode, g[i].1);
        }
    }
    if forall|i: int| 0 <= i < g.len() ==> (#[trigger] g[i]).0 == txn || !collide(mode, g[i].1) {
        assert forall|u: TxnId| !blocks(g, txn, mode, u) by {
            if blocks(g, txn, mode, u) {
                let i = choose|i: int|
                    0 <= i < g.len() && (#[trigger] g[i]).0 == u && !compatible_modes(mode, g[i].1);
                law_modes_go_together_unless_they_collide(mode, g[i].1);
            }
        }
    }
    if blocks(g, txn, mode, t) {
        let i = choose|i: int|
            0 <= i < g.len() && (#[trigger] g[i]).0 == t && !compatible_modes(mode, g[i].1);
        law_modes_go_together_unless_they_collide(mode, g[i].1);
        assert(all[i] == g[i]);
    }
    if blocks(w, txn, mode, t) {
        let i = choose|i: int|
            0 <= i < w.len() && (#[trigger] w[i]).0 == t && !compatible_modes(mode, w[i].1);
        law_modes_go_together_unless_they_collide(mode, w[i].1);
        assert(all[g.len() + i] == w[i]);
    }
    if exists|i: int| 0 <= i < all.len() && (#[trigger] all[i]).0 == t && collide(mode, all[i].1) {
        let i = choose|i: int|
            0 <= i < all.len() && (#[trigger] all[i]).0 == t && collide(mode, all[i].1);
        law_modes_go_together_unless_they_collide(mode, all[i].1);
        if i < g.len() {
            assert(all[i] == g[i]);
        } else {
            assert(all[i] == w[i - g.len()]);
        }
    }
}

/// Claims of others than `txn`.
pub open spec fn of_others(txn: TxnId) -> spec_fn(Claim) -> bool {
    |c: Claim| c.0 != txn
}

proof fn lemma_without_is_filter(cs: Seq<Claim>, txn: TxnId)
    ensures
        without(cs, txn) == cs.filter(of_others(txn)),
    decreases cs.len(),
{
    reveal(Seq::filter);
    if cs.len() > 0 {
        lemma_without_is_filter(cs.drop_last(), txn);
    }
}

/// The waiter behind those that are ready does not fit.
proof fn lemma_ready_is_all(q: Queue)
    ensures
        promoted(q).waiting.len() > 0 ==> !fits(
            promoted(q).granted,
            promoted(q).waiting[0].1,
        ),
        promoted(q).granted + promoted(q).waiting == q.granted + q.waiting,
        q.granted.len() <= promoted(q).granted.len(),
    decreases q.waiting.len(),
{
    lemma_ready(q);
    let n = ready(q) as int;
    assert(promoted(q).granted + promoted(q).waiting =~= q.granted + q.waiting);
    if q.waiting.len() > 0 && fits(q.granted, q.waiting.first().1) {
        let next = Queue {
            granted: q.granted.push(q.waiting.first()),
            waiting: q.waiting.drop_first(),
        };
        lemma_ready_is_all(next);
        lemma_ready(next);
        assert(promoted(next).granted =~= promoted(q).granted);
        assert(promoted(next).waiting =~= promoted(q).waiting);
    } else {
        assert(promoted(q).granted =~= q.granted);
        assert(promoted(q).waiting =~= q.waiting);
    }
}

/// When a transaction lets go, its claims are gone and all others stand as they stood, first
/// come first served: holders stay holders, and waiters become holders from the head of the
/// queue on, up to one that collides with a holder. Nobody is left waiting who could go on.
pub proof fn law_release_serves_the_queue_in_order(v: LockView, txn: TxnId, res: Resource)
    requires
        v.wf(),
    ensures
        ({
            let q = v.queue(res);
            let after = v.all_released(txn).queue(res);
            &&& after.granted + after.waiting == q.granted.filter(of_others(txn))
                + q.waiting.filter(of_others(txn))
            &&& after.granted.len() >= q.granted.filter(of_others(txn)).len()
            &&& after.waiting.len() > 0 ==> exists|i: int|
                0 <= i < after.granted.len() && collide(
                    (#[trigger] after.granted[i]).1,
                    after.waiting[0].1,
                )
        }),
{
    let q = v.queue(res);
    let after = v.all_released(txn).queue(res);
    let d = dropped(q, txn);
    lemma_without_is_filter(q.granted, txn);
    lemma_without_is_filter(q.waiting, txn);
    lemma_ready_is_all(d);
    if !v.table.dom().contains(res) {
        assert(d.granted =~= Seq::empty());
        assert(d.waiting =~= Seq::empty());
        assert(promoted(d).granted =~= Seq::empty());
        assert(promoted(d).waiting =~= Seq::empty());
    }
    assert(after == promoted(d));
    if after.waiting.len() > 0 {
        let m = after.waiting[0].1;
        let i = choose|i: int|
            0 <= i < after.granted.len() && !compatible_modes(m, (#[trigger] after.granted[i]).1);
        law_modes_go_together_unless_they_collide(m, after.granted[i].1);
        assert(collide(after.granted[i].1, m));
    }
}

/// The victim of a deadlock is the youngest there is on it: no younger than the victim is
/// the transaction that asked, any that it would wait for, or any on a way back from one of
/// those to it.
pub proof fn law_victims_are_the_youngest(g: Graph, txn: TxnId, w: Set<TxnId>, v: TxnId)
    requires
        is_victim(g, txn, w, v),
    ensures
        txn <= v,
        forall|t: TxnId| w.contains(t) ==> t <= v,
        exists|p: Seq<TxnId>|
            is_path(g, p) && w.contains(p.first()) && p.last() == txn && forall|i: int|
                0 <= i < p.len() ==> #[trigger] p[i] <= v,
        v == txn || w.contains(v) || exists|b: TxnId| w.contains(b) && reaches(g, b, v),
{
    let (b, met, p) = choose|b: TxnId, met: Set<TxnId>, p: Seq<TxnId>| #[trigger]
        youngest_on(g, txn, w, v, b, met, p);
    assert forall|i: int| 0 <= i < p.len() implies #[trigger] p[i] <= v by {
        if i < p.len() - 1 {
            assert(met.contains(p[i]));
        }
    }
    assert(is_path(g, p) && w.contains(p.first()) && p.last() == txn);
    if met.contains(v) {
        assert(reaches(g, b, v));
    }
}

/// Waiting is refused exactly where it would close a cycle: the graph with the new waits would
/// have one.
pub proof fn law_waiting_is_refused_iff_it_closes_a_cycle(g: Graph, t: TxnId, w: Set<TxnId>)
    requires
        acyclic(g),
    ensures
        closes_cycle(g, t, w) <==> !acyclic(with_edges(g, t, w)),
{
    let h = with_edges(g, t, w);
    if closes_cycle(g, t, w) {
        let b = choose|b: TxnId| w.contains(b) && reaches(g, b, t);
        let p = choose|p: Seq<TxnId>| leads(g, p, b, t);
        assert forall|i: int| 0 <= i < p.len() - 1 implies #[trigger] step_ok(h, p, i) by {
            assert(step_ok(g, p, i));
            assert(edge(g, p[i], p[i + 1]));
        }
        assert(leads(h, p, b, t));
        assert(reaches(h, b, t));
        assert(edge(h, t, b));
    } else {
        law_waiting_closes_no_cycle(g, t, w);
    }
}

/// A request is refused exactly where queueing it would leave transactions that wait for one
/// another in a circle.
pub proof fn law_deadlocks_are_circles(v: LockView, txn: TxnId, res: Resource, mode: Mode)
    requires
        v.wf(),
    ensures
        v.deadlocks(txn, res, mode) <==> !acyclic(v.queued(txn, res, mode).waits),
{
    law_waiting_is_refused_iff_it_closes_a_cycle(
        v.waits,
        txn,
        wait_set(v.queue(res), txn, mode),
    );
}

} // verus!
