//! Ordering and finding rows by keys: a sorted index, first occurrences, groups and
//! a stable sort.
//!
//! A key stands for a value where values are ordered and found again: numbers of
//! every type share one scale, on which equal numbers have one place.

use vstd::prelude::*;
use vstd::utf8::encode_utf8;

use crate::bytes::{
    bytes_lt, law_byte_strings_are_ordered_where_they_part, lemma_lex_irreflexive,
    lemma_lex_total, lemma_lex_transitive, lex_lt, parts_below,
};
use crate::pager::lemma_distinct_below;
use crate::types::text_bytes;

verus! {

#[derive(Debug)]
pub enum OrdKey {
    Null,
    Bool(bool),
    /// A number by its place among all numbers.
    Num(u64),
    Text(String),
}

pub ghost enum KeyView {
    Null,
    Bool(bool),
    Num(u64),
    Text(Seq<u8>),
}

impl View for OrdKey {
    type V = KeyView;

    open spec fn view(&self) -> KeyView {
        match *self {
            OrdKey::Null => KeyView::Null,
            OrdKey::Bool(b) => KeyView::Bool(b),
            OrdKey::Num(n) => KeyView::Num(n),
            OrdKey::Text(s) => KeyView::Text(encode_utf8(s@)),
        }
    }
}

pub open spec fn class(k: KeyView) -> int {
    match k {
        KeyView::Null => 0,
        KeyView::Bool(_) => 1,
        KeyView::Num(_) => 2,
        KeyView::Text(_) => 3,
    }
}

/// The order of keys: null first, `false` before `true`, numbers by place, text by
/// its bytes.
pub open spec fn key_lt(a: KeyView, b: KeyView) -> bool {
    match (a, b) {
        (KeyView::Bool(x), KeyView::Bool(y)) => !x && y,
        (KeyView::Num(x), KeyView::Num(y)) => x < y,
        (KeyView::Text(x), KeyView::Text(y)) => lex_lt(x, y),
        _ => class(a) < class(b),
    }
}

proof fn lemma_key_order(a: KeyView, b: KeyView, c: KeyView)
    ensures
        !key_lt(a, a),
        key_lt(a, b) || key_lt(b, a) || a == b,
        key_lt(a, b) && key_lt(b, c) ==> key_lt(a, c),
        key_lt(a, b) ==> !key_lt(b, a),
{
    if let KeyView::Text(x) = a {
        lemma_lex_irreflexive(x);
        if let KeyView::Text(y) = b {
            lemma_lex_total(x, y);
            if lex_lt(x, y) && lex_lt(y, x) {
                lemma_lex_transitive(x, y, x);
            }
            if let KeyView::Text(z) = c {
                if lex_lt(x, y) && lex_lt(y, z) {
                    lemma_lex_transitive(x, y, z);
                }
            }
        }
    }
}

fn class_of(k: &OrdKey) -> (c: u8)
    ensures
        c == class(k@),
{
    match k {
        OrdKey::Null => 0,
        OrdKey::Bool(_) => 1,
        OrdKey::Num(_) => 2,
        OrdKey::Text(_) => 3,
    }
}

pub fn key_less(a: &OrdKey, b: &OrdKey) -> (r: bool)
    ensures
        r == key_lt(a@, b@),
{
    match (a, b) {
        (OrdKey::Bool(x), OrdKey::Bool(y)) => !*x && *y,
        (OrdKey::Num(x), OrdKey::Num(y)) => *x < *y,
        (OrdKey::Text(x), OrdKey::Text(y)) => bytes_lt(text_bytes(x), text_bytes(y)),
        _ => class_of(a) < class_of(b),
    }
}

pub open spec fn key_views(ks: Seq<OrdKey>) -> Seq<KeyView> {
    ks.map_values(|k: OrdKey| k@)
}

pub open spec fn rows_of(rs: Seq<Vec<OrdKey>>) -> Seq<Seq<KeyView>> {
    rs.map_values(|r: Vec<OrdKey>| key_views(r@))
}

// ---- keys of several columns ----

/// The order of composite keys: by the first column that differs, a prefix first.
pub open spec fn keys_lt(a: Seq<KeyView>, b: Seq<KeyView>) -> bool
    decreases a.len(),
{
    if b.len() == 0 {
        false
    } else if a.len() == 0 {
        true
    } else if a[0] == b[0] {
        keys_lt(a.drop_first(), b.drop_first())
    } else {
        key_lt(a[0], b[0])
    }
}

proof fn lemma_keys_order(a: Seq<KeyView>, b: Seq<KeyView>, c: Seq<KeyView>)
    ensures
        !keys_lt(a, a),
        keys_lt(a, b) || keys_lt(b, a) || a == b,
        keys_lt(a, b) && keys_lt(b, c) ==> keys_lt(a, c),
        keys_lt(a, b) ==> !keys_lt(b, a),
    decreases a.len(),
{
    if a.len() == 0 {
        if b.len() == 0 {
            assert(a =~= b);
        }
    } else if b.len() == 0 {
        lemma_keys_order(a.drop_first(), b, c);
    } else {
        let a1 = a.drop_first();
        let b1 = b.drop_first();
        lemma_keys_order(a1, b1, if c.len() > 0 {
            c.drop_first()
        } else {
            c
        });
        lemma_key_order(a[0], b[0], if c.len() > 0 {
            c[0]
        } else {
            a[0]
        });
        if a[0] == b[0] && a1 == b1 {
            assert(a =~= seq![a[0]] + a1);
            assert(b =~= seq![b[0]] + b1);
        }
        if c.len() > 0 {
            lemma_key_order(b[0], c[0], a[0]);
            lemma_key_order(a[0], c[0], b[0]);
        }
    }
}

proof fn lemma_keys_at(a: Seq<KeyView>, b: Seq<KeyView>, i: int)
    requires
        0 <= i <= a.len(),
        i <= b.len(),
        a.take(i) == b.take(i),
    ensures
        i == b.len() ==> !keys_lt(a, b),
        i == a.len() && i < b.len() ==> keys_lt(a, b),
        i < a.len() && i < b.len() && a[i] != b[i] ==> keys_lt(a, b) == key_lt(a[i], b[i]),
    decreases i,
{
    if i > 0 {
        assert(a[0] == a.take(i)[0] && b[0] == b.take(i)[0]);
        let a1 = a.drop_first();
        let b1 = b.drop_first();
        assert(a1.take(i - 1) =~= a.take(i).drop_first());
        assert(b1.take(i - 1) =~= b.take(i).drop_first());
        lemma_keys_at(a1, b1, i - 1);
        if i < a.len() {
            assert(a1[i - 1] == a[i]);
        }
        if i < b.len() {
            assert(b1[i - 1] == b[i]);
        }
    }
}

pub fn keys_less(a: &Vec<OrdKey>, b: &Vec<OrdKey>) -> (r: bool)
    ensures
        r == keys_lt(key_views(a@), key_views(b@)),
{
    let ghost x = key_views(a@);
    let ghost y = key_views(b@);
    let mut i: usize = 0;
    assert(x.take(0) =~= y.take(0));
    while i < a.len() && i < b.len()
        invariant
            i <= a@.len(),
            i <= b@.len(),
            x == key_views(a@),
            y == key_views(b@),
            x.take(i as int) == y.take(i as int),
        ensures
            i == a@.len() || i == b@.len(),
            i <= a@.len(),
            i <= b@.len(),
            x.take(i as int) == y.take(i as int),
        decreases a@.len() - i,
    {
        proof {
            lemma_keys_at(x, y, i as int);
            lemma_key_order(x[i as int], y[i as int], x[i as int]);
        }
        if key_less(&a[i], &b[i]) {
            return true;
        }
        if key_less(&b[i], &a[i]) {
            return false;
        }
        proof {
            assert(x[i as int] == y[i as int]);
            assert(x.take(i + 1) =~= x.take(i as int).push(x[i as int]));
            assert(y.take(i + 1) =~= y.take(i as int).push(y[i as int]));
        }
        i = i + 1;
    }
    proof {
        lemma_keys_at(x, y, i as int);
    }
    i < b.len()
}

// ---- a sorted index ----

/// Where the rows with each key are.
pub struct KeyIndex {
    pub keys: Vec<Vec<OrdKey>>,
    pub slots: Vec<Vec<usize>>,
}

impl KeyIndex {
    pub open spec fn key(&self, i: int) -> Seq<KeyView> {
        key_views(self.keys@[i]@)
    }

    pub open spec fn wf(&self) -> bool {
        &&& self.keys@.len() == self.slots@.len()
        &&& forall|i: int, j: int|
            0 <= i < j < self.keys@.len() ==> keys_lt(#[trigger] self.key(i), #[trigger] self.key(j))
    }

    /// The index holds exactly the slots that `m` gives for each key.
    pub open spec fn holds(&self, m: spec_fn(Seq<KeyView>) -> Seq<usize>) -> bool {
        &&& self.wf()
        &&& forall|i: int|
            0 <= i < self.keys@.len() ==> (#[trigger] self.slots@[i])@ == m(self.key(i))
        &&& forall|i: int| 0 <= i < self.keys@.len() ==> m(#[trigger] self.key(i)).len() > 0
        &&& forall|k: Seq<KeyView>|
            (#[trigger] m(k)).len() > 0 ==> exists|i: int|
                0 <= i < self.keys@.len() && #[trigger] self.key(i) == k
    }

    fn new() -> (x: KeyIndex)
        ensures
            x.holds(|k: Seq<KeyView>| Seq::<usize>::empty()),
    {
        KeyIndex { keys: Vec::new(), slots: Vec::new() }
    }

    /// Where the key is, or where it would go.
    fn find(&self, k: &Vec<OrdKey>) -> (r: Result<usize, usize>)
        requires
            self.wf(),
        ensures
            match r {
                Ok(i) => i < self.keys@.len() && self.key(i as int) == key_views(k@),
                Err(i) => {
                    &&& i <= self.keys@.len()
                    &&& forall|j: int|
                        0 <= j < i ==> keys_lt(#[trigger] self.key(j), key_views(k@))
                    &&& forall|j: int|
                        i <= j < self.keys@.len() ==> keys_lt(
                            key_views(k@),
                            #[trigger] self.key(j),
                        )
                },
            },
    {
        let ghost kv = key_views(k@);
        let mut lo: usize = 0;
        let mut hi: usize = self.keys.len();
        while lo < hi
            invariant
                self.wf(),
                kv == key_views(k@),
                lo <= hi <= self.keys@.len(),
                forall|j: int| 0 <= j < lo ==> keys_lt(#[trigger] self.key(j), kv),
                forall|j: int| hi <= j < self.keys@.len() ==> keys_lt(kv, #[trigger] self.key(j)),
            decreases hi - lo,
        {
            let mid: usize = lo + (hi - lo) / 2;
            let ghost m = self.key(mid as int);
            if keys_less(&self.keys[mid], k) {
                proof {
                    assert forall|j: int| 0 <= j < mid + 1 implies keys_lt(
                        #[trigger] self.key(j),
                        kv,
                    ) by {
                        if j < mid {
                            assert(keys_lt(self.key(j), self.key(mid as int)));
                            lemma_keys_order(self.key(j), m, kv);
                        }
                    }
                }
                lo = mid + 1;
            } else if keys_less(k, &self.keys[mid]) {
                proof {
                    assert forall|j: int| mid <= j < self.keys@.len() implies keys_lt(
                        kv,
                        #[trigger] self.key(j),
                    ) by {
                        if mid < j {
                            assert(keys_lt(self.key(mid as int), self.key(j)));
                            lemma_keys_order(kv, m, self.key(j));
                        }
                    }
                }
                hi = mid;
            } else {
                proof {
                    lemma_keys_order(m, kv, m);
                }
                return Ok(mid);
            }
        }
        Err(lo)
    }

    /// The slots of a key.
    fn get(&self, k: &Vec<OrdKey>, Ghost(m): Ghost<spec_fn(Seq<KeyView>) -> Seq<usize>>) -> (r:
        Option<usize>)
        requires
            self.holds(m),
        ensures
            match r {
                Some(i) => i < self.slots@.len() && self.slots@[i as int]@ == m(key_views(k@)),
                None => m(key_views(k@)).len() == 0,
            },
    {
        match self.find(k) {
            Ok(i) => Some(i),
            Err(i) => {
                proof {
                    let kv = key_views(k@);
                    if m(kv).len() > 0 {
                        let j = choose|j: int|
                            0 <= j < self.keys@.len() && #[trigger] self.key(j) == kv;
                        lemma_keys_order(kv, kv, kv);
                    }
                }
                None
            },
        }
    }

    /// Put slot `j` behind the slots of key `k`; whether the key is new.
    fn put(
        &mut self,
        k: Vec<OrdKey>,
        j: usize,
        Ghost(m): Ghost<spec_fn(Seq<KeyView>) -> Seq<usize>>,
    ) -> (new: bool)
        requires
            old(self).holds(m),
        ensures
            final(self).holds(with_slot(m, key_views(k@), j)),
            new == (m(key_views(k@)).len() == 0),
    {
        let ghost kv = key_views(k@);
        let ghost a = *self;
        let ghost w = with_slot(m, kv, j);
        match self.find(&k) {
            Ok(i) => {
                let mut v: Vec<usize> = self.slots.remove(i);
                v.push(j);
                self.slots.insert(i, v);
                proof {
                    assert(self.keys == a.keys);
                    assert forall|x: int| 0 <= x < self.keys@.len() implies self.key(x) == a.key(
                        x,
                    ) by {}
                    assert forall|x: int, y: int| 0 <= x < y < self.keys@.len() implies keys_lt(
                        #[trigger] self.key(x),
                        #[trigger] self.key(y),
                    ) by {
                        assert(keys_lt(a.key(x), a.key(y)));
                    }
                    assert forall|x: int| 0 <= x < self.keys@.len() implies (
                    #[trigger] self.slots@[x])@ == w(self.key(x)) by {
                        assert(a.slots@[x]@ == m(a.key(x)));
                        if x != i {
                            assert(a.key(x) != kv) by {
                                if x < i {
                                    assert(keys_lt(a.key(x), a.key(i as int)));
                                } else {
                                    assert(keys_lt(a.key(i as int), a.key(x)));
                                }
                                lemma_keys_order(kv, kv, kv);
                            }
                        }
                    }
                    assert forall|x: int| 0 <= x < self.keys@.len() implies w(
                        #[trigger] self.key(x),
                    ).len() > 0 by {
                        assert(m(a.key(x)).len() > 0);
                    }
                    assert forall|q: Seq<KeyView>| (#[trigger] w(q)).len() > 0 implies exists|
                        x: int,
                    | 0 <= x < self.keys@.len() && #[trigger] self.key(x) == q by {
                        if q == kv {
                            assert(self.key(i as int) == q);
                        } else {
                            assert(m(q).len() > 0);
                            let x = choose|x: int|
                                0 <= x < a.keys@.len() && #[trigger] a.key(x) == q;
                            assert(self.key(x) == q);
                        }
                    }
                }
                false
            },
            Err(i) => {
                proof {
                    if m(kv).len() > 0 {
                        let x = choose|x: int|
                            0 <= x < a.keys@.len() && #[trigger] a.key(x) == kv;
                        lemma_keys_order(kv, kv, kv);
                    }
                }
                let mut v: Vec<usize> = Vec::new();
                v.push(j);
                self.keys.insert(i, k);
                self.slots.insert(i, v);
                proof {
                    let n = self.keys@.len();
                    assert forall|x: int| 0 <= x < n implies #[trigger] self.key(x) == if x < i {
                        a.key(x)
                    } else if x == i {
                        kv
                    } else {
                        a.key(x - 1)
                    } by {}
                    assert forall|x: int, y: int| 0 <= x < y < n implies keys_lt(
                        #[trigger] self.key(x),
                        #[trigger] self.key(y),
                    ) by {
                        if x < i && y < i {
                            assert(keys_lt(a.key(x), a.key(y)));
                        } else if x > i {
                            assert(keys_lt(a.key(x - 1), a.key(y - 1)));
                        } else if x < i && y > i {
                            assert(keys_lt(a.key(x), a.key(y - 1)));
                        } else if x == i {
                            assert(keys_lt(kv, a.key(y - 1)));
                        } else {
                            assert(keys_lt(a.key(x), kv));
                        }
                    }
                    lemma_keys_order(kv, kv, kv);
                    assert forall|x: int| 0 <= x < n implies (#[trigger] self.slots@[x])@ == w(
                        self.key(x),
                    ) by {
                        if x < i {
                            assert(a.slots@[x]@ == m(a.key(x)));
                        } else if x > i {
                            assert(a.slots@[x - 1]@ == m(a.key(x - 1)));
                        } else {
                            assert(self.slots@[x]@ =~= m(kv).push(j));
                        }
                    }
                    assert forall|x: int| 0 <= x < n implies w(#[trigger] self.key(x)).len() > 0 by {
                        if x < i {
                            assert(m(a.key(x)).len() > 0);
                        } else if x > i {
                            assert(m(a.key(x - 1)).len() > 0);
                        }
                    }
                    assert forall|q: Seq<KeyView>| (#[trigger] w(q)).len() > 0 implies exists|
                        x: int,
                    | 0 <= x < n && #[trigger] self.key(x) == q by {
                        if q == kv {
                            assert(self.key(i as int) == q);
                        } else {
                            assert(m(q).len() > 0);
                            let x = choose|x: int|
                                0 <= x < a.keys@.len() && #[trigger] a.key(x) == q;
                            if x < i {
                                assert(self.key(x) == q);
                            } else {
                                assert(self.key(x + 1) == q);
                            }
                        }
                    }
                }
                true
            },
        }
    }
}

/// `m` with slot `j` behind the slots of key `k`.
pub open spec fn with_slot(
    m: spec_fn(Seq<KeyView>) -> Seq<usize>,
    k: Seq<KeyView>,
    j: usize,
) -> spec_fn(Seq<KeyView>) -> Seq<usize> {
    |q: Seq<KeyView>|
        if q == k {
            m(q).push(j)
        } else {
            m(q)
        }
}

// ---- first occurrences and groups ----

/// The rows among the first ones that have key `k`, in order.
pub open spec fn matching(rows: Seq<Seq<KeyView>>, k: Seq<KeyView>) -> Seq<usize>
    decreases rows.len(),
{
    if rows.len() == 0 {
        Seq::empty()
    } else if rows.last() == k {
        matching(rows.drop_last(), k).push((rows.len() - 1) as usize)
    } else {
        matching(rows.drop_last(), k)
    }
}

/// The rows whose key no earlier row has, in order.
pub open spec fn firsts(rows: Seq<Seq<KeyView>>) -> Seq<usize>
    decreases rows.len(),
{
    if rows.len() == 0 {
        Seq::empty()
    } else if matching(rows.drop_last(), rows.last()).len() == 0 {
        firsts(rows.drop_last()).push((rows.len() - 1) as usize)
    } else {
        firsts(rows.drop_last())
    }
}

/// The rows of each key, keys in the order of their first rows.
pub open spec fn groups_of(rows: Seq<Seq<KeyView>>) -> Seq<Seq<usize>> {
    firsts(rows).map_values(|f: usize| matching(rows, rows[f as int]))
}

pub open spec fn slots(rows: Seq<Seq<KeyView>>) -> spec_fn(Seq<KeyView>) -> Seq<usize> {
    |k: Seq<KeyView>| matching(rows, k)
}

pub proof fn lemma_matching(rows: Seq<Seq<KeyView>>, k: Seq<KeyView>)
    requires
        rows.len() <= usize::MAX,
    ensures
        forall|i: int|
            0 <= i < matching(rows, k).len() ==> (#[trigger] matching(rows, k)[i]) < rows.len()
                && rows[matching(rows, k)[i] as int] == k,
        matching(rows, k).len() <= rows.len(),
    decreases rows.len(),
{
    if rows.len() > 0 {
        let init = rows.drop_last();
        lemma_matching(init, k);
        let m = matching(rows, k);
        let n = matching(init, k);
        assert forall|i: int| 0 <= i < m.len() implies (#[trigger] m[i]) < rows.len()
            && rows[m[i] as int] == k by {
            if i < n.len() {
                assert(m[i] == n[i]);
                assert(init[n[i] as int] == rows[n[i] as int]);
            }
        }
    }
}

pub proof fn lemma_firsts(rows: Seq<Seq<KeyView>>)
    requires
        rows.len() <= usize::MAX,
    ensures
        forall|i: int| 0 <= i < firsts(rows).len() ==> (#[trigger] firsts(rows)[i]) < rows.len(),
        firsts(rows).len() <= rows.len(),
    decreases rows.len(),
{
    if rows.len() > 0 {
        lemma_firsts(rows.drop_last());
    }
}

fn copy_key(k: &OrdKey) -> (r: OrdKey)
    ensures
        r@ == k@,
{
    match k {
        OrdKey::Null => OrdKey::Null,
        OrdKey::Bool(b) => OrdKey::Bool(*b),
        OrdKey::Num(n) => OrdKey::Num(*n),
        OrdKey::Text(s) => OrdKey::Text(s.clone()),
    }
}

pub fn copy_keys(ks: &Vec<OrdKey>) -> (r: Vec<OrdKey>)
    ensures
        key_views(r@) == key_views(ks@),
{
    let mut r: Vec<OrdKey> = Vec::new();
    let mut i: usize = 0;
    while i < ks.len()
        invariant
            i <= ks@.len(),
            key_views(r@) == key_views(ks@).take(i as int),
        decreases ks@.len() - i,
    {
        let ghost was = r@;
        let k: OrdKey = copy_key(&ks[i]);
        r.push(k);
        proof {
            assert(key_views(r@) =~= key_views(was).push(k@));
            assert(key_views(ks@).take(i + 1) =~= key_views(ks@).take(i as int).push(
                ks@[i as int]@,
            ));
        }
        i = i + 1;
    }
    assert(key_views(ks@).take(i as int) =~= key_views(ks@));
    r
}

/// Where the rows with each key are, and the rows whose key no earlier row has.
fn index_rows(rows: &Vec<Vec<OrdKey>>) -> (r: (KeyIndex, Vec<usize>))
    ensures
        r.0.holds(slots(rows_of(rows@))),
        r.1@ == firsts(rows_of(rows@)),
{
    let ghost rv = rows_of(rows@);
    let mut index: KeyIndex = KeyIndex::new();
    let mut first: Vec<usize> = Vec::new();
    let mut i: usize = 0;
    proof {
        assert(rv.take(0) =~= Seq::empty());
        assert forall|k: Seq<KeyView>| #[trigger] slots(rv.take(0))(k) =~= Seq::<usize>::empty() by {}
        assert(slots(rv.take(0)) =~= (|k: Seq<KeyView>| Seq::<usize>::empty()));
    }
    while i < rows.len()
        invariant
            i <= rows@.len(),
            rv == rows_of(rows@),
            index.holds(slots(rv.take(i as int))),
            first@ == firsts(rv.take(i as int)),
        decreases rows@.len() - i,
    {
        let ghost a = rv.take(i as int);
        let ghost b = rv.take(i + 1);
        let k: Vec<OrdKey> = copy_keys(&rows[i]);
        let ghost kv = key_views(k@);
        proof {
            assert(b.drop_last() =~= a);
            assert(b.last() == kv);
        }
        let new: bool = index.put(k, i, Ghost(slots(a)));
        proof {
            assert forall|q: Seq<KeyView>| #[trigger] with_slot(slots(a), kv, i)(q) == slots(b)(q) by {}
            assert(with_slot(slots(a), kv, i) =~= slots(b));
        }
        if new {
            first.push(i);
        }
        i = i + 1;
    }
    assert(rv.take(i as int) =~= rv);
    (index, first)
}

/// The rows to keep where rows with equal keys count as one.
pub fn distinct_rows(rows: &Vec<Vec<OrdKey>>) -> (r: Vec<usize>)
    ensures
        r@ == firsts(rows_of(rows@)),
{
    index_rows(rows).1
}

pub open spec fn slot_views(gs: Seq<Vec<usize>>) -> Seq<Seq<usize>> {
    gs.map_values(|g: Vec<usize>| g@)
}

fn copy_slots(v: &Vec<usize>) -> (r: Vec<usize>)
    ensures
        r@ == v@,
{
    let mut r: Vec<usize> = Vec::new();
    let mut i: usize = 0;
    while i < v.len()
        invariant
            i <= v@.len(),
            r@ == v@.take(i as int),
        decreases v@.len() - i,
    {
        r.push(v[i]);
        i = i + 1;
        assert(r@ =~= v@.take(i as int));
    }
    assert(v@.take(i as int) =~= v@);
    r
}

/// The rows of each key, keys in the order of their first rows.
pub fn group_keys(rows: &Vec<Vec<OrdKey>>) -> (r: Vec<Vec<usize>>)
    ensures
        slot_views(r@) == groups_of(rows_of(rows@)),
{
    let ghost rv = rows_of(rows@);
    let (index, first): (KeyIndex, Vec<usize>) = index_rows(rows);
    let ghost f = |x: usize| matching(rv, rv[x as int]);
    let mut out: Vec<Vec<usize>> = Vec::new();
    let mut i: usize = 0;
    let n: usize = rows.len();
    proof {
        lemma_firsts(rv);
        assert(slot_views(out@) =~= first@.take(0).map_values(f));
    }
    while i < first.len()
        invariant
            i <= first@.len(),
            rv == rows_of(rows@),
            f == (|x: usize| matching(rv, rv[x as int])),
            index.holds(slots(rv)),
            first@ == firsts(rv),
            forall|j: int| 0 <= j < first@.len() ==> (#[trigger] first@[j]) < rows@.len(),
            slot_views(out@) == first@.take(i as int).map_values(f),
        decreases first@.len() - i,
    {
        let at: usize = first[i];
        let ghost was = out@;
        let g: Vec<usize> = match index.get(&rows[at], Ghost(slots(rv))) {
            Some(k) => copy_slots(&index.slots[k]),
            None => Vec::new(),
        };
        assert(g@ =~= f(at));
        out.push(g);
        proof {
            assert(slot_views(out@) =~= slot_views(was).push(g@));
            assert(first@.take(i + 1) =~= first@.take(i as int).push(at));
            assert(first@.take(i + 1).map_values(f) =~= first@.take(i as int).map_values(f).push(
                f(at),
            ));
        }
        i = i + 1;
    }
    assert(first@.take(i as int) =~= first@);
    out
}

/// For each key on the left the rows on the right that have it, in order; a key with
/// a null in it has none.
pub open spec fn partners(left: Seq<KeyView>, right: Seq<Seq<KeyView>>) -> Seq<usize> {
    if left.contains(KeyView::Null) {
        Seq::empty()
    } else {
        matching(right, left)
    }
}

fn has_null(ks: &Vec<OrdKey>) -> (r: bool)
    ensures
        r == key_views(ks@).contains(KeyView::Null),
{
    let ghost kv = key_views(ks@);
    let mut i: usize = 0;
    while i < ks.len()
        invariant
            i <= ks@.len(),
            kv == key_views(ks@),
            forall|j: int| 0 <= j < i ==> #[trigger] kv[j] != KeyView::Null,
        decreases ks@.len() - i,
    {
        assert(kv[i as int] == ks@[i as int]@);
        if let OrdKey::Null = &ks[i] {
            assert(kv[i as int] == KeyView::Null);
            return true;
        }
        i = i + 1;
    }
    false
}

pub fn find_partners(left: &Vec<Vec<OrdKey>>, right: &Vec<Vec<OrdKey>>) -> (r: Vec<Vec<usize>>)
    ensures
        slot_views(r@) == rows_of(left@).map_values(
            |k: Seq<KeyView>| partners(k, rows_of(right@)),
        ),
{
    let ghost lv = rows_of(left@);
    let ghost rv = rows_of(right@);
    let ghost f = |k: Seq<KeyView>| partners(k, rv);
    let (index, _first): (KeyIndex, Vec<usize>) = index_rows(right);
    let mut out: Vec<Vec<usize>> = Vec::new();
    let mut i: usize = 0;
    assert(slot_views(out@) =~= lv.map_values(f).take(0));
    while i < left.len()
        invariant
            i <= left@.len(),
            lv == rows_of(left@),
            rv == rows_of(right@),
            f == (|k: Seq<KeyView>| partners(k, rv)),
            index.holds(slots(rv)),
            slot_views(out@) == lv.map_values(f).take(i as int),
        decreases left@.len() - i,
    {
        let ghost was = out@;
        let g: Vec<usize> = if has_null(&left[i]) {
            Vec::new()
        } else {
            match index.get(&left[i], Ghost(slots(rv))) {
                Some(k) => copy_slots(&index.slots[k]),
                None => Vec::new(),
            }
        };
        assert(g@ =~= f(lv[i as int]));
        out.push(g);
        proof {
            assert(slot_views(out@) =~= slot_views(was).push(g@));
            assert(lv.map_values(f).take(i + 1) =~= lv.map_values(f).take(i as int).push(
                f(lv[i as int]),
            ));
        }
        i = i + 1;
    }
    assert(lv.map_values(f).take(i as int) =~= lv.map_values(f));
    out
}

// ---- a stable sort ----

/// `a` comes before `b` by the columns from `c` on: the first that differs decides,
/// downwards where `asc` says so.
pub open spec fn before(a: Seq<KeyView>, b: Seq<KeyView>, asc: Seq<bool>, c: int) -> bool
    decreases asc.len() - c,
{
    if c >= asc.len() {
        false
    } else if a[c] == b[c] {
        before(a, b, asc, c + 1)
    } else if asc[c] {
        key_lt(a[c], b[c])
    } else {
        key_lt(b[c], a[c])
    }
}

proof fn lemma_before(
    x: Seq<KeyView>,
    y: Seq<KeyView>,
    z: Seq<KeyView>,
    asc: Seq<bool>,
    c: int,
)
    ensures
        !before(x, x, asc, c),
        before(x, y, asc, c) && !before(z, y, asc, c) ==> before(x, z, asc, c),
        before(x, y, asc, c) ==> !before(y, x, asc, c),
    decreases asc.len() - c,
{
    if c < asc.len() {
        lemma_before(x, y, z, asc, c + 1);
        lemma_key_order(x[c], y[c], z[c]);
        lemma_key_order(y[c], z[c], x[c]);
        lemma_key_order(z[c], y[c], x[c]);
        lemma_key_order(z[c], x[c], y[c]);
        lemma_key_order(x[c], z[c], y[c]);
        lemma_key_order(y[c], x[c], z[c]);
    }
}

/// Row `i` comes before row `j`: by key, and rows with equal keys as they came.
pub open spec fn precedes(rows: Seq<Seq<KeyView>>, asc: Seq<bool>, i: usize, j: usize) -> bool {
    ||| before(rows[i as int], rows[j as int], asc, 0)
    ||| !before(rows[j as int], rows[i as int], asc, 0) && i < j
}

/// `r` lists every row once, in order.
pub open spec fn sorts(r: Seq<usize>, rows: Seq<Seq<KeyView>>, asc: Seq<bool>) -> bool {
    &&& r.len() == rows.len()
    &&& forall|i: int| 0 <= i < r.len() ==> (#[trigger] r[i]) < rows.len()
    &&& r.no_duplicates()
    &&& forall|i: int, j: int|
        0 <= i < j < r.len() ==> precedes(rows, asc, #[trigger] r[i], #[trigger] r[j])
}

fn comes_before(a: &Vec<OrdKey>, b: &Vec<OrdKey>, asc: &Vec<bool>) -> (r: bool)
    requires
        a@.len() == asc@.len(),
        b@.len() == asc@.len(),
    ensures
        r == before(key_views(a@), key_views(b@), asc@, 0),
{
    let ghost x = key_views(a@);
    let ghost y = key_views(b@);
    let mut c: usize = 0;
    while c < asc.len()
        invariant
            c <= asc@.len(),
            a@.len() == asc@.len(),
            b@.len() == asc@.len(),
            x == key_views(a@),
            y == key_views(b@),
            before(x, y, asc@, 0) == before(x, y, asc@, c as int),
        decreases asc@.len() - c,
    {
        proof {
            lemma_key_order(x[c as int], y[c as int], x[c as int]);
        }
        let lt: bool = key_less(&a[c], &b[c]);
        let gt: bool = key_less(&b[c], &a[c]);
        if lt || gt {
            return if asc[c] {
                lt
            } else {
                gt
            };
        }
        c = c + 1;
    }
    false
}

/// Where row `i` goes among the rows before it, which are in order.
fn place_for(rows: &Vec<Vec<OrdKey>>, asc: &Vec<bool>, order: &Vec<usize>, i: usize) -> (p: usize)
    requires
        i < rows@.len(),
        forall|k: int| 0 <= k < rows@.len() ==> (#[trigger] rows@[k])@.len() == asc@.len(),
        sorts(order@, rows_of(rows@).take(i as int), asc@),
    ensures
        p <= order@.len(),
        forall|q: int|
            0 <= q < p ==> !before(
                rows_of(rows@)[i as int],
                rows_of(rows@)[#[trigger] order@[q] as int],
                asc@,
                0,
            ),
        forall|q: int|
            p <= q < order@.len() ==> before(
                rows_of(rows@)[i as int],
                rows_of(rows@)[#[trigger] order@[q] as int],
                asc@,
                0,
            ),
{
    let ghost rv = rows_of(rows@);
    let ghost x = rv[i as int];
    let mut lo: usize = 0;
    let mut hi: usize = order.len();
    while lo < hi
        invariant
            lo <= hi <= order@.len(),
            i < rows@.len(),
            rv == rows_of(rows@),
            x == rv[i as int],
            forall|k: int| 0 <= k < rows@.len() ==> (#[trigger] rows@[k])@.len() == asc@.len(),
            sorts(order@, rv.take(i as int), asc@),
            forall|q: int|
                0 <= q < lo ==> !before(x, rv[#[trigger] order@[q] as int], asc@, 0),
            forall|q: int|
                hi <= q < order@.len() ==> before(x, rv[#[trigger] order@[q] as int], asc@, 0),
        decreases hi - lo,
    {
        let mid: usize = lo + (hi - lo) / 2;
        let m: usize = order[mid];
        let ghost t = rv.take(i as int);
        assert(order@[mid as int] < t.len());
        if comes_before(&rows[i], &rows[m], asc) {
            proof {
                assert forall|q: int| mid <= q < order@.len() implies before(
                    x,
                    rv[#[trigger] order@[q] as int],
                    asc@,
                    0,
                ) by {
                    if mid < q {
                        assert(precedes(t, asc@, order@[mid as int], order@[q]));
                        assert(order@[q] < t.len());
                        lemma_before(x, rv[m as int], rv[order@[q] as int], asc@, 0);
                        lemma_before(rv[m as int], rv[order@[q] as int], x, asc@, 0);
                    }
                }
            }
            hi = mid;
        } else {
            proof {
                assert forall|q: int| 0 <= q < mid + 1 implies !before(
                    x,
                    rv[#[trigger] order@[q] as int],
                    asc@,
                    0,
                ) by {
                    if q < mid {
                        assert(precedes(t, asc@, order@[q], order@[mid as int]));
                        assert(order@[q] < t.len());
                        lemma_before(x, rv[order@[q] as int], rv[m as int], asc@, 0);
                        lemma_before(rv[order@[q] as int], rv[m as int], x, asc@, 0);
                    }
                }
            }
            lo = mid + 1;
        }
    }
    lo
}

/// The order that sorts the rows, rows with equal keys as they came.
pub fn sort_rows(rows: &Vec<Vec<OrdKey>>, asc: &Vec<bool>) -> (r: Vec<usize>)
    requires
        forall|k: int| 0 <= k < rows@.len() ==> (#[trigger] rows@[k])@.len() == asc@.len(),
    ensures
        sorts(r@, rows_of(rows@), asc@),
{
    let ghost rv = rows_of(rows@);
    let mut order: Vec<usize> = Vec::new();
    let mut i: usize = 0;
    while i < rows.len()
        invariant
            i <= rows@.len(),
            rv == rows_of(rows@),
            forall|k: int| 0 <= k < rows@.len() ==> (#[trigger] rows@[k])@.len() == asc@.len(),
            sorts(order@, rv.take(i as int), asc@),
        decreases rows@.len() - i,
    {
        let p: usize = place_for(rows, asc, &order, i);
        let ghost a = order@;
        order.insert(p, i);
        proof {
            let t = rv.take(i as int);
            let u = rv.take(i + 1);
            let b = order@;
            assert forall|k: int| 0 <= k < b.len() implies (#[trigger] b[k]) < u.len() && (k < p
                ==> b[k] == a[k]) && (k > p ==> b[k] == a[k - 1]) && (k == p ==> b[k] == i) by {
                if k < p {
                    assert(a[k] < t.len());
                } else if k > p {
                    assert(a[k - 1] < t.len());
                }
            }
            assert(b.no_duplicates()) by {
                assert forall|x: int, y: int| 0 <= x < b.len() && 0 <= y < b.len() && x
                    != y implies b[x] != b[y] by {
                    if x != p {
                        let x1 = if x < p {
                            x
                        } else {
                            x - 1
                        };
                        assert(a[x1] < t.len());
                        assert(b[x] == a[x1]);
                    }
                    if y != p {
                        let y1 = if y < p {
                            y
                        } else {
                            y - 1
                        };
                        assert(a[y1] < t.len());
                        assert(b[y] == a[y1]);
                    }
                }
            }
            assert forall|x: int, y: int| 0 <= x < y < b.len() implies precedes(
                u,
                asc@,
                #[trigger] b[x],
                #[trigger] b[y],
            ) by {
                if x != p && y != p {
                    let x1 = if x < p {
                        x
                    } else {
                        x - 1
                    };
                    let y1 = if y < p {
                        y
                    } else {
                        y - 1
                    };
                    assert(precedes(t, asc@, a[x1], a[y1]));
                    assert(a[x1] < t.len() && a[y1] < t.len());
                } else if y == p {
                    assert(a[x] < t.len());
                    assert(!before(rv[i as int], rv[a[x] as int], asc@, 0));
                } else {
                    assert(a[y - 1] < t.len());
                    assert(before(rv[i as int], rv[a[y - 1] as int], asc@, 0));
                }
            }
        }
        i = i + 1;
    }
    assert(rv.take(i as int) =~= rv);
    order
}

// ---- laws ----

/// Keys are in one order: a null is before all else, `false` before `true`, numbers stand by
/// their places and texts by their bytes, and of two different keys one is before the other.
pub proof fn law_keys_are_in_order(a: KeyView, b: KeyView, c: KeyView)
    ensures
        !key_lt(a, KeyView::Null),
        key_lt(KeyView::Null, a) <==> a != KeyView::Null,
        key_lt(KeyView::Bool(false), KeyView::Bool(true)),
        a is Num && b is Num ==> (key_lt(a, b) <==> a->Num_0 < b->Num_0),
        a is Text && b is Text ==> (key_lt(a, b) <==> exists|i: int| #[trigger]
            parts_below(a->Text_0, b->Text_0, i)),
        a is Bool && (b is Num || b is Text) ==> key_lt(a, b),
        a is Num && b is Text ==> key_lt(a, b),
        a != b ==> key_lt(a, b) != key_lt(b, a),
        !key_lt(a, a),
        key_lt(a, b) && key_lt(b, c) ==> key_lt(a, c),
{
    lemma_key_order(a, b, c);
    lemma_key_order(KeyView::Null, a, c);
    if a is Text && b is Text {
        law_byte_strings_are_ordered_where_they_part(a->Text_0, b->Text_0);
    }
}

/// Numbers that go up.
pub open spec fn rising(at: Seq<usize>) -> bool {
    forall|i: int, j: int| 0 <= i < j < at.len() ==> #[trigger] at[i] < #[trigger] at[j]
}

/// The rows with a key are found all, no others, and in their order.
pub proof fn law_every_row_with_the_key_is_found(rows: Seq<Seq<KeyView>>, k: Seq<KeyView>)
    requires
        rows.len() <= usize::MAX,
    ensures
        rising(matching(rows, k)),
        forall|i: int|
            0 <= i < matching(rows, k).len() ==> (#[trigger] matching(rows, k)[i]) < rows.len(),
        forall|r: int|
            0 <= r < rows.len() ==> (#[trigger] matching(rows, k).contains(r as usize) <==> rows[r]
                == k),
    decreases rows.len(),
{
    lemma_matching(rows, k);
    if rows.len() > 0 {
        let init = rows.drop_last();
        law_every_row_with_the_key_is_found(init, k);
        lemma_matching(init, k);
        let m = matching(rows, k);
        let n = matching(init, k);
        let last = rows.len() - 1;
        assert forall|i: int, j: int| 0 <= i < j < m.len() implies #[trigger] m[i] < #[trigger] m[j] by {
            assert(m[i] == n[i]);
            if j < n.len() {
                assert(m[j] == n[j]);
            }
        }
        assert forall|r: int| 0 <= r < rows.len() implies (#[trigger] m.contains(r as usize)
            <==> rows[r] == k) by {
            if r < last {
                assert(init[r] == rows[r]);
                if n.contains(r as usize) {
                    let i = n.index_of(r as usize);
                    assert(m[i] == r as usize);
                }
                if m.contains(r as usize) {
                    let i = m.index_of(r as usize);
                    assert(i < n.len());
                    assert(n[i] == m[i]);
                }
            } else {
                if rows[r] == k {
                    assert(m[n.len() as int] == r as usize);
                }
                if m.contains(r as usize) {
                    let i = m.index_of(r as usize);
                    if i < n.len() {
                        assert(n[i] == m[i]);
                    }
                }
            }
        }
    } else {
        assert(matching(rows, k) =~= Seq::empty());
    }
}

/// Of the rows with equal keys the first is kept, and no other.
pub proof fn law_the_first_of_equal_rows_is_kept(rows: Seq<Seq<KeyView>>)
    requires
        rows.len() <= usize::MAX,
    ensures
        rising(firsts(rows)),
        forall|i: int|
            0 <= i < firsts(rows).len() ==> (#[trigger] firsts(rows)[i]) < rows.len(),
        forall|r: int|
            0 <= r < rows.len() ==> (#[trigger] firsts(rows).contains(r as usize) <==> forall|q: int|
                0 <= q < r ==> rows[q] != rows[r]),
    decreases rows.len(),
{
    lemma_firsts(rows);
    if rows.len() > 0 {
        let init = rows.drop_last();
        let last = rows.len() - 1;
        law_the_first_of_equal_rows_is_kept(init);
        lemma_firsts(init);
        law_every_row_with_the_key_is_found(init, rows.last());
        let m = firsts(rows);
        let n = firsts(init);
        let same = matching(init, rows.last());
        assert forall|i: int, j: int| 0 <= i < j < m.len() implies #[trigger] m[i] < #[trigger] m[j] by {
            assert(m[i] == n[i]);
            if j < n.len() {
                assert(m[j] == n[j]);
            }
        }
        if same.len() > 0 {
            lemma_matching(init, rows.last());
            assert(init[same[0] as int] == rows.last());
            assert(rows[same[0] as int] == rows[last]);
        } else {
            assert forall|q: int| 0 <= q < last implies rows[q] != rows[last] by {
                assert(init[q] == rows[q]);
                assert(!same.contains(q as usize));
            }
        }
        assert forall|r: int| 0 <= r < rows.len() implies (#[trigger] m.contains(r as usize)
            <==> forall|q: int| 0 <= q < r ==> rows[q] != rows[r]) by {
            if r < last {
                assert(init[r] == rows[r]);
                assert(n.contains(r as usize) <==> forall|q: int| 0 <= q < r ==> init[q] != init[r]);
                assert((forall|q: int| 0 <= q < r ==> init[q] != init[r]) <==> (forall|q: int|
                    0 <= q < r ==> rows[q] != rows[r])) by {
                    if forall|q: int| 0 <= q < r ==> init[q] != init[r] {
                        assert forall|q: int| 0 <= q < r implies rows[q] != rows[r] by {
                            assert(init[q] == rows[q]);
                        }
                    }
                    if forall|q: int| 0 <= q < r ==> rows[q] != rows[r] {
                        assert forall|q: int| 0 <= q < r implies init[q] != init[r] by {
                            assert(init[q] == rows[q]);
                        }
                    }
                }
                if n.contains(r as usize) {
                    let i = n.index_of(r as usize);
                    assert(m[i] == r as usize);
                }
                if m.contains(r as usize) {
                    let i = m.index_of(r as usize);
                    assert(i < n.len());
                    assert(n[i] == m[i]);
                }
            } else {
                if same.len() == 0 {
                    assert(m[n.len() as int] == r as usize);
                }
                if m.contains(r as usize) {
                    let i = m.index_of(r as usize);
                    if i < n.len() {
                        assert(n[i] == m[i]);
                    }
                }
            }
        }
    } else {
        assert(firsts(rows) =~= Seq::empty());
    }
}

/// Row `r` is in a group.
pub open spec fn in_some_group(rows: Seq<Seq<KeyView>>, r: int) -> bool {
    exists|x: int|
        0 <= x < groups_of(rows).len() && #[trigger] groups_of(rows)[x].contains(r as usize)
}

/// Every row is in a group, the rows of a group are those with one key, no two groups have
/// the same, and the groups stand in the order of their first rows.
pub proof fn law_groups_part_the_rows_by_key(rows: Seq<Seq<KeyView>>, g: int, h: int)
    requires
        rows.len() <= usize::MAX,
        0 <= g < groups_of(rows).len(),
        0 <= h < groups_of(rows).len(),
    ensures
        groups_of(rows)[g].len() > 0,
        rising(groups_of(rows)[g]),
        forall|i: int|
            0 <= i < groups_of(rows)[g].len() ==> (#[trigger] groups_of(rows)[g][i]) < rows.len(),
        forall|r: int|
            0 <= r < rows.len() ==> (#[trigger] groups_of(rows)[g].contains(r as usize)
                <==> rows[r] == rows[groups_of(rows)[g][0] as int]),
        g < h ==> groups_of(rows)[g][0] < groups_of(rows)[h][0] && rows[groups_of(
            rows,
        )[g][0] as int] != rows[groups_of(rows)[h][0] as int],
        forall|r: int| 0 <= r < rows.len() ==> #[trigger] in_some_group(rows, r),
{
    let fs = firsts(rows);
    let gs = groups_of(rows);
    law_the_first_of_equal_rows_is_kept(rows);
    assert forall|x: int| 0 <= x < gs.len() implies gs[x].len() > 0 && gs[x][0] == fs[x]
        && #[trigger] gs[x] == matching(rows, rows[fs[x] as int]) by {
        let k = rows[fs[x] as int];
        law_every_row_with_the_key_is_found(rows, k);
        let m = matching(rows, k);
        assert(fs.contains(fs[x]));
        assert(m.contains(fs[x] as int as usize));
        let i = m.index_of(fs[x]);
        if i > 0 {
            assert(m[0] < m[i]);
            lemma_matching(rows, k);
            assert(rows[m[0] as int] == k);
        }
    }
    law_every_row_with_the_key_is_found(rows, rows[fs[g] as int]);
    assert(gs[g].len() > 0 && gs[h].len() > 0);
    if g < h {
        assert(fs[g] < fs[h]);
        assert(fs.contains(fs[h]));
        assert(rows[fs[g] as int] != rows[fs[h] as int]);
    }
    assert forall|r: int| 0 <= r < rows.len() implies #[trigger] in_some_group(rows, r) by {
        law_every_row_with_the_key_is_found(rows, rows[r]);
        let m = matching(rows, rows[r]);
        assert(m.contains(r as usize));
        let first = m[0];
        lemma_matching(rows, rows[r]);
        assert(rows[first as int] == rows[r]);
        assert(fs.contains(first as int as usize)) by {
            assert forall|q: int| 0 <= q < first implies rows[q] != rows[first as int] by {
                if rows[q] == rows[first as int] {
                    assert(m.contains(q as usize));
                    let i = m.index_of(q as usize);
                    if i > 0 {
                        assert(m[0] < m[i]);
                    }
                }
            }
        }
        let x = fs.index_of(first);
        assert(gs[x] == matching(rows, rows[fs[x] as int]));
        assert(gs[x].contains(r as usize));
    }
}

/// A key finds its partners: every row on the other side with an equal key and no other, in
/// their order; a key with a null in it finds none.
pub proof fn law_partners_have_equal_keys(left: Seq<KeyView>, right: Seq<Seq<KeyView>>)
    requires
        right.len() <= usize::MAX,
    ensures
        rising(partners(left, right)),
        forall|i: int|
            0 <= i < partners(left, right).len() ==> (#[trigger] partners(left, right)[i])
                < right.len(),
        forall|r: int|
            0 <= r < right.len() ==> (#[trigger] partners(left, right).contains(r as usize)
                <==> right[r] == left && forall|c: int|
                0 <= c < left.len() ==> left[c] != KeyView::Null),
{
    law_every_row_with_the_key_is_found(right, left);
    if left.contains(KeyView::Null) {
        let c = left.index_of(KeyView::Null);
        assert(left[c] == KeyView::Null);
    }
}

/// The columns in which two keys are compared agree up to `c`, and in `c` the first is the
/// one that comes first: the lesser, or the greater where the column goes down.
pub open spec fn goes_first_at(a: Seq<KeyView>, b: Seq<KeyView>, asc: Seq<bool>, c: int) -> bool {
    &&& 0 <= c < asc.len()
    &&& forall|d: int| 0 <= d < c ==> #[trigger] a[d] == b[d]
    &&& if asc[c] {
        key_lt(a[c], b[c])
    } else {
        key_lt(b[c], a[c])
    }
}

proof fn lemma_before_parts(a: Seq<KeyView>, b: Seq<KeyView>, asc: Seq<bool>, c: int)
    requires
        0 <= c <= asc.len(),
        forall|d: int| 0 <= d < c ==> #[trigger] a[d] == b[d],
    ensures
        before(a, b, asc, c) <==> exists|x: int| #[trigger] goes_first_at(a, b, asc, x),
    decreases asc.len() - c,
{
    if c < asc.len() {
        lemma_key_order(a[c], b[c], a[c]);
        if a[c] == b[c] {
            lemma_before_parts(a, b, asc, c + 1);
        } else {
            if before(a, b, asc, c) {
                assert(goes_first_at(a, b, asc, c));
            }
            if exists|x: int| #[trigger] goes_first_at(a, b, asc, x) {
                let x = choose|x: int| #[trigger] goes_first_at(a, b, asc, x);
                if x < c {
                    lemma_key_order(a[x], b[x], a[x]);
                } else if c < x {
                    assert(a[c] == b[c]);
                }
            }
        }
    } else if exists|x: int| #[trigger] goes_first_at(a, b, asc, x) {
        let x = choose|x: int| #[trigger] goes_first_at(a, b, asc, x);
        lemma_key_order(a[x], b[x], a[x]);
    }
}

/// Sorting lists every row once, and of two rows in the list the first column in which they
/// differ puts the earlier one first; rows that agree in all columns stay as they came.
pub proof fn law_sorted_rows_are_in_order(
    r: Seq<usize>,
    rows: Seq<Seq<KeyView>>,
    asc: Seq<bool>,
    i: int,
    j: int,
    k: int,
)
    requires
        sorts(r, rows, asc),
        0 <= i < j < r.len(),
        0 <= k < rows.len() <= usize::MAX,
    ensures
        r.contains(k as usize),
        ({
            let a = rows[r[i] as int];
            let b = rows[r[j] as int];
            ||| exists|c: int| #[trigger] goes_first_at(a, b, asc, c)
            ||| r[i] < r[j] && forall|c: int| 0 <= c < asc.len() ==> #[trigger] a[c] == b[c]
        }),
{
    let a = rows[r[i] as int];
    let b = rows[r[j] as int];
    assert(precedes(rows, asc, r[i], r[j]));
    lemma_before_parts(a, b, asc, 0);
    lemma_before_parts(b, a, asc, 0);
    if !before(a, b, asc, 0) {
        lemma_agree(a, b, asc, 0);
    }
    if !r.contains(k as usize) {
        let ps = r.map_values(|u: usize| u as int).push(k);
        assert forall|x: int, y: int| 0 <= x < y < ps.len() implies ps[x] != ps[y] by {
            assert(ps[x] == r[x] as int);
            if y < r.len() {
                assert(ps[y] == r[y] as int);
            } else {
                assert(r.contains(r[x]));
            }
        }
        lemma_distinct_below(ps, rows.len() as int);
    }
}

proof fn lemma_agree(a: Seq<KeyView>, b: Seq<KeyView>, asc: Seq<bool>, c: int)
    requires
        0 <= c <= asc.len(),
        !before(a, b, asc, c),
        !before(b, a, asc, c),
    ensures
        forall|d: int| c <= d < asc.len() ==> #[trigger] a[d] == b[d],
    decreases asc.len() - c,
{
    if c < asc.len() {
        lemma_key_order(a[c], b[c], a[c]);
        lemma_agree(a, b, asc, c + 1);
    }
}

} // verus!
