//! Transactions over the statement log: what a statement does to the open
//! transaction, what a commit writes, and what recovery runs again.

use vstd::prelude::*;
use vstd::utf8::{encode_utf8, valid_utf8};

use crate::bytes::copy_bytes;
use crate::db::wal::{
    end_from, frame_at, framed, law_appended_record_is_replayed, lemma_frame_fits, records_from, recs, StmtLog,
};
use crate::db::{exec_err, says, DbError};
use crate::types::text_from_utf8;
use crate::vfs::{overwritten, BlockFile, IoError};

verus! {

/// A statement of a transaction.
pub const REC_STMT: u8 = 83;

/// The statements before it are committed.
pub const REC_COMMIT: u8 = 67;

/// A compacted state begins.
pub const REC_SNAP_BEGIN: u8 = 66;

/// A compacted state is complete.
pub const REC_SNAP_END: u8 = 69;

/// What kind of record it is.
pub open spec fn kind(rec: Seq<u8>) -> Option<u8> {
    if rec.len() == 0 {
        None
    } else {
        Some(rec[0])
    }
}

pub open spec fn is_kind(k: u8) -> spec_fn(Seq<u8>) -> bool {
    |rec: Seq<u8>| kind(rec) == Some(k)
}

/// The first record that satisfies `p`, or past the end.
pub open spec fn first_at(rs: Seq<Seq<u8>>, p: spec_fn(Seq<u8>) -> bool) -> int
    decreases rs.len(),
{
    if rs.len() == 0 {
        0
    } else if first_at(rs.drop_last(), p) < rs.len() - 1 {
        first_at(rs.drop_last(), p)
    } else if p(rs.last()) {
        rs.len() - 1
    } else {
        rs.len() as int
    }
}

/// The last record that satisfies `p`, or -1.
pub open spec fn last_at(rs: Seq<Seq<u8>>, p: spec_fn(Seq<u8>) -> bool) -> int
    decreases rs.len(),
{
    if rs.len() == 0 {
        -1
    } else if p(rs.last()) {
        rs.len() - 1
    } else {
        last_at(rs.drop_last(), p)
    }
}

/// The texts of the statement records, in order.
pub open spec fn stmts_in(rs: Seq<Seq<u8>>) -> Seq<Seq<u8>>
    decreases rs.len(),
{
    if rs.len() == 0 {
        Seq::empty()
    } else if kind(rs.last()) == Some(REC_STMT) {
        stmts_in(rs.drop_last()).push(rs.last().skip(1))
    } else {
        stmts_in(rs.drop_last())
    }
}

/// A statement record that holds no text.
pub open spec fn bad_text() -> spec_fn(Seq<u8>) -> bool {
    |rec: Seq<u8>| kind(rec) == Some(REC_STMT) && !valid_utf8(rec.skip(1))
}

/// A record that recovery cannot get past.
pub open spec fn bad_record() -> spec_fn(Seq<u8>) -> bool {
    |rec: Seq<u8>|
        kind(rec) == Some(REC_STMT) && !valid_utf8(rec.skip(1)) || kind(rec) != Some(REC_STMT)
            && kind(rec) != Some(REC_COMMIT) && kind(rec) != Some(REC_SNAP_BEGIN) && kind(rec)
            != Some(REC_SNAP_END)
}

/// The statements that a commit record follows.
pub open spec fn committed(rs: Seq<Seq<u8>>) -> Seq<Seq<u8>> {
    let last = last_at(rs, is_kind(REC_COMMIT));
    if last < 0 {
        Seq::empty()
    } else {
        stmts_in(rs.take(last))
    }
}

/// Where the last complete compacted state ends.
pub open spec fn snap_end(rs: Seq<Seq<u8>>) -> int {
    last_at(rs, is_kind(REC_SNAP_END))
}

/// Where it begins.
pub open spec fn snap_begin(rs: Seq<Seq<u8>>) -> int {
    last_at(rs.take(snap_end(rs)), is_kind(REC_SNAP_BEGIN))
}

/// The records of the last complete compacted state.
pub open spec fn snapshot(rs: Seq<Seq<u8>>) -> Seq<Seq<u8>> {
    if snap_end(rs) < 0 {
        Seq::empty()
    } else {
        rs.subrange(snap_begin(rs) + 1, snap_end(rs))
    }
}

/// The records behind it, up to where another compaction was begun.
pub open spec fn tail(rs: Seq<Seq<u8>>) -> Seq<Seq<u8>> {
    let rest = rs.skip(snap_end(rs) + 1);
    rest.take(first_at(rest, is_kind(REC_SNAP_BEGIN)))
}

/// A compaction ends that never began.
pub open spec fn unbegun(rs: Seq<Seq<u8>>) -> bool {
    snap_end(rs) >= 0 && snap_begin(rs) < 0
}

/// The statements that recovery runs, in order.
pub open spec fn replayed(rs: Seq<Seq<u8>>) -> Seq<Seq<u8>> {
    let snap = snapshot(rs);
    let t = tail(rs);
    if unbegun(rs) {
        Seq::empty()
    } else if first_at(snap, bad_text()) < snap.len() {
        stmts_in(snap.take(first_at(snap, bad_text())))
    } else {
        stmts_in(snap) + committed(t.take(first_at(t, bad_record())))
    }
}

/// What stops recovery behind those statements.
pub open spec fn fault(rs: Seq<Seq<u8>>) -> Option<Seq<char>> {
    let snap = snapshot(rs);
    let t = tail(rs);
    if unbegun(rs) {
        Some("compaction end without begin"@)
    } else if first_at(snap, bad_text()) < snap.len() {
        Some("non-utf8 log record"@)
    } else if first_at(t, bad_record()) < t.len() {
        if kind(t[first_at(t, bad_record())]) == Some(REC_STMT) {
            Some("non-utf8 log record"@)
        } else {
            Some("unknown log record kind"@)
        }
    } else {
        None
    }
}

/// The bytes of texts.
pub open spec fn texts(v: Seq<String>) -> Seq<Seq<u8>> {
    v.map_values(|s: String| encode_utf8(s@))
}

/// What recovery has to run, and what stops it behind that.
pub struct Replay {
    pub stmts: Vec<String>,
    pub error: Option<DbError>,
}

proof fn lemma_last_at(rs: Seq<Seq<u8>>, p: spec_fn(Seq<u8>) -> bool)
    ensures
        -1 <= last_at(rs, p) < rs.len(),
        last_at(rs, p) >= 0 ==> p(rs[last_at(rs, p)]),
        forall|i: int| last_at(rs, p) < i < rs.len() ==> !p(#[trigger] rs[i]),
    decreases rs.len(),
{
    if rs.len() > 0 && !p(rs.last()) {
        let init = rs.drop_last();
        lemma_last_at(init, p);
        assert forall|i: int| last_at(rs, p) < i < rs.len() implies !p(#[trigger] rs[i]) by {
            if i < init.len() {
                assert(init[i] == rs[i]);
            }
        }
    }
}

proof fn lemma_first_at(rs: Seq<Seq<u8>>, p: spec_fn(Seq<u8>) -> bool)
    ensures
        0 <= first_at(rs, p) <= rs.len(),
        first_at(rs, p) < rs.len() ==> p(rs[first_at(rs, p)]),
        forall|i: int| 0 <= i < first_at(rs, p) ==> !p(#[trigger] rs[i]),
    decreases rs.len(),
{
    if rs.len() > 0 {
        let init = rs.drop_last();
        lemma_first_at(init, p);
        assert forall|i: int| 0 <= i < first_at(rs, p) implies !p(#[trigger] rs[i]) by {
            if i < init.len() {
                assert(init[i] == rs[i]);
            }
        }
    }
}

/// Only one position is the first.
proof fn lemma_first_is(rs: Seq<Seq<u8>>, p: spec_fn(Seq<u8>) -> bool, i: int)
    requires
        0 <= i <= rs.len(),
        forall|j: int| 0 <= j < i ==> !p(#[trigger] rs[j]),
        i < rs.len() ==> p(rs[i]),
    ensures
        first_at(rs, p) == i,
{
    lemma_first_at(rs, p);
    if first_at(rs, p) < i {
        assert(!p(rs[first_at(rs, p)]));
    } else if i < first_at(rs, p) {
        assert(!p(rs[i]));
    }
}

proof fn lemma_last_is(rs: Seq<Seq<u8>>, p: spec_fn(Seq<u8>) -> bool, i: int)
    requires
        -1 <= i < rs.len(),
        i >= 0 ==> p(rs[i]),
        forall|j: int| i < j < rs.len() ==> !p(#[trigger] rs[j]),
    ensures
        last_at(rs, p) == i,
{
    lemma_last_at(rs, p);
    if i < last_at(rs, p) {
        assert(!p(rs[last_at(rs, p)]));
    } else if last_at(rs, p) < i {
        assert(!p(rs[i]));
    }
}

fn kind_is(rec: &Vec<u8>, k: u8) -> (r: bool)
    ensures
        r == (kind(rec@) == Some(k)),
{
    rec.len() > 0 && rec[0] == k
}

/// The last record of a kind before `upto`.
fn rposition(records: &Vec<Vec<u8>>, upto: usize, k: u8) -> (r: Option<usize>)
    requires
        upto <= records@.len(),
    ensures
        match r {
            Some(i) => i < upto && i == last_at(recs(records@).take(upto as int), is_kind(k)),
            None => last_at(recs(records@).take(upto as int), is_kind(k)) == -1,
        },
{
    let ghost rs = recs(records@).take(upto as int);
    let mut i: usize = upto;
    while i > 0
        invariant
            i <= upto <= records@.len(),
            rs == recs(records@).take(upto as int),
            forall|j: int| i <= j < upto ==> !is_kind(k)(#[trigger] rs[j]),
        decreases i,
    {
        i = i - 1;
        assert(rs[i as int] == records@[i as int]@);
        if kind_is(&records[i], k) {
            proof {
                lemma_last_is(rs, is_kind(k), i as int);
            }
            return Some(i);
        }
    }
    proof {
        lemma_last_is(rs, is_kind(k), -1);
    }
    None
}

/// The first record of a kind from `from` on, or past the end.
fn position(records: &Vec<Vec<u8>>, from: usize, k: u8) -> (r: usize)
    requires
        from <= records@.len(),
    ensures
        r == from + first_at(recs(records@).skip(from as int), is_kind(k)),
        from <= r <= records@.len(),
{
    let ghost rs = recs(records@).skip(from as int);
    let mut i: usize = from;
    while i < records.len()
        invariant
            from <= i <= records@.len(),
            rs == recs(records@).skip(from as int),
            forall|j: int| 0 <= j < i - from ==> !is_kind(k)(#[trigger] rs[j]),
        decreases records@.len() - i,
    {
        assert(rs[i - from] == records@[i as int]@);
        if kind_is(&records[i], k) {
            proof {
                lemma_first_is(rs, is_kind(k), i - from);
            }
            return i;
        }
        i = i + 1;
    }
    proof {
        lemma_first_is(rs, is_kind(k), i - from);
    }
    i
}

/// The text of a statement record.
fn sql_of(rec: &Vec<u8>) -> (r: Option<String>)
    requires
        rec@.len() > 0,
    ensures
        r is Some <==> valid_utf8(rec@.skip(1)),
        r matches Some(s) ==> encode_utf8(s@) == rec@.skip(1),
{
    let n: usize = rec.len();
    let body: Vec<u8> = copy_bytes(&rec.as_slice()[1..n]);
    assert(body@ =~= rec@.skip(1));
    text_from_utf8(body)
}

proof fn lemma_texts_push(v: Seq<String>, s: String)
    ensures
        texts(v.push(s)) == texts(v).push(encode_utf8(s@)),
{
    assert(texts(v.push(s)) =~= texts(v).push(encode_utf8(s@)));
}

proof fn lemma_stmts_add(a: Seq<Seq<u8>>, b: Seq<Seq<u8>>)
    ensures
        stmts_in(a + b) == stmts_in(a) + stmts_in(b),
    decreases b.len(),
{
    if b.len() == 0 {
        assert(a + b =~= a);
        assert(stmts_in(a) + stmts_in(b) =~= stmts_in(a));
    } else {
        assert((a + b).drop_last() =~= a + b.drop_last());
        lemma_stmts_add(a, b.drop_last());
        assert(stmts_in(a + b) =~= stmts_in(a) + stmts_in(b));
    }
}

/// The statements of a compacted state.
fn snapshot_stmts(records: &Vec<Vec<u8>>, from: usize, to: usize) -> (r: Replay)
    requires
        from <= to <= records@.len(),
    ensures
        ({
            let snap = recs(records@).subrange(from as int, to as int);
            let bad = first_at(snap, bad_text());
            &&& texts(r.stmts@) == stmts_in(snap.take(bad))
            &&& r.error is None <==> bad == snap.len()
            &&& r.error matches Some(e) ==> says(e, "non-utf8 log record"@)
        }),
{
    let ghost snap = recs(records@).subrange(from as int, to as int);
    let mut stmts: Vec<String> = Vec::new();
    let mut i: usize = from;
    assert(texts(stmts@) =~= stmts_in(snap.take(0)));
    while i < to
        invariant
            from <= i <= to <= records@.len(),
            snap == recs(records@).subrange(from as int, to as int),
            texts(stmts@) == stmts_in(snap.take(i - from)),
            forall|j: int| 0 <= j < i - from ==> !bad_text()(#[trigger] snap[j]),
        decreases to - i,
    {
        let ghost a = snap.take(i - from);
        let ghost b = snap.take(i - from + 1);
        proof {
            assert(b.drop_last() =~= a);
            assert(b.last() == records@[i as int]@);
            assert(snap[i - from] == records@[i as int]@);
        }
        if kind_is(&records[i], REC_STMT) {
            match sql_of(&records[i]) {
                Some(sql) => {
                    proof {
                        lemma_texts_push(stmts@, sql);
                    }
                    stmts.push(sql);
                },
                None => {
                    proof {
                        lemma_first_is(snap, bad_text(), i - from);
                    }
                    return Replay {
                        stmts,
                        error: Some(DbError::Exec("non-utf8 log record".to_owned())),
                    };
                },
            }
        }
        i = i + 1;
    }
    proof {
        lemma_first_is(snap, bad_text(), i - from);
    }
    Replay { stmts, error: None }
}

/// The committed statements among `records[from..to]`, put behind `done`.
fn tail_stmts(records: &Vec<Vec<u8>>, from: usize, to: usize, done: Vec<String>) -> (r: Replay)
    requires
        from <= to <= records@.len(),
    ensures
        ({
            let t = recs(records@).subrange(from as int, to as int);
            let bad = first_at(t, bad_record());
            &&& texts(r.stmts@) == texts(done@) + committed(t.take(bad))
            &&& r.error is None <==> bad == t.len()
            &&& r.error matches Some(e) ==> says(
                e,
                if kind(t[bad]) == Some(REC_STMT) {
                    "non-utf8 log record"@
                } else {
                    "unknown log record kind"@
                },
            )
        }),
{
    let ghost t = recs(records@).subrange(from as int, to as int);
    let ghost base = texts(done@);
    let mut stmts: Vec<String> = done;
    let mut pending: Vec<String> = Vec::new();
    let mut i: usize = from;
    proof {
        let c = is_kind(REC_COMMIT);
        assert(t.take(0) =~= Seq::empty());
        assert(last_at(t.take(0), c) == -1);
        assert(base + committed(t.take(0)) =~= base);
        assert(committed(t.take(0)) + texts(pending@) =~= stmts_in(t.take(0)));
    }
    while i < to
        invariant
            from <= i <= to <= records@.len(),
            t == recs(records@).subrange(from as int, to as int),
            base == texts(done@),
            texts(stmts@) == base + committed(t.take(i - from)),
            committed(t.take(i - from)) + texts(pending@) == stmts_in(t.take(i - from)),
            forall|j: int| 0 <= j < i - from ==> !bad_record()(#[trigger] t[j]),
        decreases to - i,
    {
        let ghost a = t.take(i - from);
        let ghost b = t.take(i - from + 1);
        let ghost c = is_kind(REC_COMMIT);
        proof {
            assert(b.drop_last() =~= a);
            assert(b.last() == records@[i as int]@);
            assert(t[i - from] == records@[i as int]@);
            lemma_last_at(a, c);
            if !c(b.last()) {
                assert(last_at(b, c) == last_at(a, c));
                if last_at(a, c) >= 0 {
                    assert(b.take(last_at(a, c)) =~= a.take(last_at(a, c)));
                }
                assert(committed(b) == committed(a));
            } else {
                assert(b.take(last_at(b, c)) =~= a);
                assert(committed(b) == stmts_in(a));
            }
        }
        if kind_is(&records[i], REC_STMT) {
            match sql_of(&records[i]) {
                Some(sql) => {
                    proof {
                        lemma_texts_push(pending@, sql);
                        assert(committed(a) + texts(pending@).push(encode_utf8(sql@)) =~= (committed(a)
                            + texts(pending@)).push(encode_utf8(sql@)));
                    }
                    pending.push(sql);
                },
                None => {
                    proof {
                        lemma_first_is(t, bad_record(), i - from);
                    }
                    return Replay {
                        stmts,
                        error: Some(DbError::Exec("non-utf8 log record".to_owned())),
                    };
                },
            }
        } else if kind_is(&records[i], REC_COMMIT) {
            let ghost s0 = stmts@;
            let ghost p0 = pending@;
            stmts.append(&mut pending);
            proof {
                assert(texts(s0 + p0) =~= texts(s0) + texts(p0));
                assert(base + committed(a) + texts(p0) =~= base + (committed(a) + texts(p0)));
                assert(committed(b) + texts(pending@) =~= committed(b));
            }
        } else if kind_is(&records[i], REC_SNAP_BEGIN) || kind_is(&records[i], REC_SNAP_END) {
        } else {
            proof {
                lemma_first_is(t, bad_record(), i - from);
            }
            return Replay {
                stmts,
                error: Some(DbError::Exec("unknown log record kind".to_owned())),
            };
        }
        i = i + 1;
    }
    proof {
        lemma_first_is(t, bad_record(), i - from);
    }
    Replay { stmts, error: None }
}

/// What recovery has to run again: the last complete compacted state, then what was
/// committed behind it. The statements are to be run in order; `error` comes behind
/// the last of them.
pub fn recover(records: &Vec<Vec<u8>>) -> (r: Replay)
    ensures
        texts(r.stmts@) == replayed(recs(records@)),
        r.error is None <==> fault(recs(records@)) is None,
        r.error matches Some(e) ==> says(e, fault(recs(records@))->0),
{
    let ghost rs = recs(records@);
    let n: usize = records.len();
    proof {
        assert(rs.take(n as int) =~= rs);
        lemma_last_at(rs, is_kind(REC_SNAP_END));
    }
    let last_end: Option<usize> = rposition(records, n, REC_SNAP_END);
    let mut stmts: Vec<String> = Vec::new();
    let mut tail_start: usize = 0;
    assert(texts(stmts@) =~= Seq::empty());
    match last_end {
        Some(end) => {
            proof {
                lemma_last_at(rs.take(end as int), is_kind(REC_SNAP_BEGIN));
            }
            let begin: usize = match rposition(records, end, REC_SNAP_BEGIN) {
                Some(b) => b,
                None => {
                    return Replay {
                        stmts,
                        error: Some(DbError::Exec("compaction end without begin".to_owned())),
                    };
                },
            };
            let part: Replay = snapshot_stmts(records, begin + 1, end);
            if part.error.is_some() {
                proof {
                    lemma_first_at(snapshot(rs), bad_text());
                }
                return part;
            }
            stmts = part.stmts;
            tail_start = end + 1;
            proof {
                let snap = snapshot(rs);
                assert(snap.take(snap.len() as int) =~= snap);
            }
        },
        None => {
            proof {
                assert(snapshot(rs) =~= Seq::empty());
                assert(stmts_in(snapshot(rs)) =~= Seq::empty());
            }
        },
    }
    let tail_stop: usize = position(records, tail_start, REC_SNAP_BEGIN);
    proof {
        let rest = rs.skip(tail_start as int);
        lemma_first_at(rest, is_kind(REC_SNAP_BEGIN));
        assert(rs.subrange(tail_start as int, tail_stop as int) =~= tail(rs));
        lemma_first_at(tail(rs), bad_record());
    }
    tail_stmts(records, tail_start, tail_stop, stmts)
}

/// A statement as it is logged.
pub open spec fn logged(text: Seq<u8>) -> Seq<u8> {
    seq![REC_STMT] + text
}

pub fn stmt_record(sql: &str) -> (r: Vec<u8>)
    ensures
        r@ == logged(encode_utf8(sql@)),
{
    let mut r: Vec<u8> = Vec::new();
    r.push(REC_STMT);
    r.extend_from_slice(sql.as_bytes());
    assert(r@ =~= logged(encode_utf8(sql@)));
    r
}

/// The records that commit statements.
pub open spec fn batch(stmts: Seq<Seq<u8>>) -> Seq<Seq<u8>> {
    stmts.map_values(|t: Seq<u8>| logged(t)).push(seq![REC_COMMIT])
}

/// The records that hold a compacted state.
pub open spec fn compaction(script: Seq<Seq<u8>>) -> Seq<Seq<u8>> {
    seq![seq![REC_SNAP_BEGIN]] + script.map_values(|t: Seq<u8>| logged(t)).push(
        seq![REC_SNAP_END],
    )
}

fn logged_all(stmts: &Vec<String>, first: Option<u8>, last: u8) -> (r: Vec<Vec<u8>>)
    ensures
        recs(r@) == (match first {
            Some(k) => seq![seq![k]],
            None => Seq::empty(),
        }) + texts(stmts@).map_values(|t: Seq<u8>| logged(t)).push(seq![last]),
{
    let ghost f = |t: Seq<u8>| logged(t);
    let ghost head: Seq<Seq<u8>> = match first {
        Some(k) => seq![seq![k]],
        None => Seq::empty(),
    };
    let ghost all = texts(stmts@).map_values(f);
    let mut r: Vec<Vec<u8>> = Vec::new();
    if let Some(k) = first {
        let one: Vec<u8> = vec![k];
        assert(one@ =~= seq![k]);
        r.push(one);
    }
    assert(recs(r@) =~= head + all.take(0));
    let mut i: usize = 0;
    while i < stmts.len()
        invariant
            i <= stmts@.len(),
            f == (|t: Seq<u8>| logged(t)),
            all == texts(stmts@).map_values(f),
            recs(r@) == head + all.take(i as int),
        decreases stmts@.len() - i,
    {
        let ghost was = r@;
        let rec: Vec<u8> = stmt_record(stmts[i].as_str());
        r.push(rec);
        proof {
            assert(all[i as int] == rec@);
            assert(recs(r@) =~= recs(was).push(rec@));
            assert(all.take(i + 1) =~= all.take(i as int).push(rec@));
            assert(head + all.take(i + 1) =~= (head + all.take(i as int)).push(rec@));
        }
        i = i + 1;
    }
    let ghost was = r@;
    r.push(vec![last]);
    proof {
        assert(all.take(i as int) =~= all);
        assert(r@.last()@ =~= seq![last]);
        assert(recs(r@) =~= recs(was).push(seq![last]));
        assert((head + all).push(seq![last]) =~= head + all.push(seq![last]));
    }
    r
}

/// The records that commit `stmts`.
pub fn batch_records(stmts: &Vec<String>) -> (r: Vec<Vec<u8>>)
    ensures
        recs(r@) == batch(texts(stmts@)),
{
    let r: Vec<Vec<u8>> = logged_all(stmts, None, REC_COMMIT);
    assert(recs(r@) =~= batch(texts(stmts@)));
    r
}

/// The records that hold the compacted state `script` builds.
pub fn compaction_records(script: &Vec<String>) -> (r: Vec<Vec<u8>>)
    ensures
        recs(r@) == compaction(texts(script@)),
{
    logged_all(script, Some(REC_SNAP_BEGIN), REC_SNAP_END)
}

// ---- statements and the open transaction ----

/// What a statement is, as far as transactions care.
#[derive(Clone, Copy, Debug, PartialEq, Eq, Structural)]
pub enum StmtKind {
    CreateTable,
    CreateIndex,
    Insert,
    Delete,
    Update,
    DropTable,
    DropIndex,
    Select,
    Begin,
    Commit,
    Rollback,
}

pub open spec fn mutates(k: StmtKind) -> bool {
    !(k is Select || k is Begin || k is Commit || k is Rollback)
}

pub fn is_mutating(k: StmtKind) -> (r: bool)
    ensures
        r == mutates(k),
{
    match k {
        StmtKind::CreateTable | StmtKind::CreateIndex | StmtKind::Insert | StmtKind::Delete
        | StmtKind::Update | StmtKind::DropTable | StmtKind::DropIndex => true,
        _ => false,
    }
}

/// What is to be done for a statement.
pub enum Action {
    /// Nothing more.
    Nothing,
    /// Run the statement against what is stored.
    Dispatch,
    /// Log and run these statements as one batch.
    Batch(Vec<String>),
    /// Answer the query over what is stored with these statements run on top.
    Overlay(Vec<String>),
}

/// The transaction state of a connection.
pub struct Session {
    /// Statements go through the log.
    pub logged: bool,
    /// The statements of the open transaction.
    pub txn: Option<Vec<String>>,
}

/// The statements of a transaction, as texts.
pub open spec fn held(txn: Option<Vec<String>>) -> Option<Seq<Seq<char>>> {
    match txn {
        Some(v) => Some(words(v@)),
        None => None,
    }
}

pub open spec fn words(v: Seq<String>) -> Seq<Seq<char>> {
    v.map_values(|s: String| s@)
}

/// The answer is to log and run `stmts` as one batch.
pub open spec fn runs_batch(r: Result<Action, DbError>, stmts: Seq<Seq<char>>) -> bool {
    r matches Ok(Action::Batch(v)) && words(v@) == stmts
}

fn copy_texts(v: &Vec<String>) -> (r: Vec<String>)
    ensures
        words(r@) == words(v@),
{
    let mut r: Vec<String> = Vec::new();
    let mut i: usize = 0;
    while i < v.len()
        invariant
            i <= v@.len(),
            words(r@) == words(v@).take(i as int),
        decreases v@.len() - i,
    {
        let ghost was = r@;
        let s: String = v[i].clone();
        r.push(s);
        proof {
            assert(words(r@) =~= words(was).push(s@));
            assert(words(v@).take(i + 1) =~= words(v@).take(i as int).push(v@[i as int]@));
        }
        i = i + 1;
    }
    assert(words(v@).take(i as int) =~= words(v@));
    r
}

impl Session {
    /// What a statement of kind `kind` asks for, and what becomes of the open transaction.
    pub open spec fn turned(
        &self,
        before: &Session,
        kind: StmtKind,
        sql: Seq<char>,
        r: Result<Action, DbError>,
    ) -> bool {
        let open = held(before.txn);
        let after = held(self.txn);
        &&& self.logged == before.logged
        &&& if !before.logged {
            after == open && r == Ok::<_, DbError>(Action::Dispatch)
        } else {
            match kind {
                StmtKind::Begin => {
                    if open is Some {
                        after == open && r is Err && says(
                            r->Err_0,
                            "a transaction is already open"@,
                        )
                    } else {
                        after == Some(Seq::<Seq<char>>::empty()) && r == Ok::<_, DbError>(
                            Action::Nothing,
                        )
                    }
                },
                StmtKind::Commit => after is None && match open {
                    Some(stmts) => runs_batch(r, stmts),
                    None => r == Ok::<_, DbError>(Action::Nothing),
                },
                StmtKind::Rollback => after is None && r == Ok::<_, DbError>(Action::Nothing),
                StmtKind::Select => after == open && match open {
                    Some(stmts) => r matches Ok(Action::Overlay(v)) && words(v@) == stmts,
                    None => r == Ok::<_, DbError>(Action::Dispatch),
                },
                _ => match open {
                    Some(stmts) => after == Some(stmts.push(sql)) && r == Ok::<_, DbError>(
                        Action::Nothing,
                    ),
                    None => after is None && runs_batch(r, seq![sql]),
                },
            }
        }
    }

    pub fn new(logged: bool) -> (s: Session)
        ensures
            s.logged == logged,
            s.txn is None,
    {
        Session { logged, txn: None }
    }

    /// What statement `sql` of kind `kind` asks for, and what becomes of the open
    /// transaction.
    pub fn execute(&mut self, kind: StmtKind, sql: &str) -> (r: Result<Action, DbError>)
        ensures
            final(self).turned(old(self), kind, sql@, r),
    {
        if !self.logged {
            return Ok(Action::Dispatch);
        }
        match kind {
            StmtKind::Begin => {
                if self.txn.is_some() {
                    return exec_err("a transaction is already open");
                }
                self.txn = Some(Vec::new());
                assert(held(self.txn)->0 =~= Seq::<Seq<char>>::empty());
                return Ok(Action::Nothing);
            },
            StmtKind::Commit => {
                return match self.txn.take() {
                    Some(stmts) => Ok(Action::Batch(stmts)),
                    None => Ok(Action::Nothing),
                };
            },
            StmtKind::Rollback => {
                self.txn = None;
                return Ok(Action::Nothing);
            },
            _ => {},
        }
        let changes: bool = is_mutating(kind);
        match self.txn.take() {
            Some(mut stmts) => {
                if changes {
                    let ghost was = stmts@;
                    stmts.push(sql.to_owned());
                    proof {
                        assert(words(stmts@) =~= words(was).push(sql@));
                    }
                    self.txn = Some(stmts);
                    Ok(Action::Nothing)
                } else {
                    let buffered: Vec<String> = copy_texts(&stmts);
                    self.txn = Some(stmts);
                    Ok(Action::Overlay(buffered))
                }
            },
            None => {
                if changes {
                    let mut one: Vec<String> = Vec::new();
                    one.push(sql.to_owned());
                    assert(words(one@) =~= seq![sql@]);
                    Ok(Action::Batch(one))
                } else {
                    Ok(Action::Dispatch)
                }
            },
        }
    }
}

// ---- writing batches ----

/// The log has records up to its end and nothing behind.
pub open spec fn tight<F: BlockFile>(log: &StmtLog<F>) -> bool {
    &&& log.end == end_from(log.file.image(), 0)
    &&& log.file.image().len() <= log.end
}

/// What records take up in the log.
pub open spec fn log_size(rs: Seq<Seq<u8>>) -> int
    decreases rs.len(),
{
    if rs.len() == 0 {
        0
    } else {
        log_size(rs.drop_last()) + 12 + rs.last().len()
    }
}

proof fn lemma_log_size(rs: Seq<Seq<u8>>, i: int)
    requires
        0 <= i <= rs.len(),
    ensures
        0 <= log_size(rs.take(i)) <= log_size(rs),
        i < rs.len() ==> log_size(rs.take(i)) + 12 + rs[i].len() <= log_size(rs),
    decreases rs.len(),
{
    if i < rs.len() {
        lemma_log_size(rs.drop_last(), i);
        assert(rs.drop_last().take(i) =~= rs.take(i));
        if i < rs.len() - 1 {
            assert(rs.drop_last()[i] == rs[i]);
        }
        assert(log_size(rs.drop_last()) >= 0) by {
            lemma_log_size(rs.drop_last(), rs.len() - 1);
        }
    } else {
        assert(rs.take(i) =~= rs);
        if rs.len() > 0 {
            lemma_log_size(rs.drop_last(), rs.len() - 1);
        }
    }
}

/// Append records one after the other.
pub fn append_all<F: BlockFile>(log: &mut StmtLog<F>, records: &Vec<Vec<u8>>) -> (r: Result<
    (),
    IoError,
>)
    requires
        old(log).end + log_size(recs(records@)) <= usize::MAX,
        usize::MAX <= u64::MAX,
        forall|i: int| 0 <= i < records@.len() ==> (#[trigger] records@[i])@.len() <= u32::MAX,
    ensures
        final(log).file.reliable() == old(log).file.reliable(),
        r is Ok && tight(old(log)) ==> tight(final(log)) && records_from(final(log).file.image(), 0)
            == records_from(old(log).file.image(), 0) + recs(records@),
        r is Ok ==> final(log).end == old(log).end + log_size(recs(records@)),
        r is Ok && records@.len() > 0 ==> final(log).file.synced(),
        r is Err ==> !old(log).file.reliable(),
{
    let ghost rs = recs(records@);
    let ghost was = records_from(log.file.image(), 0);
    let mut i: usize = 0;
    proof {
        assert(was + rs.take(0) =~= was);
        assert(log_size(rs.take(0)) == 0);
    }
    while i < records.len()
        invariant
            i > 0 ==> log.file.synced(),
            i <= records@.len(),
            rs == recs(records@),
            was == records_from(old(log).file.image(), 0),
            log.file.reliable() == old(log).file.reliable(),
            old(log).end + log_size(rs) <= usize::MAX,
            log.end == old(log).end + log_size(rs.take(i as int)),
            forall|i: int| 0 <= i < records@.len() ==> (#[trigger] records@[i])@.len() <= u32::MAX,
            tight(old(log)) ==> tight(log) && records_from(log.file.image(), 0) == was + rs.take(
                i as int,
            ),
        decreases records@.len() - i,
    {
        let ghost image = log.file.image();
        let ghost rec = rs[i as int];
        proof {
            assert(rec == records@[i as int]@);
            lemma_log_size(rs, i as int);
            assert(rs.take(i + 1).drop_last() =~= rs.take(i as int));
            assert(rs.take(i + 1) =~= rs.take(i as int).push(rec));
        }
        match log.append(records[i].as_slice()) {
            Ok(()) => {},
            Err(e) => {
                return Err(e);
            },
        }
        proof {
            if tight(old(log)) {
                let e = end_from(image, 0);
                let b = overwritten(image, e, framed(rec));
                assert(framed(rec).len() == 12 + rec.len());
                assert(b.len() == e + 12 + rec.len());
                lemma_frame_fits(b, e + 12 + rec.len());
                assert(frame_at(b, e + 12 + rec.len()) is None);
                law_appended_record_is_replayed(image, rec);
                assert((was + rs.take(i as int)).push(rec) =~= was + rs.take(i + 1));
            }
        }
        i = i + 1;
    }
    assert(rs.take(i as int) =~= rs);
    Ok(())
}

// ---- laws ----

proof fn lemma_last_add(a: Seq<Seq<u8>>, b: Seq<Seq<u8>>, p: spec_fn(Seq<u8>) -> bool)
    requires
        forall|i: int| 0 <= i < b.len() ==> !p(#[trigger] b[i]),
    ensures
        last_at(a + b, p) == last_at(a, p),
{
    let all = a + b;
    lemma_last_at(a, p);
    let l = last_at(a, p);
    assert forall|j: int| l < j < all.len() implies !p(#[trigger] all[j]) by {
        if j < a.len() {
            assert(all[j] == a[j]);
        } else {
            assert(all[j] == b[j - a.len()]);
        }
    }
    lemma_last_is(all, p, l);
}

proof fn lemma_first_add(a: Seq<Seq<u8>>, b: Seq<Seq<u8>>, p: spec_fn(Seq<u8>) -> bool)
    requires
        forall|i: int| 0 <= i < b.len() ==> !p(#[trigger] b[i]),
    ensures
        first_at(a + b, p) == if first_at(a, p) < a.len() {
            first_at(a, p)
        } else {
            (a + b).len() as int
        },
{
    let all = a + b;
    lemma_first_at(a, p);
    let f = if first_at(a, p) < a.len() {
        first_at(a, p)
    } else {
        all.len() as int
    };
    assert forall|j: int| 0 <= j < f implies !p(#[trigger] all[j]) by {
        if j < a.len() {
            assert(all[j] == a[j]);
        } else {
            assert(all[j] == b[j - a.len()]);
        }
    }
    lemma_first_is(all, p, f);
}

/// The log ends with a commit or a complete compaction: recovery can read all of it,
/// no compaction is half-written and no statement is left uncommitted.
pub open spec fn settled(rs: Seq<Seq<u8>>) -> bool {
    let rest = rs.skip(snap_end(rs) + 1);
    &&& fault(rs) is None
    &&& first_at(rest, is_kind(REC_SNAP_BEGIN)) == rest.len()
    &&& committed(tail(rs)) == stmts_in(tail(rs))
}

/// All of them are texts.
pub open spec fn readable_texts(stmts: Seq<Seq<u8>>) -> bool {
    forall|i: int| 0 <= i < stmts.len() ==> valid_utf8(#[trigger] stmts[i])
}

spec fn logged_stmts(stmts: Seq<Seq<u8>>) -> Seq<Seq<u8>> {
    stmts.map_values(|t: Seq<u8>| logged(t))
}

proof fn lemma_logged(stmts: Seq<Seq<u8>>)
    ensures
        stmts_in(logged_stmts(stmts)) == stmts,
        forall|i: int|
            0 <= i < stmts.len() ==> kind(#[trigger] logged_stmts(stmts)[i]) == Some(REC_STMT)
                && logged_stmts(stmts)[i].skip(1) == stmts[i],
    decreases stmts.len(),
{
    let l = logged_stmts(stmts);
    assert forall|i: int| 0 <= i < stmts.len() implies kind(#[trigger] l[i]) == Some(REC_STMT)
        && l[i].skip(1) == stmts[i] by {
        assert(l[i].skip(1) =~= stmts[i]);
    }
    if stmts.len() > 0 {
        lemma_logged(stmts.drop_last());
        assert(l.drop_last() =~= logged_stmts(stmts.drop_last()));
        assert(l.last() == l[stmts.len() - 1]);
        assert(stmts.drop_last().push(stmts.last()) =~= stmts);
    } else {
        assert(stmts_in(l) =~= stmts);
    }
}

/// Records of statements and commits behind a log leave its compacted state and
/// lengthen its tail.
proof fn lemma_more(rs: Seq<Seq<u8>>, more: Seq<Seq<u8>>)
    requires
        forall|i: int|
            0 <= i < more.len() ==> kind(#[trigger] more[i]) == Some(REC_STMT) || kind(more[i])
                == Some(REC_COMMIT),
        first_at(rs.skip(snap_end(rs) + 1), is_kind(REC_SNAP_BEGIN)) == rs.skip(
            snap_end(rs) + 1,
        ).len(),
    ensures
        snap_end(rs + more) == snap_end(rs),
        snapshot(rs + more) == snapshot(rs),
        unbegun(rs + more) == unbegun(rs),
        tail(rs + more) == tail(rs) + more,
        first_at((rs + more).skip(snap_end(rs + more) + 1), is_kind(REC_SNAP_BEGIN)) == (rs
            + more).skip(snap_end(rs + more) + 1).len(),
{
    let all = rs + more;
    lemma_last_at(rs, is_kind(REC_SNAP_END));
    lemma_last_add(rs, more, is_kind(REC_SNAP_END));
    let e = snap_end(rs);
    if e >= 0 {
        assert(all.take(e) =~= rs.take(e));
        lemma_last_at(rs.take(e), is_kind(REC_SNAP_BEGIN));
        assert(snapshot(all) =~= snapshot(rs));
    }
    let rest = rs.skip(e + 1);
    assert(all.skip(e + 1) =~= rest + more);
    lemma_first_add(rest, more, is_kind(REC_SNAP_BEGIN));
    assert(rest.take(rest.len() as int) =~= rest);
    assert((rest + more).take((rest + more).len() as int) =~= rest + more);
}

/// A batch that was written whole is run by recovery behind everything before it.
pub proof fn law_committed_batch_is_replayed(rs: Seq<Seq<u8>>, stmts: Seq<Seq<u8>>)
    requires
        settled(rs),
        readable_texts(stmts),
    ensures
        replayed(rs + batch(stmts)) == replayed(rs) + stmts,
        settled(rs + batch(stmts)),
{
    let l = logged_stmts(stmts);
    let b = batch(stmts);
    let all = rs + b;
    let t = tail(rs);
    let u = t + b;
    lemma_logged(stmts);
    assert(b == l.push(seq![REC_COMMIT]));
    assert forall|i: int| 0 <= i < b.len() implies (kind(#[trigger] b[i]) == Some(REC_STMT) || kind(
        b[i],
    ) == Some(REC_COMMIT)) && !bad_record()(b[i]) by {
        if i < l.len() {
            assert(b[i] == l[i]);
            assert(valid_utf8(stmts[i]));
        }
    }
    lemma_more(rs, b);
    lemma_first_at(t, bad_record());
    lemma_first_add(t, b, bad_record());
    assert(t.take(t.len() as int) =~= t);
    assert(u.take(u.len() as int) =~= u);
    let c = is_kind(REC_COMMIT);
    assert(c(u.last()));
    assert(u.take(last_at(u, c)) =~= t + l);
    lemma_stmts_add(t, l);
    assert(committed(u) == stmts_in(t) + stmts);
    assert(u.drop_last() =~= t + l);
    assert(replayed(all) =~= replayed(rs) + stmts);
}

/// A batch that was cut short is not run at all.
pub proof fn law_torn_batch_is_not_replayed(rs: Seq<Seq<u8>>, stmts: Seq<Seq<u8>>, n: int)
    requires
        settled(rs),
        readable_texts(stmts),
        0 <= n < batch(stmts).len(),
    ensures
        replayed(rs + batch(stmts).take(n)) == replayed(rs),
        fault(rs + batch(stmts).take(n)) is None,
{
    let l = logged_stmts(stmts);
    let b = batch(stmts).take(n);
    let t = tail(rs);
    let u = t + b;
    lemma_logged(stmts);
    assert forall|i: int| 0 <= i < b.len() implies kind(#[trigger] b[i]) == Some(REC_STMT)
        && !bad_record()(b[i]) by {
        assert(b[i] == l[i]);
        assert(valid_utf8(stmts[i]));
    }
    lemma_more(rs, b);
    lemma_first_at(t, bad_record());
    lemma_first_add(t, b, bad_record());
    assert(t.take(t.len() as int) =~= t);
    assert(u.take(u.len() as int) =~= u);
    let c = is_kind(REC_COMMIT);
    lemma_last_at(t, c);
    lemma_last_add(t, b, c);
    if last_at(t, c) >= 0 {
        assert(u.take(last_at(u, c)) =~= t.take(last_at(t, c)));
    }
}

/// Behind a complete compaction recovery runs its script and nothing from before it.
pub proof fn law_compaction_replays_its_script(rs: Seq<Seq<u8>>, script: Seq<Seq<u8>>)
    requires
        readable_texts(script),
    ensures
        replayed(rs + compaction(script)) == script,
        settled(rs + compaction(script)),
{
    let l = logged_stmts(script);
    let c = compaction(script);
    let all = rs + c;
    let n = rs.len() as int;
    lemma_logged(script);
    assert(c[0] == seq![REC_SNAP_BEGIN]);
    assert(c.last() == seq![REC_SNAP_END]);
    assert forall|i: int| 0 <= i < l.len() implies #[trigger] c[i + 1] == l[i] by {}
    let e = all.len() - 1;
    lemma_last_is(all, is_kind(REC_SNAP_END), e);
    let head = all.take(e);
    assert forall|j: int| n < j < head.len() implies !is_kind(REC_SNAP_BEGIN)(
        #[trigger] head[j],
    ) by {
        assert(head[j] == c[j - n]);
        assert(c[(j - n - 1) + 1] == l[j - n - 1]);
    }
    assert(head[n] == c[0]);
    lemma_last_is(head, is_kind(REC_SNAP_BEGIN), n);
    let snap = snapshot(all);
    assert(snap =~= l) by {
        assert forall|i: int| 0 <= i < l.len() implies snap[i] == l[i] by {
            assert(all[n + 1 + i] == c[i + 1]);
        }
    }
    assert forall|j: int| 0 <= j < snap.len() implies !bad_text()(#[trigger] snap[j]) by {
        assert(snap[j] == l[j]);
        assert(valid_utf8(script[j]));
    }
    lemma_first_is(snap, bad_text(), snap.len() as int);
    let rest = all.skip(e + 1);
    assert(rest =~= Seq::empty());
    assert(tail(all) =~= Seq::empty());
    assert(first_at(rest, is_kind(REC_SNAP_BEGIN)) == 0);
    assert(first_at(tail(all), bad_record()) == 0);
    assert(tail(all).take(0) =~= tail(all));
    assert(last_at(tail(all), is_kind(REC_COMMIT)) == -1);
    assert(committed(tail(all)) =~= Seq::empty());
    assert(stmts_in(tail(all)) =~= Seq::empty());
    assert(replayed(all) =~= script);
}

/// A compaction that was cut short changes nothing of what recovery runs.
pub proof fn law_torn_compaction_changes_nothing(rs: Seq<Seq<u8>>, script: Seq<Seq<u8>>, n: int)
    requires
        0 <= n < compaction(script).len(),
    ensures
        replayed(rs + compaction(script).take(n)) == replayed(rs),
        fault(rs + compaction(script).take(n)) == fault(rs),
{
    let c = compaction(script);
    let b = c.take(n);
    let all = rs + b;
    let l = logged_stmts(script);
    lemma_logged(script);
    if n == 0 {
        assert(all =~= rs);
    } else {
        assert(c[0] == seq![REC_SNAP_BEGIN]);
        assert forall|i: int| 0 <= i < b.len() implies !is_kind(REC_SNAP_END)(#[trigger] b[i]) by {
            if i > 0 {
                assert(b[i] == l[i - 1]);
            }
        }
        lemma_last_at(rs, is_kind(REC_SNAP_END));
        lemma_last_add(rs, b, is_kind(REC_SNAP_END));
        let e = snap_end(rs);
        if e >= 0 {
            assert(all.take(e) =~= rs.take(e));
            lemma_last_at(rs.take(e), is_kind(REC_SNAP_BEGIN));
            assert(snapshot(all) =~= snapshot(rs));
        }
        let rest = rs.skip(e + 1);
        let more = all.skip(e + 1);
        assert(more =~= rest + b);
        let p = is_kind(REC_SNAP_BEGIN);
        lemma_first_at(rest, p);
        let f = first_at(rest, p);
        assert forall|j: int| 0 <= j < f implies !p(#[trigger] more[j]) by {
            assert(more[j] == rest[j]);
        }
        assert(f < more.len() && p(more[f])) by {
            if f < rest.len() {
                assert(more[f] == rest[f]);
            } else {
                assert(more[f] == b[0]);
            }
        }
        lemma_first_is(more, p, f);
        assert(tail(all) =~= tail(rs));
    }
}

/// The texts of strings can always be read back.
pub proof fn law_text_of_string_is_readable(v: Seq<String>)
    ensures
        readable_texts(texts(v)),
{
    assert forall|i: int| 0 <= i < texts(v).len() implies valid_utf8(#[trigger] texts(v)[i]) by {
        vstd::utf8::encode_utf8_valid_utf8(v[i]@);
    }
}

/// The list has these texts.
pub open spec fn spells(v: Seq<String>, ts: Seq<Seq<char>>) -> bool {
    &&& v.len() == ts.len()
    &&& forall|i: int| 0 <= i < v.len() ==> (#[trigger] v[i])@ == ts[i]
}

/// Where statements are logged, whatever changes tables, rows or indexes is kept: behind the
/// statements of the open transaction, or, where none is open, as a batch of its own.
pub proof fn law_changing_statements_are_kept(
    after: &Session,
    before: &Session,
    kind: StmtKind,
    sql: Seq<char>,
    r: Result<Action, DbError>,
)
    requires
        after.turned(before, kind, sql, r),
        before.logged,
        kind is CreateTable || kind is CreateIndex || kind is Insert || kind is Update
            || kind is Delete || kind is DropTable || kind is DropIndex,
    ensures
        after.logged,
        match before.txn {
            Some(v) => {
                &&& r == Ok::<Action, DbError>(Action::Nothing)
                &&& after.txn is Some
                &&& after.txn->0@.len() == v@.len() + 1
                &&& forall|i: int| 0 <= i < v@.len() ==> (#[trigger] after.txn->0@[i])@ == v@[i]@
                &&& after.txn->0@[v@.len() as int]@ == sql
            },
            None => {
                &&& after.txn is None
                &&& r is Ok && r->Ok_0 is Batch
                &&& spells(r->Ok_0->Batch_0@, seq![sql])
            },
        },
{
    if before.txn is Some {
        let v = before.txn->0@;
        let w = after.txn->0@;
        assert(words(w) == words(v).push(sql));
        assert(words(w).len() == w.len() && words(v).len() == v.len());
        assert forall|i: int| 0 <= i < v.len() implies (#[trigger] w[i])@ == v[i]@ by {
            assert(words(w)[i] == w[i]@);
            assert(words(v)[i] == v[i]@);
        }
        assert(words(w)[v.len() as int] == w[v.len() as int]@);
    } else {
        let b = r->Ok_0->Batch_0@;
        assert(words(b) == seq![sql]);
        assert(words(b).len() == b.len());
        assert(words(b)[0] == b[0]@);
    }
}

/// Where statements are logged, a transaction is one batch: BEGIN opens an empty one and no
/// second, COMMIT hands out exactly the statements since BEGIN in their order, ROLLBACK hands
/// out none, and both leave none open. A query changes nothing, and in a transaction it is
/// answered with the statements since BEGIN on top.
pub proof fn law_transactions_are_batches(
    after: &Session,
    before: &Session,
    kind: StmtKind,
    sql: Seq<char>,
    r: Result<Action, DbError>,
)
    requires
        after.turned(before, kind, sql, r),
        before.logged,
    ensures
        after.logged,
        kind is Begin && before.txn is None ==> r == Ok::<Action, DbError>(Action::Nothing)
            && after.txn is Some && after.txn->0@.len() == 0,
        kind is Begin && before.txn is Some ==> r is Err && says(
            r->Err_0,
            "a transaction is already open"@,
        ) && after.txn is Some && same_texts(after.txn->0@, before.txn->0@),
        kind is Commit ==> after.txn is None,
        kind is Commit && before.txn is Some ==> r is Ok && r->Ok_0 is Batch && same_texts(
            r->Ok_0->Batch_0@,
            before.txn->0@,
        ),
        (kind is Commit && before.txn is None) || kind is Rollback ==> after.txn is None && r
            == Ok::<Action, DbError>(Action::Nothing),
        kind is Select && before.txn is None ==> after.txn is None && r == Ok::<Action, DbError>(
            Action::Dispatch,
        ),
        kind is Select && before.txn is Some ==> after.txn is Some && same_texts(
            after.txn->0@,
            before.txn->0@,
        ) && r is Ok && r->Ok_0 is Overlay && same_texts(r->Ok_0->Overlay_0@, before.txn->0@),
{
    if before.txn is Some {
        let v = before.txn->0@;
        if after.txn is Some {
            lemma_same_texts(after.txn->0@, v);
        }
        if r is Ok && r->Ok_0 is Batch {
            lemma_same_texts(r->Ok_0->Batch_0@, v);
        }
        if r is Ok && r->Ok_0 is Overlay {
            lemma_same_texts(r->Ok_0->Overlay_0@, v);
        }
    }
    if after.txn is Some {
        assert(words(after.txn->0@).len() == after.txn->0@.len());
    }
}

/// The lists have the same texts.
pub open spec fn same_texts(a: Seq<String>, b: Seq<String>) -> bool {
    &&& a.len() == b.len()
    &&& forall|i: int| 0 <= i < a.len() ==> (#[trigger] a[i])@ == b[i]@
}

proof fn lemma_same_texts(a: Seq<String>, b: Seq<String>)
    ensures
        words(a) == words(b) ==> same_texts(a, b),
{
    if words(a) == words(b) {
        assert(words(a).len() == a.len() && words(b).len() == b.len());
        assert forall|i: int| 0 <= i < a.len() implies (#[trigger] a[i])@ == b[i]@ by {
            assert(words(a)[i] == a[i]@);
            assert(words(b)[i] == b[i]@);
        }
    }
}

/// Without a log every statement is run as it comes, and no transaction is kept.
pub proof fn law_without_a_log_statements_are_run(
    after: &Session,
    before: &Session,
    kind: StmtKind,
    sql: Seq<char>,
    r: Result<Action, DbError>,
)
    requires
        after.turned(before, kind, sql, r),
        !before.logged,
        before.txn is None,
    ensures
        r == Ok::<Action, DbError>(Action::Dispatch),
        after.txn is None,
        !after.logged,
{
}

// ---- what recovery runs ----

/// `at` numbers, upwards, exactly the records of the set.
pub open spec fn numbers_all(rs: Seq<Seq<u8>>, of: spec_fn(int) -> bool, at: Seq<int>) -> bool {
    &&& forall|i: int, j: int| 0 <= i < j < at.len() ==> #[trigger] at[i] < #[trigger] at[j]
    &&& forall|i: int| 0 <= i < at.len() ==> 0 <= #[trigger] at[i] < rs.len()
    &&& forall|k: int| 0 <= k < rs.len() ==> (#[trigger] at.contains(k) <==> of(k))
}

/// The statements in records are those of all statement records, in their order, each without
/// the mark of its kind.
pub proof fn law_statements_are_read_in_order(rs: Seq<Seq<u8>>) -> (at: Seq<int>)
    ensures
        numbers_all(rs, |k: int| rs[k].len() > 0 && rs[k][0] == REC_STMT, at),
        stmts_in(rs).len() == at.len(),
        forall|i: int|
            0 <= i < at.len() ==> rs[at[i]] == seq![REC_STMT] + #[trigger] stmts_in(rs)[i],
    decreases rs.len(),
{
    let of = |k: int| rs[k].len() > 0 && rs[k][0] == REC_STMT;
    if rs.len() == 0 {
        Seq::empty()
    } else {
        let init = rs.drop_last();
        let n = rs.len() - 1;
        let was = law_statements_are_read_in_order(init);
        let before = |k: int| init[k].len() > 0 && init[k][0] == REC_STMT;
        let keep = of(n as int);
        let at = if keep {
            was.push(n)
        } else {
            was
        };
        let out = stmts_in(rs);
        assert forall|i: int| 0 <= i < at.len() implies rs[at[i]] == seq![REC_STMT]
            + #[trigger] out[i] by {
            if i < was.len() {
                assert(out[i] == stmts_in(init)[i]);
                assert(init[was[i]] == rs[at[i]]);
            } else {
                assert(rs[n] =~= seq![REC_STMT] + rs[n].skip(1));
            }
        }
        assert forall|i: int, j: int| 0 <= i < j < at.len() implies #[trigger] at[i]
            < #[trigger] at[j] by {
            assert(was[i] == at[i]);
            if j < was.len() {
                assert(was[j] == at[j]);
            }
        }
        assert forall|i: int| 0 <= i < at.len() implies 0 <= #[trigger] at[i] < rs.len() by {
            if i < was.len() {
                assert(was[i] == at[i]);
            }
        }
        assert forall|k: int| 0 <= k < rs.len() implies (#[trigger] at.contains(k) <==> of(k)) by {
            if k < n {
                assert(init[k] == rs[k]);
                assert(was.contains(k) <==> before(k));
                if was.contains(k) {
                    let i = was.index_of(k);
                    assert(at[i] == k);
                }
                if at.contains(k) {
                    let i = at.index_of(k);
                    assert(was[i] == k);
                }
            } else {
                if keep {
                    assert(at[was.len() as int] == k);
                } else if at.contains(k) {
                    let i = was.index_of(k);
                    assert(was[i] < init.len());
                }
            }
        }
        at
    }
}

/// A commit, or a statement that is a text.
pub open spec fn is_passable(rec: Seq<u8>) -> bool {
    rec.len() > 0 && (rec[0] == REC_COMMIT || rec[0] == REC_STMT && valid_utf8(rec.skip(1)))
}

/// Record `j` is a commit, and there is nothing but commits and statements up to it.
pub open spec fn commits_at(rs: Seq<Seq<u8>>, j: int) -> bool {
    &&& 0 <= j < rs.len()
    &&& rs[j].len() > 0 && rs[j][0] == REC_COMMIT
    &&& forall|k: int| 0 <= k < j ==> is_passable(#[trigger] rs[k])
}

/// Record `i` is a statement with a commit behind it.
pub open spec fn is_committed(rs: Seq<Seq<u8>>, i: int) -> bool {
    &&& rs[i].len() > 0 && rs[i][0] == REC_STMT
    &&& exists|j: int| i < j && #[trigger] commits_at(rs, j)
}

/// Without a complete compaction recovery runs exactly the statements that a commit stands
/// behind, in their order. It goes well exactly where there is nothing but commits and
/// statements, or a compaction was begun behind them.
pub proof fn law_recovery_runs_what_was_committed(rs: Seq<Seq<u8>>) -> (at: Seq<int>)
    requires
        forall|i: int| 0 <= i < rs.len() ==> !((#[trigger] rs[i]).len() > 0 && rs[i][0]
            == REC_SNAP_END),
    ensures
        numbers_all(rs, |i: int| is_committed(rs, i), at),
        replayed(rs).len() == at.len(),
        forall|i: int|
            0 <= i < at.len() ==> rs[at[i]] == seq![REC_STMT] + #[trigger] replayed(rs)[i],
        fault(rs) is None <==> exists|n: int| #[trigger] ends_well(rs, n),
{
    let last_end = snap_end(rs);
    lemma_last_at(rs, is_kind(REC_SNAP_END));
    assert(last_end == -1);
    let t = tail(rs);
    let rest = rs.skip(0);
    assert(rest =~= rs);
    let m = first_at(rs, is_kind(REC_SNAP_BEGIN));
    lemma_first_at(rs, is_kind(REC_SNAP_BEGIN));
    assert(t == rs.take(m));
    let x = first_at(t, bad_record());
    lemma_first_at(t, bad_record());
    let good = t.take(x);
    assert(good =~= rs.take(x));
    let l = last_at(good, is_kind(REC_COMMIT));
    lemma_last_at(good, is_kind(REC_COMMIT));
    let head = if l < 0 {
        Seq::<Seq<u8>>::empty()
    } else {
        good.take(l)
    };
    let snap = snapshot(rs);
    assert(snap.len() == 0);
    assert(stmts_in(snap) + committed(good) =~= committed(good));
    assert(replayed(rs) =~= stmts_in(head));
    let at = law_statements_are_read_in_order(head);
    assert forall|k: int| 0 <= k < t.len() implies (bad_record()(#[trigger] rs[k]) <==> !is_passable(
        rs[k],
    )) by {
        assert(!is_kind(REC_SNAP_BEGIN)(rs[k]));
        assert(!(rs[k].len() > 0 && rs[k][0] == REC_SNAP_END));
    }
    assert forall|k: int| 0 <= k < x implies is_passable(#[trigger] rs[k]) by {
        assert(!bad_record()(t[k]));
    }
    assert forall|i: int| 0 <= i < at.len() implies rs[at[i]] == seq![REC_STMT]
        + #[trigger] replayed(rs)[i] by {
        assert(head[at[i]] == rs[at[i]]);
    }
    assert forall|k: int| 0 <= k < rs.len() implies (#[trigger] at.contains(k) <==> is_committed(
        rs,
        k,
    )) by {
        if at.contains(k) {
            let i = at.index_of(k);
            assert(0 <= at[i] < head.len());
            assert(head[k] == rs[k]);
            assert(is_kind(REC_COMMIT)(good[l]));
            assert(commits_at(rs, l));
        }
        if is_committed(rs, k) {
            let j = choose|j: int| k < j && #[trigger] commits_at(rs, j);
            assert(j < x) by {
                if m <= j && m < rs.len() {
                    assert(is_kind(REC_SNAP_BEGIN)(rs[m]));
                    assert(m == j || is_passable(rs[m]));
                }
                if x <= j && x < t.len() {
                    assert(bad_record()(rs[x]));
                    assert(x == j || is_passable(rs[x]));
                    assert(is_passable(rs[j]));
                }
            }
            assert(is_kind(REC_COMMIT)(good[j]));
            assert(j <= l);
            assert(head[k] == rs[k]);
            assert(at.contains(k));
        }
    }
    assert forall|i: int| 0 <= i < at.len() implies 0 <= #[trigger] at[i] < rs.len() by {
        assert(0 <= at[i] < head.len());
    }
    if fault(rs) is None {
        assert(x == t.len());
        assert(ends_well(rs, m));
    }
    if exists|n: int| #[trigger] ends_well(rs, n) {
        let n = choose|n: int| #[trigger] ends_well(rs, n);
        if x < t.len() {
            assert(bad_record()(rs[x]));
            if n <= x {
                assert(n < rs.len());
                assert(!is_kind(REC_SNAP_BEGIN)(rs[n]));
            } else {
                assert(is_passable(rs[x]));
            }
        }
    }
    at
}

/// There are nothing but commits and statements before record `n`, and nothing behind them, or
/// the beginning of a compaction.
pub open spec fn ends_well(rs: Seq<Seq<u8>>, n: int) -> bool {
    &&& 0 <= n <= rs.len()
    &&& forall|k: int| 0 <= k < n ==> is_passable(#[trigger] rs[k])
    &&& n < rs.len() ==> rs[n].len() > 0 && rs[n][0] == REC_SNAP_BEGIN
}

/// Recovery starts at the last complete compaction: it runs the statements of that, all of
/// them, and then what it would run if the log began behind it. Nothing from before counts.
pub proof fn law_recovery_starts_at_the_last_compaction(rs: Seq<Seq<u8>>, b: int, e: int)
    requires
        0 <= b < e < rs.len(),
        kind(rs[b]) == Some(REC_SNAP_BEGIN),
        kind(rs[e]) == Some(REC_SNAP_END),
        forall|i: int| e < i < rs.len() ==> kind(#[trigger] rs[i]) != Some(REC_SNAP_END),
        forall|i: int| b < i < e ==> kind(#[trigger] rs[i]) != Some(REC_SNAP_BEGIN),
        forall|i: int|
            b < i < e && kind(#[trigger] rs[i]) == Some(REC_STMT) ==> valid_utf8(rs[i].skip(1)),
    ensures
        replayed(rs) == stmts_in(rs.subrange(b + 1, e)) + replayed(rs.skip(e + 1)),
        fault(rs) == fault(rs.skip(e + 1)),
{
    lemma_last_is(rs, is_kind(REC_SNAP_END), e);
    let head = rs.take(e);
    assert(head[b] == rs[b]);
    assert forall|j: int| b < j < head.len() implies !is_kind(REC_SNAP_BEGIN)(
        #[trigger] head[j],
    ) by {
        assert(head[j] == rs[j]);
    }
    lemma_last_is(head, is_kind(REC_SNAP_BEGIN), b);
    let snap = snapshot(rs);
    assert(snap == rs.subrange(b + 1, e));
    lemma_first_at(snap, bad_text());
    if first_at(snap, bad_text()) < snap.len() {
        let k = first_at(snap, bad_text());
        assert(snap[k] == rs[b + 1 + k]);
        assert(bad_text()(snap[k]));
    }
    let rest = rs.skip(e + 1);
    lemma_last_at(rest, is_kind(REC_SNAP_END));
    assert(snap_end(rest) == -1) by {
        if snap_end(rest) >= 0 {
            assert(rest[snap_end(rest)] == rs[e + 1 + snap_end(rest)]);
        }
    }
    assert(rest.skip(0) =~= rest);
    assert(tail(rest) == tail(rs));
    assert(snapshot(rest).len() == 0);
    assert(stmts_in(snapshot(rest)) =~= Seq::empty());
    assert(replayed(rest) =~= committed(tail(rs).take(first_at(tail(rs), bad_record()))));
}

} // verus!
