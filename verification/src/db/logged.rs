//! A database whose statements go through a log: a batch is in the log before any of it
//! runs, and a compaction writes the statements that build what is stored.

use vstd::prelude::*;
use vstd::utf8::encode_utf8;

use crate::buffer::{BufferPool, NoWal};
use crate::db::catalog::Schema;
use crate::db::define::{lists, table_data};
use crate::db::dml::{rec_views, TableDef};
use crate::db::exec::ExecError;
use crate::db::reopen::{file_count, not_opened, openable, opened};
use crate::db::script::{
    builds, by_number, lines, row_lists, shows, snapshot_script, sort_tables, sorts_before,
};
use crate::db::session::{
    append_all, batch, batch_records, compaction, compaction_records, fault, held,
    law_changing_statements_are_kept, law_committed_batch_is_replayed, law_compaction_replays_its_script,
    law_text_of_string_is_readable, law_transactions_are_batches, log_size, mutates, recover,
    replayed, same_texts, settled, spells, texts, tight, words, Action, Replay, Session, StmtKind,
};
use crate::db::store::{device, Database};
use crate::db::wal::{end_from, records_from, recs, StmtLog};
use crate::db::{exec_err, says, DbError};
use crate::heap::Rid;
use crate::pager::{holds_out, lemma_distinct_below, Pager};
use crate::types::Value;
use crate::vfs::{BlockFile, IoError};

verus! {

/// The log can take these records.
pub open spec fn room_for<F: BlockFile>(log: &StmtLog<F>, rs: Seq<Seq<u8>>) -> bool {
    &&& log.end + log_size(rs) <= usize::MAX
    &&& usize::MAX <= u64::MAX
    &&& forall|i: int| 0 <= i < rs.len() ==> (#[trigger] rs[i]).len() <= u32::MAX
}

/// The records were appended and are durable.
pub open spec fn extended<F: BlockFile>(
    log: &StmtLog<F>,
    before: &StmtLog<F>,
    rs: Seq<Seq<u8>>,
) -> bool {
    &&& log.file.reliable() == before.file.reliable()
    &&& log.file.synced()
    &&& log.end == before.end + log_size(rs)
    &&& tight(before) ==> tight(log) && records_from(log.file.image(), 0) == records_from(
        before.file.image(),
        0,
    ) + rs
}

/// `say` puts a failure of the file in these words.
pub open spec fn told<S: Fn(&IoError) -> String>(say: S, e: IoError, t: String) -> bool {
    say.ensures((&e,), t)
}

/// The log could not be written, which the error says behind `prefix`.
pub open spec fn log_failed<F: BlockFile, S: Fn(&IoError) -> String>(
    log: &StmtLog<F>,
    before: &StmtLog<F>,
    say: S,
    prefix: Seq<char>,
    e: DbError,
) -> bool {
    &&& !before.file.reliable()
    &&& log.file.reliable() == before.file.reliable()
    &&& exists|x: IoError, t: String| #[trigger] told(say, x, t) && says(e, prefix + t@)
}

fn write_records<F: BlockFile, S: Fn(&IoError) -> String>(
    log: &mut StmtLog<F>,
    records: &Vec<Vec<u8>>,
    prefix: &str,
    say: &S,
) -> (r: Result<(), DbError>)
    requires
        room_for(old(log), recs(records@)),
        records@.len() > 0,
        forall|e: IoError| #[trigger] say.requires((&e,)),
    ensures
        match r {
            Ok(()) => extended(final(log), old(log), recs(records@)),
            Err(e) => log_failed(final(log), old(log), *say, prefix@, e),
        },
{
    proof {
        assert forall|i: int| 0 <= i < records@.len() implies (#[trigger] records@[i])@.len()
            <= u32::MAX by {
            assert(recs(records@)[i] == records@[i]@);
        }
    }
    match append_all(log, records) {
        Ok(()) => Ok(()),
        Err(e) => {
            let t: String = say(&e);
            let text: String = prefix.to_owned().concat(t.as_str());
            assert(told(*say, e, t));
            Err(DbError::Exec(text))
        },
    }
}

// ---- recovery ----

/// What a log holds to be run again: the statements of its last whole compaction and those
/// committed behind it, and what is wrong behind them.
pub open spec fn recovered(image: Seq<u8>, replay: Replay) -> bool {
    let rs = records_from(image, 0);
    &&& texts(replay.stmts@) == replayed(rs)
    &&& match replay.error {
        None => fault(rs) is None,
        Some(e) => fault(rs) is Some && says(e, fault(rs)->0),
    }
}

impl<F: BlockFile> Database<BufferPool<F, NoWal>> {
    /// Open a database whose statements go through a log: its pages stay in the pool, and the
    /// statements that the log holds are to be run.
    pub fn open_logged<G: BlockFile, S: Fn(&IoError) -> String>(
        data: F,
        log: G,
        frames: usize,
        say: &S,
    ) -> (r: Result<(Self, StmtLog<G>, Session, Replay), DbError>)
        requires
            frames > 0,
            openable(data.image()),
            log.image().len() <= usize::MAX,
            forall|e: IoError| #[trigger] say.requires((&e,)),
        ensures
            match r {
                Ok((db, l, session, replay)) => {
                    &&& opened(data.image(), &db)
                    &&& db.bp.reach() <= frames
                    &&& data.reliable() && 0x2000_0000_0000 <= usize::MAX ==> db.bp.reach() == frames
                    &&& l.file.image() == log.image()
                    &&& l.file.reliable() == log.reliable()
                    &&& l.end == end_from(log.image(), 0)
                    &&& session.logged
                    &&& session.txn is None
                    &&& recovered(log.image(), replay)
                },
                Err(e) => {
                    ||| not_opened(
                        data.image(),
                        !data.reliable() || 0x2000_0000_0000 > usize::MAX || file_count(data.image())
                            > frames,
                        e,
                    )
                    ||| !log.reliable() && exists|x: IoError, t: String| #[trigger]
                        told(*say, x, t) && says(e, "log replay: "@ + t@)
                },
            },
    {
        let db: Self = match Database::open_kept(data, frames) {
            Ok(d) => d,
            Err(e) => {
                return Err(e);
            },
        };
        let mut l: StmtLog<G> = StmtLog::open(log);
        match l.replay() {
            Ok(records) => {
                let replay: Replay = recover(&records);
                Ok((db, l, Session::new(true), replay))
            },
            Err(e) => {
                let t: String = say(&e);
                let text: String = "log replay: ".to_owned().concat(t.as_str());
                assert(told(*say, e, t));
                Err(DbError::Exec(text))
            },
        }
    }
}

// ---- batches ----

/// What is to be done for a statement, with what the log has to hold already in it.
pub enum Step {
    /// Nothing more.
    Nothing,
    /// Run the statement against what is stored.
    Dispatch,
    /// Run these statements, which the log holds as one batch.
    Run(Vec<String>),
    /// Answer the query over what is stored with these statements run on top.
    Overlay(Vec<String>),
}

/// The statements as bytes.
pub open spec fn spelled(ws: Seq<Seq<char>>) -> Seq<Seq<u8>> {
    ws.map_values(|w: Seq<char>| encode_utf8(w))
}

/// The batch that a statement makes due.
pub open spec fn due(s: &Session, kind: StmtKind, sql: Seq<char>) -> Option<Seq<Seq<char>>> {
    if !s.logged {
        None
    } else if kind is Commit {
        held(s.txn)
    } else if mutates(kind) && s.txn is None {
        Some(seq![sql])
    } else {
        None
    }
}

/// What an action comes to: a batch goes to the log, and only from there to be run; all else
/// leaves the log as it is.
pub open spec fn stepped<F: BlockFile, S: Fn(&IoError) -> String>(
    log: &StmtLog<F>,
    before: &StmtLog<F>,
    say: S,
    a: Result<Action, DbError>,
    r: Result<Step, DbError>,
) -> bool {
    match a {
        Err(e) => r == Err::<Step, DbError>(e) && *log == *before,
        Ok(Action::Nothing) => r == Ok::<Step, DbError>(Step::Nothing) && *log == *before,
        Ok(Action::Dispatch) => r == Ok::<Step, DbError>(Step::Dispatch) && *log == *before,
        Ok(Action::Overlay(v)) => r == Ok::<Step, DbError>(Step::Overlay(v)) && *log == *before,
        Ok(Action::Batch(v)) => match r {
            Ok(s) => s == Step::Run(v) && extended(log, before, batch(texts(v@))),
            Err(e) => log_failed(log, before, say, "log append: "@, e),
        },
    }
}

/// Take a statement: what it asks for, and its batch, if it makes one due, into the log. If
/// that fails nothing is to be run.
pub fn step<F: BlockFile, S: Fn(&IoError) -> String>(
    session: &mut Session,
    log: &mut StmtLog<F>,
    kind: StmtKind,
    sql: &str,
    say: &S,
) -> (r: Result<Step, DbError>)
    requires
        due(old(session), kind, sql@) matches Some(ws) ==> room_for(old(log), batch(spelled(ws))),
        forall|e: IoError| #[trigger] say.requires((&e,)),
    ensures
        exists|a: Result<Action, DbError>| #[trigger]
            final(session).turned(old(session), kind, sql@, a) && stepped(
                final(log),
                old(log),
                *say,
                a,
                r,
            ),
{
    let ghost was = *session;
    let a: Result<Action, DbError> = session.execute(kind, sql);
    let ghost asked = a;
    assert(session.turned(&was, kind, sql@, asked));
    match a {
        Err(e) => Err(e),
        Ok(Action::Nothing) => Ok(Step::Nothing),
        Ok(Action::Dispatch) => Ok(Step::Dispatch),
        Ok(Action::Overlay(v)) => Ok(Step::Overlay(v)),
        Ok(Action::Batch(v)) => {
            let records: Vec<Vec<u8>> = batch_records(&v);
            proof {
                assert(due(&was, kind, sql@) == Some(words(v@)));
                assert(texts(v@) =~= spelled(words(v@)));
                assert(recs(records@).len() == records@.len());
            }
            match write_records(log, &records, "log append: ", say) {
                Ok(()) => Ok(Step::Run(v)),
                Err(e) => Err(e),
            }
        },
    }
}

/// What is run was logged first: a step that hands statements out to be run finds them in
/// the log, behind all that the log held, as one batch that its commit record ends.
pub proof fn law_nothing_runs_unlogged<F: BlockFile, S: Fn(&IoError) -> String>(
    log: &StmtLog<F>,
    before: &StmtLog<F>,
    say: S,
    a: Result<Action, DbError>,
    stmts: Vec<String>,
)
    requires
        tight(before),
        stepped(log, before, say, a, Ok(Step::Run(stmts))),
    ensures
        log.file.synced(),
        tight(log),
        records_from(log.file.image(), 0) == records_from(before.file.image(), 0) + batch(
            texts(stmts@),
        ),
{
}

/// What is run is run again after a crash: with the batch of a step in it, a log that ended
/// with a commit does so again, and recovery runs what it ran before and then the batch.
pub proof fn law_what_runs_is_recovered<F: BlockFile, S: Fn(&IoError) -> String>(
    log: &StmtLog<F>,
    before: &StmtLog<F>,
    say: S,
    a: Result<Action, DbError>,
    stmts: Vec<String>,
)
    requires
        tight(before),
        settled(records_from(before.file.image(), 0)),
        stepped(log, before, say, a, Ok(Step::Run(stmts))),
    ensures
        settled(records_from(log.file.image(), 0)),
        replayed(records_from(log.file.image(), 0)) == replayed(
            records_from(before.file.image(), 0),
        ) + texts(stmts@),
{
    law_text_of_string_is_readable(stmts@);
    law_committed_batch_is_replayed(records_from(before.file.image(), 0), texts(stmts@));
}

/// Whatever statement changes tables, rows or indexes is in what recovery runs: outside a
/// transaction at once, behind all that it ran before; within one, where the log stays as it
/// is, with all of the transaction when COMMIT comes.
pub proof fn law_changes_are_replayed<F: BlockFile, S: Fn(&IoError) -> String>(
    after: &Session,
    before: &Session,
    log: &StmtLog<F>,
    was: &StmtLog<F>,
    say: S,
    kind: StmtKind,
    sql: Seq<char>,
    a: Result<Action, DbError>,
    r: Result<Step, DbError>,
)
    requires
        before.logged,
        after.turned(before, kind, sql, a),
        stepped(log, was, say, a, r),
        tight(was),
        settled(records_from(was.file.image(), 0)),
        r is Ok,
    ensures
        (kind is CreateTable || kind is CreateIndex || kind is Insert || kind is Update
            || kind is Delete || kind is DropTable || kind is DropIndex) && before.txn is None
            ==> {
            &&& replayed(records_from(log.file.image(), 0)) == replayed(
                records_from(was.file.image(), 0),
            ).push(encode_utf8(sql))
            &&& r->Ok_0 is Run && spells(r->Ok_0->Run_0@, seq![sql])
            &&& log.file.synced()
        },
        (kind is CreateTable || kind is CreateIndex || kind is Insert || kind is Update
            || kind is Delete || kind is DropTable || kind is DropIndex) && before.txn is Some
            ==> {
            &&& *log == *was
            &&& r->Ok_0 is Nothing
            &&& after.txn is Some && after.txn->0@.len() == before.txn->0@.len() + 1
            &&& after.txn->0@.last()@ == sql
        },
        kind is Commit && before.txn is Some ==> {
            &&& replayed(records_from(log.file.image(), 0)) == replayed(
                records_from(was.file.image(), 0),
            ) + Seq::new(before.txn->0@.len(), |i: int| encode_utf8(before.txn->0@[i]@))
            &&& r->Ok_0 is Run && same_texts(r->Ok_0->Run_0@, before.txn->0@)
            &&& log.file.synced()
        },
        kind is Select || kind is Begin || kind is Rollback ==> *log == *was && !(r->Ok_0 is Run),
{
    law_transactions_are_batches(after, before, kind, sql, a);
    if kind is CreateTable || kind is CreateIndex || kind is Insert || kind is Update
        || kind is Delete || kind is DropTable || kind is DropIndex {
        law_changing_statements_are_kept(after, before, kind, sql, a);
        if before.txn is None {
            let v = a->Ok_0->Batch_0;
            law_what_runs_is_recovered(log, was, say, a, v);
            assert(texts(v@) =~= seq![encode_utf8(sql)]);
            let old = replayed(records_from(was.file.image(), 0));
            assert(old + seq![encode_utf8(sql)] =~= old.push(encode_utf8(sql)));
        }
    } else if kind is Commit && before.txn is Some {
        let v = a->Ok_0->Batch_0;
        law_what_runs_is_recovered(log, was, say, a, v);
        assert(texts(v@) =~= Seq::new(
            before.txn->0@.len(),
            |i: int| encode_utf8(before.txn->0@[i]@),
        ));
    }
}

// ---- compaction ----

/// Table `t` holds these rows, as they were decoded.
pub open spec fn lists_as<P: Pager, D: Fn(&Schema, &Vec<u8>) -> Result<Vec<Value>, ExecError>>(
    db: &Database<P>,
    decode: D,
    t: int,
    rows: Seq<(Rid, Vec<u8>)>,
    list: Seq<Vec<Value>>,
) -> bool {
    let d = db.tables@[t];
    &&& lists(table_data(db.stored(), d.tid), rec_views(rows))
    &&& list.len() == rows.len()
    &&& all_decoded(decode, &d.schema, rows, list)
}

pub open spec fn all_decoded<D: Fn(&Schema, &Vec<u8>) -> Result<Vec<Value>, ExecError>>(
    decode: D,
    schema: &Schema,
    rows: Seq<(Rid, Vec<u8>)>,
    list: Seq<Vec<Value>>,
) -> bool {
    forall|i: int|
        0 <= i < list.len() ==> decode.ensures((schema, &rows[i].1), Ok(#[trigger] list[i]))
}

pub open spec fn table_loaded<
    P: Pager,
    D: Fn(&Schema, &Vec<u8>) -> Result<Vec<Value>, ExecError>,
>(db: &Database<P>, decode: D, t: int, list: Seq<Vec<Value>>) -> bool {
    exists|rows: Seq<(Rid, Vec<u8>)>| #[trigger] lists_as(db, decode, t, rows, list)
}

/// The row of table `t` behind those of `list` does not decode.
pub open spec fn sticks<P: Pager, D: Fn(&Schema, &Vec<u8>) -> Result<Vec<Value>, ExecError>>(
    db: &Database<P>,
    decode: D,
    t: int,
    rows: Seq<(Rid, Vec<u8>)>,
    list: Seq<Vec<Value>>,
    e: ExecError,
) -> bool {
    let d = db.tables@[t];
    &&& lists(table_data(db.stored(), d.tid), rec_views(rows))
    &&& list.len() < rows.len()
    &&& all_decoded(decode, &d.schema, rows, list)
    &&& decode.ensures((&d.schema, &rows[list.len() as int].1), Err(e))
}

pub open spec fn table_stuck<
    P: Pager,
    D: Fn(&Schema, &Vec<u8>) -> Result<Vec<Value>, ExecError>,
>(db: &Database<P>, decode: D, t: int, e: ExecError) -> bool {
    exists|rows: Seq<(Rid, Vec<u8>)>, list: Seq<Vec<Value>>| #[trigger]
        sticks(db, decode, t, rows, list, e)
}

/// The tables load by their numbers, up to one with a row that does not decode.
pub open spec fn stuck_at<P: Pager, D: Fn(&Schema, &Vec<u8>) -> Result<Vec<Value>, ExecError>>(
    db: &Database<P>,
    decode: D,
    order: Seq<usize>,
    loads: Seq<Seq<Vec<Value>>>,
    e: ExecError,
) -> bool {
    &&& by_number(db.tables@, order)
    &&& loads.len() < order.len()
    &&& forall|k: int|
        0 <= k < loads.len() ==> table_loaded(db, decode, order[k] as int, #[trigger] loads[k])
    &&& table_stuck(db, decode, order[loads.len() as int] as int, e)
}

/// The rows of every table, as they were decoded.
pub open spec fn all_loaded<P: Pager, D: Fn(&Schema, &Vec<u8>) -> Result<Vec<Value>, ExecError>>(
    db: &Database<P>,
    decode: D,
    rows: Seq<Vec<Vec<Value>>>,
) -> bool {
    &&& rows.len() == db.tables@.len()
    &&& forall|t: int|
        0 <= t < rows.len() ==> table_loaded(db, decode, t, (#[trigger] rows[t])@)
}

/// The statements build what is stored.
pub open spec fn snapshot_of<
    P: Pager,
    D: Fn(&Schema, &Vec<u8>) -> Result<Vec<Value>, ExecError>,
    H: Fn(u64) -> String,
>(db: &Database<P>, decode: D, show: H, script: Seq<Seq<char>>) -> bool {
    exists|rows: Seq<Vec<Vec<Value>>>| #[trigger]
        all_loaded(db, decode, rows) && builds(
            show,
            db.tables@,
            row_lists(rows),
            db.indexes@,
            script,
        )
}

/// Decode rows up to the first that does not decode.
pub fn decode_rows<D: Fn(&Schema, &Vec<u8>) -> Result<Vec<Value>, ExecError>>(
    decode: &D,
    schema: &Schema,
    rows: &Vec<(Rid, Vec<u8>)>,
) -> (r: (Vec<Vec<Value>>, Option<ExecError>))
    requires
        forall|p: Vec<u8>| #[trigger] decode.requires((schema, &p)),
    ensures
        all_decoded(*decode, schema, rows@, r.0@),
        match r.1 {
            None => r.0@.len() == rows@.len(),
            Some(e) => r.0@.len() < rows@.len() && decode.ensures(
                (schema, &rows@[r.0@.len() as int].1),
                Err(e),
            ),
        },
{
    let mut list: Vec<Vec<Value>> = Vec::new();
    let mut i: usize = 0;
    while i < rows.len()
        invariant
            i <= rows@.len(),
            list@.len() == i,
            forall|p: Vec<u8>| #[trigger] decode.requires((schema, &p)),
            all_decoded(*decode, schema, rows@, list@),
        decreases rows@.len() - i,
    {
        match decode(schema, &rows[i].1) {
            Ok(values) => {
                list.push(values);
            },
            Err(e) => {
                return (list, Some(e));
            },
        }
        i = i + 1;
    }
    (list, None)
}

/// Every table has its place in the order.
proof fn lemma_each_has_a_place(ts: Seq<TableDef>, order: Seq<usize>, t: int)
    requires
        by_number(ts, order),
        0 <= t < ts.len(),
    ensures
        exists|j: int| 0 <= j < order.len() && #[trigger] order[j] == t,
{
    if forall|j: int| 0 <= j < order.len() ==> #[trigger] order[j] != t {
        let ps = order.map_values(|u: usize| u as int).push(t);
        assert forall|i: int, j: int| 0 <= i < j < ps.len() implies ps[i] != ps[j] by {
            assert(ps[i] == order[i] as int);
            if j < order.len() {
                assert(sorts_before(ts, order[i], order[j]));
            }
        }
        lemma_distinct_below(ps, ts.len() as int);
    }
}

impl<P: Pager> Database<P> {
    /// The rows of every table, decoded table by table in the order of their numbers.
    fn load_tables<D: Fn(&Schema, &Vec<u8>) -> Result<Vec<Value>, ExecError>>(
        &mut self,
        decode: &D,
    ) -> (r: Result<Vec<Vec<Vec<Value>>>, DbError>)
        requires
            old(self).ok(),
            forall|t: int, p: Vec<u8>|
                0 <= t < old(self).tables@.len() ==> #[trigger] decode.requires(
                    (&old(self).tables@[t].schema, &p),
                ),
        ensures
            final(self).ok(),
            final(self).counts == old(self).counts,
            final(self).unmoved(old(self)),
            match r {
                Ok(rows) => all_loaded(old(self), *decode, rows@),
                Err(DbError::Exec(text)) => exists|
                    order: Seq<usize>,
                    loads: Seq<Seq<Vec<Value>>>,
                    e: ExecError,
                | #[trigger]
                    stuck_at(old(self), *decode, order, loads, e) && text@ == e.text@,
                Err(e) => device(e) && !holds_out(&old(self).bp, 0),
            },
    {
        let ghost was = *self;
        let order: Vec<usize> = sort_tables(&self.tables);
        let n: usize = order.len();
        let mut rows: Vec<Vec<Vec<Value>>> = Vec::new();
        let mut i: usize = 0;
        while i < n
            invariant
                i <= n,
                rows@.len() == i,
            decreases n - i,
        {
            rows.push(Vec::new());
            i = i + 1;
        }
        let ghost mut done: Seq<Seq<Vec<Value>>> = Seq::empty();
        let mut k: usize = 0;
        while k < n
            invariant
                k <= n == order@.len(),
                n == was.tables@.len(),
                rows@.len() == n,
                by_number(was.tables@, order@),
                was == *old(self),
                self.ok(),
                self.counts == was.counts,
                self.unmoved(&was),
                done.len() == k,
                forall|t: int, p: Vec<u8>|
                    0 <= t < was.tables@.len() ==> #[trigger] decode.requires(
                        (&was.tables@[t].schema, &p),
                    ),
                forall|j: int|
                    0 <= j < k ==> table_loaded(
                        &was,
                        *decode,
                        order@[j] as int,
                        #[trigger] done[j],
                    ),
                forall|j: int|
                    0 <= j < k ==> table_loaded(
                        &was,
                        *decode,
                        (#[trigger] order@[j]) as int,
                        rows@[order@[j] as int]@,
                    ),
            decreases n - k,
        {
            let t: usize = order[k];
            let tid: u16 = self.tables[t].tid;
            proof {
                self.lemma_unmoved_same(&was);
            }
            let stored: Vec<(Rid, Vec<u8>)> = match self.scan_table(tid) {
                Ok(v) => v,
                Err(e) => {
                    return Err(e);
                },
            };
            let (list, flaw) = decode_rows(decode, &self.tables[t].schema, &stored);
            if let Some(e) = flaw {
                proof {
                    assert(sticks(&was, *decode, t as int, stored@, list@, e));
                    assert(stuck_at(&was, *decode, order@, done, e));
                }
                return Err(DbError::Exec(e.text));
            }
            proof {
                assert(lists_as(&was, *decode, t as int, stored@, list@));
                done = done.push(list@);
            }
            let ghost before = rows@;
            rows.set(t, list);
            proof {
                assert forall|j: int| 0 <= j < k + 1 implies table_loaded(
                    &was,
                    *decode,
                    (#[trigger] order@[j]) as int,
                    rows@[order@[j] as int]@,
                ) by {
                    if j < k {
                        assert(sorts_before(was.tables@, order@[j], order@[k as int]));
                        assert(rows@[order@[j] as int] == before[order@[j] as int]);
                    }
                }
            }
            k = k + 1;
        }
        proof {
            assert forall|t: int| 0 <= t < rows@.len() implies table_loaded(
                &was,
                *decode,
                t,
                (#[trigger] rows@[t])@,
            ) by {
                lemma_each_has_a_place(was.tables@, order@, t);
                let j = choose|j: int| 0 <= j < order@.len() && #[trigger] order@[j] == t;
                assert(order@[j] as int == t);
            }
        }
        Ok(rows)
    }
}

/// What a compaction came to: the log got the statements that build what is stored, or what
/// is stored or the log failed.
pub open spec fn compacted<
    P: Pager,
    F: BlockFile,
    D: Fn(&Schema, &Vec<u8>) -> Result<Vec<Value>, ExecError>,
    H: Fn(u64) -> String,
    S: Fn(&IoError) -> String,
>(
    db: &Database<P>,
    log: &StmtLog<F>,
    before: &StmtLog<F>,
    decode: D,
    show: H,
    say: S,
    r: Result<(), DbError>,
) -> bool {
    match r {
        Ok(()) => exists|script: Vec<String>| #[trigger]
            snapshot_of(db, decode, show, lines(script@)) && extended(
                log,
                before,
                compaction(texts(script@)),
            ),
        Err(x) => {
            ||| *log == *before && device(x) && !holds_out(&db.bp, 0)
            ||| *log == *before && exists|
                order: Seq<usize>,
                loads: Seq<Seq<Vec<Value>>>,
                e: ExecError,
            | #[trigger]
                stuck_at(db, decode, order, loads, e) && says(x, e.text@)
            ||| log_failed(log, before, say, "compact: "@, x)
        },
    }
}

impl<P: Pager> Database<P> {
    /// Write the statements that build what is stored to the log, from which recovery then
    /// starts. `logged` says whether there is a log.
    pub fn compact<
        F: BlockFile,
        D: Fn(&Schema, &Vec<u8>) -> Result<Vec<Value>, ExecError>,
        H: Fn(u64) -> String,
        S: Fn(&IoError) -> String,
    >(
        &mut self,
        logged: bool,
        log: &mut StmtLog<F>,
        decode: &D,
        show: &H,
        say: &S,
    ) -> (r: Result<(), DbError>)
        requires
            old(self).ok(),
            shows(*show),
            forall|e: IoError| #[trigger] say.requires((&e,)),
            forall|t: int, p: Vec<u8>|
                0 <= t < old(self).tables@.len() ==> #[trigger] decode.requires(
                    (&old(self).tables@[t].schema, &p),
                ),
            forall|i: int, j: int|
                0 <= i < old(self).indexes@.len() && 0 <= j < old(self).tables@.len() && (
                #[trigger] old(self).indexes@[i]).table_id == (#[trigger] old(self).tables@[j]).tid
                    ==> old(self).indexes@[i].col_index < old(self).tables@[j].schema.columns@.len(),
            forall|script: Vec<String>| #[trigger]
                snapshot_of(old(self), *decode, *show, lines(script@)) ==> room_for(
                    old(log),
                    compaction(texts(script@)),
                ),
        ensures
            final(self).ok(),
            final(self).counts == old(self).counts,
            final(self).unmoved(old(self)),
            if logged {
                compacted(old(self), final(log), old(log), *decode, *show, *say, r)
            } else {
                &&& r is Err && says(r->Err_0, "compact requires logged mode"@)
                &&& *final(self) == *old(self)
                &&& *final(log) == *old(log)
            },
    {
        let ghost was = *self;
        if !logged {
            return exec_err("compact requires logged mode");
        }
        let rows: Vec<Vec<Vec<Value>>> = match self.load_tables(decode) {
            Ok(v) => v,
            Err(e) => {
                return Err(e);
            },
        };
        let script: Vec<String> = snapshot_script(&self.tables, &rows, &self.indexes, show);
        let records: Vec<Vec<u8>> = compaction_records(&script);
        proof {
            assert(all_loaded(&was, *decode, rows@));
            assert(snapshot_of(&was, *decode, *show, lines(script@)));
            assert(recs(records@).len() == records@.len());
        }
        write_records(log, &records, "compact: ", say)
    }
}

/// Behind a compaction recovery runs the statements that build what was stored, and none of
/// those that came before.
pub proof fn law_compaction_is_recovered<
    P: Pager,
    F: BlockFile,
    D: Fn(&Schema, &Vec<u8>) -> Result<Vec<Value>, ExecError>,
    H: Fn(u64) -> String,
    S: Fn(&IoError) -> String,
>(
    db: &Database<P>,
    log: &StmtLog<F>,
    before: &StmtLog<F>,
    decode: D,
    show: H,
    say: S,
)
    requires
        tight(before),
        compacted(db, log, before, decode, show, say, Ok(())),
    ensures
        settled(records_from(log.file.image(), 0)),
        exists|script: Vec<String>| #[trigger]
            snapshot_of(db, decode, show, lines(script@)) && replayed(
                records_from(log.file.image(), 0),
            ) == texts(script@),
{
    let script = choose|script: Vec<String>| #[trigger]
        snapshot_of(db, decode, show, lines(script@)) && extended(
            log,
            before,
            compaction(texts(script@)),
        );
    law_text_of_string_is_readable(script@);
    law_compaction_replays_its_script(records_from(before.file.image(), 0), texts(script@));
    assert(snapshot_of(db, decode, show, lines(script@)));
}

} // verus!
