use keel::db::session::{
    append_all, batch_records, compaction_records, is_mutating, recover, stmt_record, Action,
    Session, StmtKind, REC_COMMIT, REC_SNAP_BEGIN, REC_SNAP_END, REC_STMT,
};
use keel::db::wal::StmtLog;
use keel::db::DbError;
use keel::vfs::MemDisk;

fn texts(v: &[&str]) -> Vec<String> {
    v.iter().map(|s| s.to_string()).collect()
}

fn logged(records: &[&[u8]]) -> MemDisk {
    let mut log = StmtLog::open(MemDisk::new());
    for r in records {
        log.append(r).unwrap();
    }
    log.file
}

fn replayed(disk: MemDisk) -> Vec<Vec<u8>> {
    StmtLog::open(disk).replay().unwrap()
}

#[test]
fn appended_records_are_replayed_in_order() {
    let disk = logged(&[b"one", b"", b"three"]);
    assert_eq!(
        replayed(disk),
        vec![b"one".to_vec(), Vec::new(), b"three".to_vec()]
    );
}

#[test]
fn appending_goes_on_behind_the_last_record() {
    let disk = logged(&[b"one"]);
    let mut log = StmtLog::open(disk);
    assert_eq!(log.replay().unwrap().len(), 1);
    assert_eq!(log.end, 15);
    log.append(b"two").unwrap();
    assert_eq!(
        replayed(log.file),
        vec![b"one".to_vec(), b"two".to_vec()]
    );
}

#[test]
fn a_torn_log_replays_the_records_before_the_tear() {
    let disk = logged(&[b"first", b"second", b"third"]);
    let image = disk.snapshot();
    for cut in 0..image.len() {
        let mut torn = MemDisk::new();
        torn.install(image[..cut].to_vec());
        let got = replayed(torn);
        let whole = if cut < 17 {
            0
        } else if cut < 35 {
            1
        } else {
            2
        };
        assert_eq!(got.len(), whole, "cut at {cut}");
    }
}

#[test]
fn a_damaged_record_ends_the_replay() {
    let disk = logged(&[b"first", b"second", b"third"]);
    let mut image = disk.snapshot();
    image[17 + 12] ^= 1;
    let mut damaged = MemDisk::new();
    damaged.install(image);
    assert_eq!(replayed(damaged), vec![b"first".to_vec()]);
}

#[test]
fn a_committed_batch_is_recovered() {
    let mut records = batch_records(&texts(&["a", "b"]));
    records.append(&mut batch_records(&texts(&["c"])));
    let r = recover(&records);
    assert_eq!(r.stmts, texts(&["a", "b", "c"]));
    assert!(r.error.is_none());
}

#[test]
fn a_batch_without_its_commit_is_not_recovered() {
    let mut records = batch_records(&texts(&["a"]));
    let mut second = batch_records(&texts(&["b", "c"]));
    second.pop();
    records.append(&mut second);
    let r = recover(&records);
    assert_eq!(r.stmts, texts(&["a"]));
    assert!(r.error.is_none());
}

#[test]
fn a_compaction_replaces_what_came_before() {
    let mut records = batch_records(&texts(&["old"]));
    records.append(&mut compaction_records(&texts(&["create", "fill"])));
    records.append(&mut batch_records(&texts(&["new"])));
    let r = recover(&records);
    assert_eq!(r.stmts, texts(&["create", "fill", "new"]));
}

#[test]
fn an_unfinished_compaction_changes_nothing() {
    let mut records = batch_records(&texts(&["old"]));
    let mut part = compaction_records(&texts(&["create", "fill"]));
    part.pop();
    records.append(&mut part);
    let r = recover(&records);
    assert_eq!(r.stmts, texts(&["old"]));
}

#[test]
fn unreadable_records_are_reported() {
    let says = |records: Vec<Vec<u8>>, text: &str| match recover(&records).error {
        Some(DbError::Exec(m)) => assert_eq!(m, text),
        e => panic!("unexpected {e:?}"),
    };
    says(vec![vec![REC_STMT, 0xff]], "non-utf8 log record");
    says(vec![vec![b'?']], "unknown log record kind");
    says(vec![vec![REC_SNAP_END]], "compaction end without begin");
}

#[test]
fn records_have_a_fixed_layout() {
    assert_eq!(stmt_record("ab"), vec![b'S', b'a', b'b']);
    assert_eq!(
        batch_records(&texts(&["x"])),
        vec![vec![REC_STMT, b'x'], vec![REC_COMMIT]]
    );
    assert_eq!(
        compaction_records(&texts(&["x"])),
        vec![vec![REC_SNAP_BEGIN], vec![REC_STMT, b'x'], vec![REC_SNAP_END]]
    );
}

#[test]
fn a_session_survives_a_restart() {
    let mut log = StmtLog::open(MemDisk::new());
    append_all(&mut log, &batch_records(&texts(&["create table t", "insert"]))).unwrap();
    let mut again = StmtLog::open(log.file);
    let r = recover(&again.replay().unwrap());
    assert_eq!(r.stmts, texts(&["create table t", "insert"]));
}

fn batch(a: Result<Action, DbError>) -> Vec<String> {
    match a {
        Ok(Action::Batch(v)) => v,
        _ => panic!("expected a batch"),
    }
}

#[test]
fn statements_outside_a_transaction_are_batches_of_one() {
    let mut s = Session::new(true);
    assert_eq!(
        batch(s.execute(StmtKind::Insert, "ins")),
        texts(&["ins"])
    );
    assert!(matches!(
        s.execute(StmtKind::Select, "sel"),
        Ok(Action::Dispatch)
    ));
}

#[test]
fn a_transaction_is_committed_as_one_batch() {
    let mut s = Session::new(true);
    assert!(matches!(
        s.execute(StmtKind::Begin, "begin"),
        Ok(Action::Nothing)
    ));
    assert!(matches!(
        s.execute(StmtKind::Insert, "a"),
        Ok(Action::Nothing)
    ));
    assert!(matches!(
        s.execute(StmtKind::Delete, "b"),
        Ok(Action::Nothing)
    ));
    match s.execute(StmtKind::Select, "q") {
        Ok(Action::Overlay(v)) => assert_eq!(v, texts(&["a", "b"])),
        _ => panic!("expected an overlay"),
    }
    assert_eq!(
        batch(s.execute(StmtKind::Commit, "commit")),
        texts(&["a", "b"])
    );
    assert!(s.txn.is_none());
}

#[test]
fn a_rollback_forgets_the_transaction() {
    let mut s = Session::new(true);
    s.execute(StmtKind::Begin, "begin").unwrap();
    s.execute(StmtKind::Insert, "a").unwrap();
    assert!(matches!(
        s.execute(StmtKind::Rollback, "rollback"),
        Ok(Action::Nothing)
    ));
    assert!(matches!(
        s.execute(StmtKind::Commit, "commit"),
        Ok(Action::Nothing)
    ));
}

#[test]
fn transactions_do_not_nest() {
    let mut s = Session::new(true);
    s.execute(StmtKind::Begin, "begin").unwrap();
    match s.execute(StmtKind::Begin, "begin") {
        Err(DbError::Exec(m)) => assert_eq!(m, "a transaction is already open"),
        _ => panic!("expected an error"),
    }
    assert!(s.txn.is_some());
}

#[test]
fn without_a_log_every_statement_is_dispatched() {
    let mut s = Session::new(false);
    for k in [StmtKind::Begin, StmtKind::Insert, StmtKind::Select] {
        assert!(matches!(s.execute(k, "x"), Ok(Action::Dispatch)));
    }
    assert!(is_mutating(StmtKind::Update));
    assert!(!is_mutating(StmtKind::Select));
}
