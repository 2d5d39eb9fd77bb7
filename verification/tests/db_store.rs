use keel::buffer::{BufferError, BufferPool, NoWal};
use keel::cbuffer::{PageCache, PageFormat};
use keel::db::ast::{BinOp, Expr, Node};
use keel::db::catalog::{serialize_catalog, ColumnDef, Schema, CATALOG_TID};
use keel::db::exec::ExecError;
use keel::db::gather::{gather_changes, gather_rows, gather_victims, Candidate, Outcome};
use keel::db::rows::RowChange;
use keel::db::session::Replay;
use keel::db::statement::{changed_row, insert_values, require_no_subquery};
use keel::db::store::Database;
use keel::db::DbError;
use keel::heap::{HeapError, Rid};
use keel::pager::Pager;
use keel::types::{ColumnType, Value};
use keel::vfs::MemDisk;

type Pool = BufferPool<MemDisk, NoWal>;

fn schema() -> Schema {
    Schema {
        columns: vec![
            ColumnDef {
                name: "id".into(),
                ty: ColumnType::Int,
                not_null: true,
            },
            ColumnDef {
                name: "name".into(),
                ty: ColumnType::Varchar(60000),
                not_null: false,
            },
        ],
    }
}

/// A row and the bytes it is stored as.
fn row(id: i32, name: &str) -> (Vec<Value>, Vec<u8>) {
    let mut bytes = id.to_le_bytes().to_vec();
    bytes.extend_from_slice(name.as_bytes());
    (vec![Value::Int(id), Value::Text(name.into())], bytes)
}

fn id_of(payload: &[u8]) -> i32 {
    i32::from_le_bytes(payload[..4].try_into().unwrap())
}

fn ids(rows: &[(Rid, Vec<u8>)]) -> Vec<i32> {
    rows.iter().map(|(_, p)| id_of(p)).collect()
}

fn fresh() -> Database<Pool> {
    let bp = BufferPool::open_default(MemDisk::new(), 16).unwrap();
    Database::with_pager(bp).unwrap()
}

/// The rows of a table with what one column holds.
fn column<P: Pager>(db: &mut Database<P>, tid: u16) -> Vec<(Rid, Value)> {
    db.scan_table(tid)
        .unwrap()
        .into_iter()
        .map(|(r, p)| (r, Value::Int(id_of(&p))))
        .collect()
}

fn fill<P: Pager>(db: &mut Database<P>, tid: u16, n: i32) -> Vec<Rid> {
    let rows: Vec<(Vec<Value>, Vec<u8>)> = (0..n).map(|i| row(i, &format!("row-{i}"))).collect();
    db.insert_rows(tid, &rows).unwrap()
}

#[test]
fn a_new_database_is_empty() {
    let db = fresh();
    assert!(db.table_names().is_empty());
    assert!(db.indexes.is_empty());
    assert_eq!(db.next_tid, 2);
}

#[test]
fn tables_are_numbered_and_named_once() {
    let mut db = fresh();
    assert_eq!(db.create_table(&"a".to_string(), schema()).unwrap(), 2);
    assert_eq!(db.create_table(&"b".to_string(), schema()).unwrap(), 3);
    match db.create_table(&"a".to_string(), schema()) {
        Err(DbError::Exec(m)) => assert_eq!(m, "table 'a' already exists"),
        _ => panic!("expected an error"),
    }
    assert_eq!(db.table_names(), vec!["a", "b"]);
    match db.find_table(&"c".to_string()) {
        Err(DbError::Exec(m)) => assert_eq!(m, "no such table 'c'"),
        _ => panic!("expected an error"),
    }
    assert_eq!(db.find_table(&"b".to_string()).unwrap(), 1);
}

#[test]
fn rows_are_scanned_by_table() {
    let mut db = fresh();
    let a = db.create_table(&"a".to_string(), schema()).unwrap();
    let b = db.create_table(&"b".to_string(), schema()).unwrap();
    fill(&mut db, a, 5);
    db.insert_rows(b, &vec![row(99, "other")]).unwrap();
    assert_eq!(ids(&db.scan_table(a).unwrap()), vec![0, 1, 2, 3, 4]);
    assert_eq!(ids(&db.scan_table(b).unwrap()), vec![99]);
}

fn exercise<P: Pager>(db: &mut Database<P>) -> Vec<Vec<i32>> {
    let t = db.create_table(&"t".to_string(), schema()).unwrap();
    let u = db.create_table(&"u".to_string(), schema()).unwrap();
    fill(db, u, 50);
    let rids = fill(db, t, 600);
    let rows = column(db, t);
    db.create_index(&"by_id".to_string(), t, 0, ColumnType::Int, &rows)
        .unwrap();
    fill(db, u, 10);

    let mut seen = Vec::new();
    let look = |db: &mut Database<P>, op: BinOp, v: i32| {
        ids(&db.index_rows(0, t, op, &Value::Int(v)).unwrap())
    };
    seen.push(look(db, BinOp::Eq, 77));
    seen.push(look(db, BinOp::Lt, 3));
    seen.push(look(db, BinOp::Ge, 598));

    // New rows, enough of them to move the root of the tree.
    let more: Vec<(Vec<Value>, Vec<u8>)> = (600..1200).map(|i| row(i, "more")).collect();
    db.insert_rows(t, &more).unwrap();
    seen.push(look(db, BinOp::Gt, 1197));

    // Replaced rows are found by their new values only.
    let work: Vec<RowChange> = (0..50)
        .map(|i| {
            let (old_row, _) = row(i, &format!("row-{i}"));
            let (new_row, payload) = row(5000 + i, &"x".repeat(200));
            RowChange {
                rid: rids[i as usize],
                old_row,
                new_row,
                payload,
            }
        })
        .collect();
    assert_eq!(db.update_rows(t, &work).unwrap(), 50);
    seen.push(look(db, BinOp::Lt, 52));
    seen.push(look(db, BinOp::Ge, 5047));

    // Deleted rows are not found.
    let victims: Vec<(Rid, Vec<Value>)> = (100..200)
        .map(|i| (rids[i as usize], row(i, "").0))
        .collect();
    assert_eq!(db.delete_rows(t, &victims).unwrap(), 100);
    seen.push(look(db, BinOp::Eq, 150));
    let mut rest: Vec<i32> = ids(&db.scan_table(t).unwrap());
    rest.sort();
    let mut expected: Vec<i32> = (50..100)
        .chain(200..1200)
        .chain(5000..5050)
        .collect();
    expected.sort();
    assert_eq!(rest, expected);
    let mut by_index = look(db, BinOp::Ge, i32::MIN);
    by_index.sort();
    assert_eq!(by_index, expected);
    assert_eq!(db.scan_table(u).unwrap().len(), 60);
    seen
}

#[test]
fn indexes_follow_the_rows() {
    let seen = exercise(&mut fresh());
    assert_eq!(
        seen,
        vec![
            vec![77],
            vec![0, 1, 2],
            vec![598, 599],
            vec![1198, 1199],
            vec![50, 51],
            vec![5047, 5048, 5049],
            vec![],
        ]
    );
}

#[test]
fn both_pools_hold_the_same_database() {
    let cache = PageCache::open_formatted(MemDisk::new(), 16, NoWal, PageFormat::keel_page());
    let mut other = Database::with_pager(cache).unwrap();
    assert_eq!(exercise(&mut other), exercise(&mut fresh()));
}

#[test]
fn a_reopened_database_has_its_tables_rows_and_indexes() {
    let mut db = fresh();
    let t = db.create_table(&"t".to_string(), schema()).unwrap();
    fill(&mut db, t, 300);
    let rows = column(&mut db, t);
    db.create_index(&"by_id".to_string(), t, 0, ColumnType::Int, &rows)
        .unwrap();
    let more: Vec<(Vec<Value>, Vec<u8>)> = (300..900).map(|i| row(i, "more")).collect();
    db.insert_rows(t, &more).unwrap();
    let root = db.indexes[0].root;
    db.bp.checkpoint().unwrap();

    let bp = BufferPool::open_default(db.bp.file, 16).unwrap();
    let mut again = Database::with_pager(bp).unwrap();
    assert_eq!(again.table_names(), vec!["t"]);
    assert_eq!(again.tables[0].tid, t);
    assert_eq!(again.next_tid, t + 1);
    assert_eq!(again.indexes.len(), 1);
    assert_eq!(again.indexes[0].name, "by_id");
    assert_eq!(again.indexes[0].root, root);
    assert_eq!(again.scan_table(t).unwrap().len(), 900);
    assert_eq!(
        ids(&again.index_rows(0, t, BinOp::Eq, &Value::Int(777)).unwrap()),
        vec![777]
    );
}

#[test]
fn dropping_an_index_keeps_the_rows() {
    let mut db = fresh();
    let t = db.create_table(&"t".to_string(), schema()).unwrap();
    fill(&mut db, t, 20);
    let rows = column(&mut db, t);
    db.create_index(&"i".to_string(), t, 0, ColumnType::Int, &rows)
        .unwrap();
    match db.drop_index(&"j".to_string()) {
        Err(DbError::Exec(m)) => assert_eq!(m, "no such index 'j'"),
        _ => panic!("expected an error"),
    }
    db.drop_index(&"i".to_string()).unwrap();
    assert!(db.indexes.is_empty());
    assert_eq!(db.scan_table(t).unwrap().len(), 20);
    let (_, all) = db.scan_records().unwrap();
    assert_eq!(all.len(), 21);
}

#[test]
fn dropping_a_table_takes_its_rows_and_indexes() {
    let mut db = fresh();
    let t = db.create_table(&"t".to_string(), schema()).unwrap();
    let u = db.create_table(&"u".to_string(), schema()).unwrap();
    fill(&mut db, t, 20);
    fill(&mut db, u, 7);
    let rows = column(&mut db, t);
    db.create_index(&"i".to_string(), t, 0, ColumnType::Int, &rows)
        .unwrap();
    let rows = column(&mut db, u);
    db.create_index(&"k".to_string(), u, 0, ColumnType::Int, &rows)
        .unwrap();
    db.drop_table(&"t".to_string()).unwrap();
    assert_eq!(db.table_names(), vec!["u"]);
    assert_eq!(db.indexes.len(), 1);
    assert_eq!(db.indexes[0].name, "k");
    assert!(db.scan_table(t).unwrap().is_empty());
    assert_eq!(db.scan_table(u).unwrap().len(), 7);
    assert_eq!(
        ids(&db.index_rows(0, u, BinOp::Eq, &Value::Int(3)).unwrap()),
        vec![3]
    );
    assert!(matches!(
        db.drop_table(&"t".to_string()),
        Err(DbError::Exec(m)) if m == "no such table 't'"
    ));
}

#[test]
fn a_row_longer_than_a_page_is_refused() {
    let mut db = fresh();
    let t = db.create_table(&"t".to_string(), schema()).unwrap();
    let r = db.insert_rows(t, &vec![row(1, "ok"), row(2, &"x".repeat(9000))]);
    assert!(matches!(
        r,
        Err(DbError::Heap(HeapError::RecordTooLarge))
    ));
    assert_eq!(ids(&db.scan_table(t).unwrap()), vec![1]);
}

#[test]
fn a_key_longer_than_a_node_is_refused() {
    let mut db = fresh();
    let t = db.create_table(&"t".to_string(), schema()).unwrap();
    db.create_index(
        &"by_name".to_string(),
        t,
        1,
        ColumnType::Varchar(60000),
        &vec![],
    )
    .unwrap();
    let (values, _) = row(1, &"x".repeat(8200));
    match db.insert_rows(t, &vec![(values, vec![1, 0, 0, 0])]) {
        Err(DbError::Exec(m)) => assert_eq!(m, "entry too large for a node"),
        _ => panic!("expected an error"),
    }
}

fn failed(text: &str) -> Result<Value, ExecError> {
    Err(ExecError { text: text.into() })
}

#[test]
fn inserted_values_are_put_in_their_columns() {
    let r = insert_values(3, &vec![2, 0], vec![Ok(Value::Int(1)), Ok(Value::Bool(true))]);
    assert_eq!(
        r.unwrap(),
        vec![Value::Bool(true), Value::Null, Value::Int(1)]
    );
    match insert_values(3, &vec![2, 0], vec![Ok(Value::Int(1))]) {
        Err(DbError::Exec(m)) => {
            assert_eq!(m, "INSERT value count does not match column count")
        }
        _ => panic!("expected an error"),
    }
    match insert_values(2, &vec![0, 1], vec![failed("first"), failed("second")]) {
        Err(DbError::Exec(m)) => assert_eq!(m, "first"),
        _ => panic!("expected an error"),
    }
}

#[test]
fn changed_rows_keep_the_other_columns() {
    let s = schema();
    let (old, _) = row(1, "a");
    let r = changed_row(&s, &old, &vec![1], vec![Ok(Value::Null)]);
    assert_eq!(r.unwrap(), vec![Value::Int(1), Value::Null]);
    match changed_row(&s, &old, &vec![0], vec![Ok(Value::Null)]) {
        Err(DbError::Exec(m)) => assert_eq!(m, "NULL in NOT NULL column 'id'"),
        _ => panic!("expected an error"),
    }
    match changed_row(&s, &old, &vec![0, 1], vec![failed("no"), Ok(Value::Null)]) {
        Err(DbError::Exec(m)) => assert_eq!(m, "no"),
        _ => panic!("expected an error"),
    }
}

#[test]
fn changes_cannot_ask_other_queries() {
    assert!(require_no_subquery(&Expr::lit(Value::Int(1))).is_ok());
    let sub = Expr {
        node: Node::Subquery(0),
        kids: vec![],
    };
    assert!(require_no_subquery(&sub).is_err());
}

#[test]
fn persists_and_reopens() {
    let accounts = || Schema {
        columns: vec![
            ColumnDef {
                name: "id".into(),
                ty: ColumnType::Int,
                not_null: false,
            },
            ColumnDef {
                name: "bal".into(),
                ty: ColumnType::BigInt,
                not_null: false,
            },
        ],
    };
    let account = |id: i32, bal: i64| {
        let mut bytes = id.to_le_bytes().to_vec();
        bytes.extend_from_slice(&bal.to_le_bytes());
        (vec![Value::Int(id), Value::BigInt(bal)], bytes)
    };
    let image = {
        let mut db = Database::open(MemDisk::new(), 32).unwrap();
        let r = db.create_table(&"acct".to_string(), accounts());
        let t = db.end_statement(r, false).unwrap();
        let r = db.insert_rows(t, &vec![account(1, 100), account(2, 200), account(3, 300)]);
        db.end_statement(r, false).unwrap();
        db.bp.file.snapshot()
    };
    let mut disk = MemDisk::new();
    disk.install(image);
    let mut db = Database::open(disk, 32).unwrap();
    assert_eq!(db.table_names(), vec!["acct"]);
    let i = db.find_table(&"acct".to_string()).unwrap();
    let tid = db.tables[i].tid;
    let sum: i64 = db
        .scan_table(tid)
        .unwrap()
        .iter()
        .map(|(_, p)| i64::from_le_bytes(p[4..12].try_into().unwrap()))
        .sum();
    assert_eq!(sum, 600);
}

#[test]
fn table_names_are_sorted() {
    let mut db = fresh();
    for n in ["pear", "apple", "fig", "Zoo", "appl"] {
        db.create_table(&n.to_string(), schema()).unwrap();
    }
    assert_eq!(db.table_names(), vec!["Zoo", "appl", "apple", "fig", "pear"]);
}

#[test]
fn a_logged_statement_is_left_to_the_log() {
    let mut db = Database::open(MemDisk::new(), 32).unwrap();
    let before = db.bp.file.snapshot();
    db.create_table(&"t".to_string(), schema()).unwrap();
    db.persist(true).unwrap();
    assert_eq!(db.bp.file.snapshot(), before);
    db.persist(false).unwrap();
    assert_ne!(db.bp.file.snapshot(), before);
}

#[test]
fn a_flawed_definition_names_its_flaw() {
    let mut db = Database::open(MemDisk::new(), 32).unwrap();
    db.create_table(&"tab".to_string(), schema()).unwrap();
    db.persist(false).unwrap();
    let mut image = db.bp.file.snapshot();
    let at = image.windows(3).position(|w| w == b"tab").unwrap();
    image[at] = 0xFF;
    let mut page: Vec<u8> = image[..8192].to_vec();
    page[0..4].copy_from_slice(&[0; 4]);
    let sum = keel::page::crc::crc32(&page[4..]);
    image[0..4].copy_from_slice(&sum.to_le_bytes());
    let mut disk = MemDisk::new();
    disk.install(image);
    match Database::open(disk, 32) {
        Err(DbError::Exec(m)) => assert_eq!(m, "bad catalog utf8"),
        Err(e) => panic!("unexpected error {}", e.text("")),
        Ok(_) => panic!("expected an error"),
    }
}

fn err(m: &str) -> ExecError {
    ExecError { text: m.to_string() }
}

fn candidate(slot: u16, id: i32, matched: Result<bool, ExecError>) -> Candidate {
    Candidate {
        rid: Rid::new(0, slot),
        row: Ok(row(id, "a").0),
        matched,
    }
}

fn outcome(id: i32) -> Outcome {
    Outcome {
        vals: vec![Ok(Value::Int(id))],
        payload: Ok(row(id, "a").1),
    }
}

#[test]
fn an_update_is_evaluated_before_it_writes() {
    let (ws, end) = gather_changes(
        &schema(),
        &vec![0],
        vec![
            candidate(0, 1, Ok(true)),
            candidate(1, 2, Ok(false)),
            candidate(2, 3, Ok(true)),
        ],
        vec![outcome(11), outcome(12), outcome(13)],
    )
    .unwrap();
    assert!(end.is_none());
    assert_eq!(ws.len(), 2);
    assert_eq!(ws[0].rid, Rid::new(0, 0));
    assert_eq!(ws[0].old_row[0], Value::Int(1));
    assert_eq!(ws[0].new_row[0], Value::Int(11));
    assert_eq!(ws[1].rid, Rid::new(0, 2));
    assert_eq!(ws[1].new_row[0], Value::Int(13));
    assert_eq!(ws[1].payload, row(13, "a").1);

    let r = gather_changes(
        &schema(),
        &vec![0],
        vec![
            candidate(0, 1, Ok(true)),
            candidate(1, 2, Err(err("first"))),
            candidate(2, 3, Err(err("second"))),
        ],
        vec![outcome(11), outcome(12), outcome(13)],
    );
    match r {
        Err(DbError::Exec(m)) => assert_eq!(m, "first"),
        _ => panic!("expected an error"),
    }

    let r = gather_changes(
        &schema(),
        &vec![0],
        vec![candidate(0, 1, Ok(true))],
        vec![Outcome {
            vals: vec![Ok(Value::Null)],
            payload: Ok(vec![]),
        }],
    );
    match r {
        Err(DbError::Exec(m)) => assert_eq!(m, "NULL in NOT NULL column 'id'"),
        _ => panic!("expected an error"),
    }
}

#[test]
fn an_update_stops_writing_at_a_row_that_cannot_be_encoded() {
    let (ws, end) = gather_changes(
        &schema(),
        &vec![0],
        vec![
            candidate(0, 1, Ok(true)),
            candidate(1, 2, Ok(true)),
            candidate(2, 3, Ok(true)),
        ],
        vec![
            outcome(11),
            Outcome {
                vals: vec![Ok(Value::Int(12))],
                payload: Err(err("no room")),
            },
            outcome(13),
        ],
    )
    .unwrap();
    assert_eq!(ws.len(), 1);
    match end {
        Some(DbError::Exec(m)) => assert_eq!(m, "no room"),
        _ => panic!("expected an error"),
    }
}

#[test]
fn a_delete_is_filtered_before_it_deletes() {
    let vs = gather_victims(vec![
        candidate(0, 1, Ok(true)),
        candidate(1, 2, Ok(false)),
        candidate(2, 3, Ok(true)),
    ])
    .unwrap();
    let rids: Vec<Rid> = vs.iter().map(|v| v.0).collect();
    assert_eq!(rids, vec![Rid::new(0, 0), Rid::new(0, 2)]);
    let r = gather_victims(vec![
        candidate(0, 1, Ok(true)),
        Candidate {
            rid: Rid::new(0, 1),
            row: Err(err("torn")),
            matched: Ok(true),
        },
    ]);
    match r {
        Err(DbError::Exec(m)) => assert_eq!(m, "torn"),
        _ => panic!("expected an error"),
    }
}

#[test]
fn an_insert_keeps_the_rows_before_an_error() {
    let full = |id: i32| Outcome {
        vals: vec![Ok(Value::Int(id)), Ok(Value::Text("a".into()))],
        payload: Ok(row(id, "a").1),
    };
    let (rows, end) = gather_rows(2, &vec![0, 1], vec![full(1), full(2)]);
    assert_eq!(rows, vec![row(1, "a"), row(2, "a")]);
    assert!(end.is_none());
    let short = Outcome {
        vals: vec![Ok(Value::Int(9))],
        payload: Ok(vec![]),
    };
    let (rows, end) = gather_rows(2, &vec![0, 1], vec![full(1), short, full(3)]);
    assert_eq!(rows, vec![row(1, "a")]);
    match end {
        Some(DbError::Exec(m)) => assert_eq!(m, "INSERT value count does not match column count"),
        _ => panic!("expected an error"),
    }
}

fn exec_text<T>(r: Result<T, DbError>) -> String {
    match r {
        Err(DbError::Exec(m)) => m,
        Err(e) => panic!("unexpected error {}", e.text("")),
        Ok(_) => panic!("expected an error"),
    }
}

/// The rows of a table as a statement that takes those with an odd id sees them.
fn odd_rows(db: &mut Database<Pool>, tid: u16) -> Vec<Candidate> {
    db.scan_table(tid)
        .unwrap()
        .into_iter()
        .map(|(rid, p)| Candidate {
            rid,
            row: Ok(row(id_of(&p), "a").0),
            matched: Ok(id_of(&p) % 2 == 1),
        })
        .collect()
}

fn new_row(id: i32) -> Outcome {
    let (vals, payload) = row(id, "a");
    Outcome {
        vals: vals.into_iter().map(Ok).collect(),
        payload: Ok(payload),
    }
}

#[test]
fn whole_statements_change_rows_and_are_durable() {
    let mut db = fresh();
    let name = "t".to_string();
    let t = db.create_table(&name, schema()).unwrap();
    db.create_index(&"i".to_string(), t, 0, ColumnType::Int, &vec![]).unwrap();
    let before = db.bp.file.snapshot();
    db.insert_statement(&name, &None, (0..4).map(new_row).collect(), true).unwrap();
    assert_eq!(db.bp.file.snapshot(), before, "a logged statement is left to the log");
    db.insert_statement(&name, &None, vec![new_row(4)], false).unwrap();
    assert_ne!(db.bp.file.snapshot(), before);
    assert_eq!(ids(&db.scan_table(t).unwrap()), vec![0, 1, 2, 3, 4]);
    assert_eq!(ids(&db.index_rows(0, t, BinOp::Ge, &Value::Int(3)).unwrap()), vec![3, 4]);

    let rows = odd_rows(&mut db, t);
    let outs: Vec<Outcome> = rows
        .iter()
        .map(|c| {
            let id = match &c.row {
                Ok(r) => match r[0] {
                    Value::Int(i) => i + 10,
                    _ => 0,
                },
                Err(_) => 0,
            };
            outcome(id)
        })
        .collect();
    let asg = vec![("id".to_string(), Expr::lit(Value::Int(0)))];
    assert_eq!(db.update_statement(&name, &None, &asg, rows, outs, false).unwrap(), 2);
    assert_eq!(ids(&db.scan_table(t).unwrap()), vec![0, 11, 2, 13, 4]);

    let rows = odd_rows(&mut db, t);
    assert_eq!(db.delete_statement(&name, &None, rows, false).unwrap(), 2);
    let mut disk = MemDisk::new();
    disk.install(db.bp.file.snapshot());
    let mut again = Database::open(disk, 16).unwrap();
    assert_eq!(ids(&again.scan_table(t).unwrap()), vec![0, 2, 4]);
    assert_eq!(ids(&again.index_rows(0, t, BinOp::Ge, &Value::Int(1)).unwrap()), vec![2, 4]);
}

#[test]
fn a_statement_names_what_keeps_it_from_running() {
    let mut db = fresh();
    let name = "t".to_string();
    let t = db.create_table(&name, schema()).unwrap();
    fill(&mut db, t, 2);
    let away = "away".to_string();
    let query = Expr {
        node: Node::Subquery(0),
        kids: vec![],
    };
    let ask = Some(query);
    assert_eq!(
        exec_text(db.insert_statement(&away, &None, vec![], true)),
        "no such table 'away'"
    );
    assert_eq!(
        exec_text(db.insert_statement(&name, &Some(vec!["id".into(), "nope".into()]), vec![], true)),
        "no column 'nope'"
    );
    assert_eq!(
        exec_text(db.insert_statement(&name, &Some(vec!["id".into()]), vec![new_row(9)], true)),
        "INSERT value count does not match column count"
    );
    assert_eq!(
        exec_text(db.delete_statement(&away, &ask, vec![], true)),
        "no such table 'away'"
    );
    assert_eq!(
        exec_text(db.delete_statement(&name, &ask, vec![], true)),
        "subqueries are not supported in DELETE/UPDATE (yet)"
    );
    assert_eq!(
        exec_text(db.update_statement(&name, &ask, &vec![], vec![], vec![], true)),
        "subqueries are not supported in DELETE/UPDATE (yet)"
    );
    let asg = vec![
        ("id".to_string(), Expr::lit(Value::Int(0))),
        ("nope".to_string(), Expr::lit(Value::Int(0))),
    ];
    assert_eq!(
        exec_text(db.update_statement(&name, &None, &asg, vec![], vec![], true)),
        "no column 'nope'"
    );
    let mut rows = odd_rows(&mut db, t);
    rows[1].matched = Err(err("no such column"));
    assert_eq!(
        exec_text(db.delete_statement(&name, &None, rows, true)),
        "no such column"
    );
    assert_eq!(ids(&db.scan_table(t).unwrap()), vec![0, 1]);
    let mut bad = new_row(3);
    bad.payload = Err(err("too wide"));
    assert_eq!(
        exec_text(db.insert_statement(&name, &None, vec![new_row(2), bad, new_row(4)], true)),
        "too wide"
    );
    assert_eq!(ids(&db.scan_table(t).unwrap()), vec![0, 1, 2], "the rows before it stay");
}

#[test]
fn shorter_ways_and_replays_are_counted() {
    let mut db = fresh();
    let t = db.create_table(&"t".to_string(), schema()).unwrap();
    db.create_index(&"i".to_string(), t, 0, ColumnType::Int, &vec![]).unwrap();
    assert_eq!(db.index_lookups(), 0);
    db.index_rows(0, t, BinOp::Eq, &Value::Int(3)).unwrap();
    db.scan_table(t).unwrap();
    assert_eq!(db.index_lookups(), 1);
    assert_eq!(db.streamed(Some(Ok(7)), true, false).unwrap(), Some(7));
    assert_eq!(db.streamed(Some(Ok(8)), true, true).unwrap(), Some(8));
    assert_eq!(db.streamed(Some(Ok(9)), false, true).unwrap(), Some(9));
    assert_eq!(db.streamed::<i32>(None, true, true).unwrap(), None);
    assert_eq!(exec_text(db.streamed::<i32>(Some(Err(err("no"))), true, true)), "no");
    assert_eq!((db.join_streams(), db.agg_streams()), (2, 2));
    let replay = |n: usize, error: Option<DbError>| Replay {
        stmts: vec!["x".to_string(); n],
        error,
    };
    db.note_replayed(&replay(3, None));
    assert_eq!(db.replay_count(), 3);
    db.note_replayed(&replay(5, Some(DbError::Exec("bad".into()))));
    assert_eq!(db.replay_count(), 3);
}

#[test]
fn damage_and_faults_keep_a_database_from_opening() {
    let mut db = fresh();
    let t = db.create_table(&"t".to_string(), schema()).unwrap();
    let rows: Vec<(Vec<Value>, Vec<u8>)> = (0..3).map(|i| row(i, &"x".repeat(5000))).collect();
    db.insert_rows(t, &rows).unwrap();
    db.persist(false).unwrap();
    let good = db.bp.file.snapshot();
    let open = |image: Vec<u8>| {
        let mut disk = MemDisk::new();
        disk.install(image);
        Database::open(disk, 16)
    };
    assert!(open(good.clone()).is_ok());
    let mut image = good.clone();
    image[8192 + 5000] ^= 1;
    assert!(matches!(
        open(image),
        Err(DbError::Heap(HeapError::Buffer(BufferError::Corrupt(1))))
    ));
    let mut image = good;
    let page = image.len() / 8192 - 1;
    let at = page * 8192;
    let end = at + 8192 - 5007;
    assert_eq!(image[end], 0, "the tag of the only record of the last page");
    image[end] = 9;
    let sum = keel::page::crc::crc32(&image[at + 4..at + 8192]);
    image[at..at + 4].copy_from_slice(&sum.to_le_bytes());
    assert!(matches!(
        open(image),
        Err(DbError::Heap(HeapError::BadTag(9)))
    ));
}

#[test]
fn a_pool_that_may_not_steal_serves_while_its_frames_last() {
    let mut bp = BufferPool::open_default(MemDisk::new(), 64).unwrap();
    bp.set_no_steal();
    let mut db = Database::with_pager(bp).unwrap();
    let t = db.create_table(&"t".to_string(), schema()).unwrap();
    let rids = fill(&mut db, t, 300);
    let keys = column(&mut db, t);
    db.create_index(&"i".to_string(), t, 0, ColumnType::Int, &keys).unwrap();
    let (old_row, _) = row(7, "row-7");
    let (new_row, payload) = row(1007, "moved");
    let change = RowChange {
        rid: rids[7],
        old_row,
        new_row,
        payload,
    };
    assert_eq!(db.update_rows(t, &vec![change]).unwrap(), 1);
    assert_eq!(ids(&db.index_rows(0, t, BinOp::Ge, &Value::Int(299)).unwrap()), vec![299, 1007]);
    assert_eq!(db.bp.file.snapshot().len(), 0, "nothing was written");

    let mut bp = BufferPool::open_default(MemDisk::new(), 2).unwrap();
    bp.set_no_steal();
    let mut small = Database::with_pager(bp).unwrap();
    let t = small.create_table(&"t".to_string(), schema()).unwrap();
    let long = "x".repeat(2000);
    let mut stored = 0;
    let refused = loop {
        match small.insert_rows(t, &vec![row(stored, &long)]) {
            Ok(_) => stored += 1,
            Err(e) => break e,
        }
    };
    assert!(stored >= 3, "the frames took {stored} rows");
    assert!(matches!(refused, DbError::Heap(HeapError::Buffer(BufferError::Exhausted))));
}

#[test]
fn a_row_whose_stub_does_not_fit_ends_an_update() {
    let mut db = fresh();
    let t = db.create_table(&"t".to_string(), schema()).unwrap();
    let short: Vec<(Vec<Value>, Vec<u8>)> = (0..2000).map(|_| (vec![], vec![1])).collect();
    let rids = db.insert_rows(t, &short).unwrap();
    let change = |i: usize, payload: Vec<u8>| RowChange {
        rid: rids[i],
        old_row: vec![],
        new_row: vec![],
        payload,
    };
    let work = vec![change(5, vec![2]), change(0, vec![3; 5000]), change(6, vec![4])];
    let r = db.update_rows(t, &work);
    assert!(matches!(
        r,
        Err(DbError::Heap(HeapError::ForwardWontFit(x))) if x == rids[0]
    ));
    let now = db.scan_table(t).unwrap();
    assert_eq!(now.len(), 2000);
    for (rid, p) in &now {
        let want: u8 = if *rid == rids[5] { 2 } else { 1 };
        assert_eq!(p, &vec![want], "only the change before the refusal was made");
    }
}

#[test]
fn the_last_definition_of_a_name_counts() {
    let mut db = fresh();
    let one = |name: &str| Schema {
        columns: vec![ColumnDef {
            name: name.into(),
            ty: ColumnType::Int,
            not_null: false,
        }],
    };
    let defs = vec![
        (vec![], serialize_catalog(5, "t", &one("first"))),
        (vec![], serialize_catalog(6, "u", &one("other"))),
        (vec![], serialize_catalog(4, "t", &one("last"))),
    ];
    db.insert_rows(CATALOG_TID, &defs).unwrap();
    db.checkpoint().unwrap();
    let mut disk = MemDisk::new();
    disk.install(db.bp.file.snapshot());
    let mut again = Database::open(disk, 16).unwrap();
    assert_eq!(again.table_names(), vec!["t".to_string(), "u".to_string()]);
    let t = again.find_table(&"t".to_string()).unwrap();
    assert_eq!(again.tables[t].tid, 4);
    assert_eq!(again.tables[t].schema.columns[0].name, "last");
    assert_eq!(again.create_table(&"v".to_string(), one("x")).unwrap(), 7);
}
