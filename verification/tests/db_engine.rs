//! Statements as texts, run over the library's functions: a small reader of the texts, a row
//! codec and an evaluator stand in for the parts that the library takes as closures.

use keel::buffer::{BufferPool, NoWal};
use keel::db::ast::{AggFunc, BinOp, Expr, Node};
use keel::db::catalog::{ColumnDef, Schema};
use keel::db::exec::{ExecError, Keyed, Row};
use keel::db::gather::Outcome;
use keel::db::keyed::{key_less, OrdKey};
use keel::db::logged::{step, Step};
use keel::db::plan::{Probe, Sch};
use keel::db::route::Route;
use keel::db::select::{OrderKey, ResultSet, Select, SelectItem};
use keel::db::session::{recover, Session, StmtKind};
use keel::db::store::Database;
use keel::db::wal::{StmtLog, LOG_MAGIC};
use keel::db::DbError;
use keel::page::crc::crc32;
use keel::types::{f64_total_order_bits, ColumnType, Value};
use keel::vfs::{BlockFile, Image, IoError, MemDisk};

type Pool = BufferPool<MemDisk, NoWal>;

/// A small generator for reproducible random inputs.
struct Rng(u64);

impl Rng {
    fn seed(s: u64) -> Rng {
        Rng(s.wrapping_mul(0x9E37_79B9_7F4A_7C15) ^ 0x2545_F491_4F6C_DD1D)
    }
    fn next_u64(&mut self) -> u64 {
        self.0 ^= self.0 << 13;
        self.0 ^= self.0 >> 7;
        self.0 ^= self.0 << 17;
        self.0
    }
    fn below(&mut self, n: u64) -> u64 {
        self.next_u64() % n
    }
}

// ---- values ----

fn key_of(v: &Value) -> OrdKey {
    match v {
        Value::Null => OrdKey::Null,
        Value::Bool(b) => OrdKey::Bool(*b),
        Value::Int(i) => OrdKey::Num(f64_total_order_bits((*i as f64).to_bits())),
        Value::BigInt(i) => OrdKey::Num(f64_total_order_bits((*i as f64).to_bits())),
        Value::Double(b) => OrdKey::Num(f64_total_order_bits(*b)),
        Value::Text(s) => OrdKey::Text(s.clone()),
    }
}

fn fails<T>(text: &str) -> Result<T, ExecError> {
    Err(ExecError { text: text.into() })
}

fn int_of(v: &Value) -> i64 {
    match v {
        Value::Int(i) => *i as i64,
        Value::BigInt(i) => *i,
        _ => panic!("not a number: {v:?}"),
    }
}

/// A literal as a value of a column's type.
fn coerce(v: Value, ty: ColumnType) -> Option<Value> {
    match (v, ty) {
        (Value::Null, _) => Some(Value::Null),
        (Value::Int(i), ColumnType::Int) => Some(Value::Int(i)),
        (Value::Int(i), ColumnType::BigInt) => Some(Value::BigInt(i as i64)),
        (Value::BigInt(i), ColumnType::BigInt) => Some(Value::BigInt(i)),
        (Value::Int(i), ColumnType::Double) => Some(Value::Double((i as f64).to_bits())),
        (Value::BigInt(i), ColumnType::Double) => Some(Value::Double((i as f64).to_bits())),
        (Value::Double(b), ColumnType::Double) => Some(Value::Double(b)),
        (Value::Bool(b), ColumnType::Bool) => Some(Value::Bool(b)),
        (Value::Text(s), ColumnType::Varchar(_)) => Some(Value::Text(s)),
        _ => None,
    }
}

fn encode(row: &[Value]) -> Vec<u8> {
    let mut out = Vec::new();
    for v in row {
        match v {
            Value::Null => out.push(0),
            Value::Bool(b) => out.extend_from_slice(&[1, *b as u8]),
            Value::Int(i) => {
                out.push(2);
                out.extend_from_slice(&i.to_le_bytes());
            }
            Value::BigInt(i) => {
                out.push(3);
                out.extend_from_slice(&i.to_le_bytes());
            }
            Value::Double(b) => {
                out.push(4);
                out.extend_from_slice(&b.to_le_bytes());
            }
            Value::Text(s) => {
                out.push(5);
                out.extend_from_slice(&(s.len() as u32).to_le_bytes());
                out.extend_from_slice(s.as_bytes());
            }
        }
    }
    out
}

fn decode(schema: &Schema, p: &Vec<u8>) -> Result<Vec<Value>, ExecError> {
    let mut at = 0;
    let mut row = Vec::new();
    while row.len() < schema.columns.len() {
        let Some(&tag) = p.get(at) else {
            return fails("row ends early");
        };
        at += 1;
        let size = match tag {
            0 => 0,
            1 => 1,
            2 => 4,
            3 | 4 => 8,
            5 => 4 + u32::from_le_bytes(p[at..at + 4].try_into().unwrap()) as usize,
            _ => return fails("unknown tag"),
        };
        let b = &p[at..at + size];
        at += size;
        row.push(match tag {
            0 => Value::Null,
            1 => Value::Bool(b[0] == 1),
            2 => Value::Int(i32::from_le_bytes(b.try_into().unwrap())),
            3 => Value::BigInt(i64::from_le_bytes(b.try_into().unwrap())),
            4 => Value::Double(u64::from_le_bytes(b.try_into().unwrap())),
            _ => Value::Text(String::from_utf8(b[4..].to_vec()).unwrap()),
        });
    }
    Ok(row)
}

fn value(e: &Expr, s: &Sch, r: &Row) -> Result<Value, ExecError> {
    match &e.node {
        Node::Literal(v) => Ok(v.clone()),
        Node::Column { table, name } => {
            for (i, (t, c)) in s.iter().enumerate() {
                if c == name && table.as_ref().map_or(true, |x| x == t) {
                    return Ok(r[i].clone());
                }
            }
            fails("no such column")
        }
        Node::Binary(op) => {
            let a = value(&e.kids[0], s, r)?;
            let b = value(&e.kids[1], s, r)?;
            let less = key_less(&key_of(&a), &key_of(&b));
            let more = key_less(&key_of(&b), &key_of(&a));
            match (op, &a, &b) {
                (_, Value::Null, _) | (_, _, Value::Null) => Ok(Value::Null),
                (BinOp::Eq, _, _) => Ok(Value::Bool(!less && !more)),
                (BinOp::Lt, _, _) => Ok(Value::Bool(less)),
                (BinOp::Le, _, _) => Ok(Value::Bool(!more)),
                (BinOp::Gt, _, _) => Ok(Value::Bool(more)),
                (BinOp::Ge, _, _) => Ok(Value::Bool(!less)),
                (BinOp::And, Value::Bool(x), Value::Bool(y)) => Ok(Value::Bool(*x && *y)),
                (BinOp::Add, Value::Int(x), Value::Int(y)) => Ok(Value::Int(x + y)),
                _ => fails("unsupported"),
            }
        }
        _ => fails("unsupported"),
    }
}

fn eval(e: &Expr, s: &Sch, r: &Row) -> Result<Keyed, ExecError> {
    let v = value(e, s, r)?;
    let k = key_of(&v);
    Ok(Keyed { value: v, key: k })
}

fn floats(_avg: bool, _vs: &Vec<Value>) -> Value {
    Value::Null
}

// ---- texts ----

fn tokens(sql: &str) -> Vec<String> {
    let cs: Vec<char> = sql.chars().collect();
    let mut out = Vec::new();
    let mut i = 0;
    while i < cs.len() {
        let c = cs[i];
        let start = i;
        if c == ' ' {
            i += 1;
            continue;
        }
        if c == '\'' {
            let mut s = String::from("'");
            i += 1;
            while cs[i] != '\'' || cs.get(i + 1) == Some(&'\'') {
                if cs[i] == '\'' {
                    i += 1;
                }
                s.push(cs[i]);
                i += 1;
            }
            i += 1;
            out.push(s);
            continue;
        }
        let word = |c: char| c.is_alphanumeric() || c == '_' || c == '.';
        if word(c) || c == '-' {
            i += 1;
            while i < cs.len() && (word(cs[i]) || "+-".contains(cs[i]) && cs[i - 1] == 'e' && !c.is_alphabetic()) {
                i += 1;
            }
        } else if "<>".contains(c) && cs.get(i + 1) == Some(&'=') {
            i += 2;
        } else {
            i += 1;
        }
        out.push(cs[start..i].iter().collect());
    }
    out
}

struct Reader {
    toks: Vec<String>,
    at: usize,
}

impl Reader {
    fn new(sql: &str) -> Reader {
        Reader {
            toks: tokens(sql),
            at: 0,
        }
    }

    fn peek(&self) -> &str {
        self.toks.get(self.at).map_or("", |s| s.as_str())
    }

    fn next(&mut self) -> String {
        let t = self.peek().to_string();
        self.at += 1;
        t
    }

    fn take(&mut self, t: &str) -> bool {
        let yes = self.peek() == t;
        if yes {
            self.at += 1;
        }
        yes
    }

    fn want(&mut self, t: &str) {
        assert!(self.take(t), "expected {t}, found {}", self.peek());
    }

    fn literal(&mut self) -> Value {
        let t = self.next();
        if let Some(s) = t.strip_prefix('\'') {
            return Value::Text(s.into());
        }
        match t.as_str() {
            "NULL" => return Value::Null,
            "true" => return Value::Bool(true),
            "false" => return Value::Bool(false),
            _ => {}
        }
        if let Ok(i) = t.parse::<i32>() {
            Value::Int(i)
        } else if let Ok(i) = t.parse::<i64>() {
            Value::BigInt(i)
        } else {
            Value::Double(t.parse::<f64>().unwrap().to_bits())
        }
    }

    fn primary(&mut self) -> Expr {
        let c = self.peek().chars().next().unwrap();
        if c.is_alphabetic() && !["NULL", "true", "false"].contains(&self.peek()) {
            let name = self.next();
            Expr {
                node: Node::Column { table: None, name },
                kids: vec![],
            }
        } else {
            Expr::lit(self.literal())
        }
    }

    fn sum(&mut self) -> Expr {
        let mut e = self.primary();
        while self.take("+") {
            e = Expr::bin(BinOp::Add, e, self.primary());
        }
        e
    }

    fn condition(&mut self) -> Expr {
        let mut all: Option<Expr> = None;
        loop {
            let a = self.sum();
            let op = match self.next().as_str() {
                "=" => BinOp::Eq,
                "<" => BinOp::Lt,
                "<=" => BinOp::Le,
                ">" => BinOp::Gt,
                ">=" => BinOp::Ge,
                t => panic!("no comparison: {t}"),
            };
            let c = Expr::bin(op, a, self.sum());
            all = Some(match all {
                None => c,
                Some(e) => Expr::bin(BinOp::And, e, c),
            });
            if !self.take("AND") {
                return all.unwrap();
            }
        }
    }

    fn filter(&mut self) -> Option<Expr> {
        if self.take("WHERE") {
            Some(self.condition())
        } else {
            None
        }
    }
}

fn kind_of(sql: &str) -> StmtKind {
    let t = tokens(sql);
    match (t[0].as_str(), t.get(1).map_or("", |s| s.as_str())) {
        ("CREATE", "TABLE") => StmtKind::CreateTable,
        ("CREATE", _) => StmtKind::CreateIndex,
        ("DROP", "TABLE") => StmtKind::DropTable,
        ("DROP", _) => StmtKind::DropIndex,
        ("INSERT", _) => StmtKind::Insert,
        ("UPDATE", _) => StmtKind::Update,
        ("DELETE", _) => StmtKind::Delete,
        ("BEGIN", _) => StmtKind::Begin,
        ("COMMIT", _) => StmtKind::Commit,
        ("ROLLBACK", _) => StmtKind::Rollback,
        _ => StmtKind::Select,
    }
}

// ---- the engine ----

fn say(e: &IoError) -> String {
    format!("{e:?}")
}

fn show(bits: u64) -> String {
    f64::from_bits(bits).to_string()
}

struct Engine {
    db: Database<Pool>,
    session: Session,
    log: StmtLog<MemDisk>,
    /// Whether an index is taken that serves a filter.
    prefer: bool,
}

fn unlogged(disk: MemDisk, frames: usize) -> Engine {
    Engine {
        db: Database::open(disk, frames).unwrap(),
        session: Session::new(false),
        log: StmtLog::open(MemDisk::new()),
        prefer: true,
    }
}

fn fresh() -> Engine {
    unlogged(MemDisk::new(), 64)
}

fn disk_with(image: Vec<u8>) -> MemDisk {
    let mut disk = MemDisk::new();
    disk.install(image);
    disk
}

/// Open the database that a log holds.
fn logged(image: Vec<u8>) -> Engine {
    let (db, log, session, replay) = Database::open_logged(MemDisk::new(), disk_with(image), 256, &say).unwrap();
    let mut e = Engine {
        db,
        session,
        log,
        prefer: true,
    };
    for s in &replay.stmts {
        e.run(s).unwrap();
    }
    if let Some(err) = &replay.error {
        panic!("recovery failed: {}", err.text(""));
    }
    e.db.note_replayed(&replay);
    e
}

impl Engine {
    fn execute(&mut self, sql: &str) -> Result<Option<ResultSet>, DbError> {
        match step(&mut self.session, &mut self.log, kind_of(sql), sql, &say)? {
            Step::Nothing => Ok(None),
            Step::Dispatch => self.run(sql),
            Step::Run(stmts) => {
                for s in &stmts {
                    self.run(s)?;
                }
                Ok(None)
            }
            Step::Overlay(stmts) => {
                let mut over = fresh();
                for s in &recover(&self.log.replay().unwrap()).stmts {
                    over.run(s)?;
                }
                for s in &stmts {
                    over.run(s)?;
                }
                over.run(sql)
            }
        }
    }

    fn rows(&mut self, sql: &str) -> Vec<Row> {
        self.execute(sql).unwrap().unwrap().rows
    }

    fn ints(&mut self, sql: &str) -> Vec<i64> {
        self.rows(sql).iter().map(|r| int_of(&r[0])).collect()
    }

    fn columns_of(&self, table: &str) -> Vec<(String, ColumnType)> {
        match self.db.tables.iter().find(|t| t.name == table) {
            Some(t) => t.schema.columns.iter().map(|c| (c.name.clone(), c.ty)).collect(),
            None => vec![],
        }
    }

    fn run(&mut self, sql: &str) -> Result<Option<ResultSet>, DbError> {
        let kept = self.session.logged;
        let mut r = Reader::new(sql);
        match kind_of(sql) {
            StmtKind::CreateTable => {
                r.at = 2;
                let name = r.next();
                r.want("(");
                let mut columns = Vec::new();
                loop {
                    let name = r.next();
                    let ty = match r.next().as_str() {
                        "INT" => ColumnType::Int,
                        "BIGINT" => ColumnType::BigInt,
                        "DOUBLE" => ColumnType::Double,
                        "BOOL" => ColumnType::Bool,
                        _ => {
                            r.want("(");
                            let n = r.next().parse().unwrap();
                            r.want(")");
                            ColumnType::Varchar(n)
                        }
                    };
                    let not_null = r.take("NOT");
                    if not_null {
                        r.want("NULL");
                    }
                    columns.push(ColumnDef { name, ty, not_null });
                    if !r.take(",") {
                        break;
                    }
                }
                self.db.create_table_statement(&name, Schema { columns }, kept)?;
            }
            StmtKind::CreateIndex => {
                r.at = 2;
                let name = r.next();
                r.want("ON");
                let table = r.next();
                r.want("(");
                let mut cols = vec![r.next()];
                while r.take(",") {
                    cols.push(r.next());
                }
                self.db.create_index_statement(&name, &table, &cols, &decode, kept)?;
            }
            StmtKind::DropTable => {
                self.db.drop_table_statement(&r.toks[2], kept)?;
            }
            StmtKind::DropIndex => {
                self.db.drop_index_statement(&r.toks[2], kept)?;
            }
            StmtKind::Insert => {
                r.at = 2;
                let table = r.next();
                r.want("VALUES");
                let types = self.columns_of(&table);
                let mut outs = Vec::new();
                loop {
                    r.want("(");
                    let mut vals = vec![r.literal()];
                    while r.take(",") {
                        vals.push(r.literal());
                    }
                    r.want(")");
                    let row: Vec<Value> = vals
                        .into_iter()
                        .zip(&types)
                        .map(|(v, (_, ty))| coerce(v, *ty).unwrap())
                        .collect();
                    let payload = Ok(encode(&row));
                    outs.push(Outcome {
                        vals: row.into_iter().map(Ok).collect(),
                        payload,
                    });
                    if !r.take(",") {
                        break;
                    }
                }
                self.db.insert_statement(&table, &None, outs, kept)?;
            }
            StmtKind::Delete => {
                r.at = 2;
                let table = r.next();
                let filter = r.filter();
                let s = self.scope(&table);
                self.db.delete_where(&table, &filter, &decode, &|f, row| taken(f, &s, row), kept)?;
            }
            StmtKind::Update => {
                r.at = 1;
                let table = r.next();
                r.want("SET");
                let col = r.next();
                r.want("=");
                let asgs = vec![(col.clone(), r.sum())];
                let filter = r.filter();
                let s = self.scope(&table);
                let set = |row: &Vec<Value>| {
                    let v = value(&asgs[0].1, &s, row);
                    let mut new = row.clone();
                    if let (Ok(v), Some(i)) = (&v, s.iter().position(|c| c.1 == col)) {
                        new[i] = v.clone();
                    }
                    Outcome {
                        vals: vec![v],
                        payload: Ok(encode(&new)),
                    }
                };
                self.db.update_where(
                    &table,
                    &filter,
                    &asgs,
                    &decode,
                    &|f, row| taken(f, &s, row),
                    &set,
                    kept,
                )?;
            }
            _ => return self.select(&mut r).map(Some),
        }
        Ok(None)
    }

    fn scope(&self, table: &str) -> Sch {
        let cols = self.columns_of(table);
        cols.into_iter().map(|(c, _)| (table.to_string(), c)).collect()
    }

    fn select(&mut self, r: &mut Reader) -> Result<ResultSet, DbError> {
        r.want("SELECT");
        let mut items = Vec::new();
        loop {
            let label = r.peek().to_string();
            let expr = if r.take("COUNT") {
                r.want("(");
                r.want("*");
                r.want(")");
                Expr {
                    node: Node::Aggregate {
                        func: AggFunc::Count,
                        distinct: false,
                    },
                    kids: vec![],
                }
            } else {
                r.primary()
            };
            items.push(SelectItem::Expr { expr, label });
            if !r.take(",") {
                break;
            }
        }
        r.want("FROM");
        let table = r.next();
        let filter = r.filter();
        let mut order_by = Vec::new();
        if r.take("ORDER") {
            r.want("BY");
            order_by.push(OrderKey {
                expr: r.primary(),
                asc: true,
            });
        }
        let q = Select {
            items,
            filter,
            group_by: vec![],
            having: None,
            order_by,
            distinct: false,
            limit: None,
        };
        let prefer = self.prefer;
        let route = self.db.route(&vec![table.clone()], &q.filter, coerce, |_, _: &Probe| prefer);
        let (t, probe) = match route {
            Route::Scan(t) => (t, None),
            Route::Index(t, p) => (t, Some(p)),
            Route::Join(_) => panic!("one table is no join"),
            Route::Materialize => {
                return Err(DbError::Exec(format!("no such table '{table}'")));
            }
        };
        let rs = self.db.select_table(t, &probe, &decode, &eval, &floats, &q, &table)?;
        Ok(rs.expect("the query can be streamed"))
    }

    fn compact(&mut self) -> Result<(), DbError> {
        let yes = self.session.logged;
        self.db.compact(yes, &mut self.log, &decode, &show, &say)
    }
}

fn taken(f: &Expr, s: &Sch, row: &Vec<Value>) -> Result<bool, ExecError> {
    match value(f, s, row)? {
        Value::Bool(b) => Ok(b),
        Value::Null => Ok(false),
        _ => fails("not a condition"),
    }
}

fn exec_text<T>(r: Result<T, DbError>) -> String {
    match r {
        Err(DbError::Exec(m)) => m,
        Err(e) => panic!("unexpected error {}", e.text("")),
        Ok(_) => panic!("expected an error"),
    }
}

// ---- without a log ----

#[test]
fn index_point_lookup_correct_maintained_and_durable() {
    let image;
    {
        let mut db = unlogged(MemDisk::new(), 16);
        db.execute("CREATE TABLE t (id INT, k INT)").unwrap();
        for i in 0..100 {
            db.execute(&format!("INSERT INTO t VALUES ({i}, {})", i % 7)).unwrap();
        }
        db.execute("CREATE INDEX ix ON t (k)").unwrap();
        for i in 100..170 {
            db.execute(&format!("INSERT INTO t VALUES ({i}, {})", i % 7)).unwrap();
        }
        for target in 0..7i64 {
            let got = db.ints(&format!("SELECT id FROM t WHERE k = {target} ORDER BY id"));
            let want: Vec<i64> = (0..170i64).filter(|i| i % 7 == target).collect();
            assert_eq!(got, want, "index scan for k={target}");
        }
        assert!(db.db.index_lookups() >= 7, "queries should have used the index");
        image = db.db.bp.file.snapshot();
    }
    let mut db = unlogged(disk_with(image), 16);
    let got = db.ints("SELECT id FROM t WHERE k = 5 ORDER BY id");
    let want: Vec<i64> = (0..170i64).filter(|i| i % 7 == 5).collect();
    assert_eq!(got, want, "index survived reopen");
    assert!(db.db.index_lookups() >= 1);
}

#[test]
fn index_range_scans_correct() {
    let mut db = fresh();
    db.execute("CREATE TABLE t (id INT, k INT)").unwrap();
    for i in 0..100i64 {
        db.execute(&format!("INSERT INTO t VALUES ({i}, {i})")).unwrap();
    }
    db.execute("CREATE INDEX ix ON t (k)").unwrap();
    let cases: [(&str, Vec<i64>); 5] = [
        ("SELECT id FROM t WHERE k > 90 ORDER BY id", (91..100).collect()),
        ("SELECT id FROM t WHERE k >= 90 ORDER BY id", (90..100).collect()),
        ("SELECT id FROM t WHERE k < 5 ORDER BY id", (0..5).collect()),
        ("SELECT id FROM t WHERE k <= 5 ORDER BY id", (0..6).collect()),
        ("SELECT id FROM t WHERE k > 40 AND k < 45 ORDER BY id", (41..45).collect()),
    ];
    for (sql, want) in cases {
        assert_eq!(db.ints(sql), want, "for `{sql}`");
    }
    assert!(db.db.index_lookups() >= 5, "range queries should have used the index");
}

#[test]
fn drop_table_and_index() {
    let image;
    {
        let mut db = unlogged(MemDisk::new(), 16);
        db.execute("CREATE TABLE t (id INT, k INT)").unwrap();
        db.execute("CREATE TABLE keep (id INT)").unwrap();
        for i in 0..30i64 {
            db.execute(&format!("INSERT INTO t VALUES ({i}, {})", i % 5)).unwrap();
        }
        db.execute("INSERT INTO keep VALUES (1),(2)").unwrap();
        db.execute("CREATE INDEX ix ON t (k)").unwrap();

        db.execute("DROP INDEX ix").unwrap();
        let before = db.db.index_lookups();
        let rows = db.rows("SELECT id FROM t WHERE k = 2");
        assert_eq!(rows.len(), 6, "k=2 rows still queryable after DROP INDEX");
        assert_eq!(db.db.index_lookups(), before, "no index should be used");

        db.execute("DROP TABLE t").unwrap();
        assert_eq!(db.db.table_names(), vec!["keep".to_string()]);
        assert!(db.execute("SELECT id FROM t").is_err(), "t is gone");
        assert_eq!(db.rows("SELECT COUNT(*) FROM keep")[0][0], Value::BigInt(2));

        assert!(db.execute("DROP TABLE nope").is_err());
        assert!(db.execute("DROP INDEX nope").is_err());
        image = db.db.bp.file.snapshot();
    }
    let db = unlogged(disk_with(image), 16);
    assert_eq!(db.db.table_names(), vec!["keep".to_string()]);
}

#[test]
fn drop_then_recreate_same_name() {
    let mut db = fresh();
    db.execute("CREATE TABLE t (id INT, s VARCHAR(8))").unwrap();
    db.execute("INSERT INTO t VALUES (1, 'old')").unwrap();
    db.execute("DROP TABLE t").unwrap();
    db.execute("CREATE TABLE t (id INT, n BIGINT)").unwrap();
    db.execute("INSERT INTO t VALUES (9, 900)").unwrap();
    let rows = db.rows("SELECT id, n FROM t");
    assert_eq!(rows.len(), 1, "only the new row is visible");
    assert_eq!(rows[0][0], Value::Int(9));
    assert_eq!(rows[0][1], Value::BigInt(900));
}

#[test]
fn delete_and_update_basic() {
    let mut db = fresh();
    db.execute("CREATE TABLE t (id INT, v INT)").unwrap();
    for i in 0..10i64 {
        db.execute(&format!("INSERT INTO t VALUES ({i}, {})", i * 10)).unwrap();
    }
    db.execute("UPDATE t SET v = v + 1 WHERE id < 3").unwrap();
    let rows = db.rows("SELECT id, v FROM t WHERE id < 3 ORDER BY id");
    assert_eq!(rows[0][1], Value::Int(1));
    assert_eq!(rows[1][1], Value::Int(11));
    assert_eq!(rows[2][1], Value::Int(21));

    db.execute("DELETE FROM t WHERE id >= 5").unwrap();
    assert_eq!(db.rows("SELECT COUNT(*) FROM t")[0][0], Value::BigInt(5));

    db.execute("DELETE FROM t").unwrap();
    assert_eq!(db.rows("SELECT COUNT(*) FROM t")[0][0], Value::BigInt(0));
}

#[test]
fn dml_maintains_index_and_persists() {
    let image;
    {
        let mut db = unlogged(MemDisk::new(), 16);
        db.execute("CREATE TABLE t (id INT, k INT)").unwrap();
        for i in 0..60i64 {
            db.execute(&format!("INSERT INTO t VALUES ({i}, {})", i % 6)).unwrap();
        }
        db.execute("CREATE INDEX ix ON t (k)").unwrap();
        db.execute("UPDATE t SET k = 99 WHERE k = 0").unwrap();
        db.execute("DELETE FROM t WHERE k = 1").unwrap();

        let got = db.ints("SELECT id FROM t WHERE k = 99 ORDER BY id");
        let want: Vec<i64> = (0..60).filter(|i| i % 6 == 0).collect();
        assert_eq!(got, want, "moved rows found under new key via index");
        assert_eq!(
            db.rows("SELECT id FROM t WHERE k = 0").len(),
            0,
            "no rows remain under the vacated key"
        );
        assert_eq!(db.rows("SELECT id FROM t WHERE k = 1").len(), 0);
        image = db.db.bp.file.snapshot();
    }
    let mut db = unlogged(disk_with(image), 16);
    let got = db.ints("SELECT id FROM t WHERE k = 99 ORDER BY id");
    let want: Vec<i64> = (0..60).filter(|i| i % 6 == 0).collect();
    assert_eq!(got, want, "DML survived reopen (index consistent)");
}

#[test]
fn definitions_are_durable_before_their_statement_ends() {
    let mut db = unlogged(MemDisk::new(), 16);
    db.execute("CREATE TABLE t (id INT, k INT)").unwrap();
    db.execute("INSERT INTO t VALUES (1, 5),(2, 6)").unwrap();
    db.execute("CREATE INDEX ix ON t (k)").unwrap();
    let mut again = unlogged(disk_with(db.db.bp.file.snapshot()), 16);
    assert_eq!(again.db.table_names(), vec!["t".to_string()]);
    assert_eq!(again.ints("SELECT id FROM t WHERE k = 6"), vec![2]);
    assert_eq!(again.db.index_lookups(), 1);
    again.execute("DROP INDEX ix").unwrap();
    let third = unlogged(disk_with(again.db.bp.file.snapshot()), 16);
    assert_eq!(third.db.indexes.len(), 0);
    assert_eq!(third.db.tables.len(), 1);
}

#[test]
fn a_definition_names_what_keeps_it_from_being_made() {
    let mut db = fresh();
    db.execute("CREATE TABLE t (id INT, k INT)").unwrap();
    assert_eq!(
        exec_text(db.execute("CREATE TABLE t (id INT)")),
        "table 't' already exists"
    );
    assert_eq!(
        exec_text(db.execute("CREATE INDEX ix ON away (k)")),
        "no such table 'away'"
    );
    assert_eq!(
        exec_text(db.execute("CREATE INDEX ix ON t (id, k)")),
        "only single-column indexes are supported"
    );
    assert_eq!(
        exec_text(db.execute("CREATE INDEX ix ON t (nope)")),
        "no column 'nope'"
    );
    let t = db.db.tables[0].tid;
    db.execute("INSERT INTO t VALUES (1, 2)").unwrap();
    db.db.insert_rows(t, &vec![(vec![], vec![9])]).unwrap();
    assert_eq!(exec_text(db.execute("CREATE INDEX ix ON t (k)")), "unknown tag");
    assert_eq!(db.db.indexes.len(), 0);
    assert_eq!(exec_text(db.execute("SELECT id FROM t")), "unknown tag");
    assert_eq!(exec_text(db.execute("DELETE FROM t")), "unknown tag");
    assert_eq!(exec_text(db.execute("UPDATE t SET k = 1")), "unknown tag");
    assert_eq!(db.db.scan_table(t).unwrap().len(), 2);
}

#[test]
fn a_query_takes_the_index_that_is_preferred() {
    let mut db = fresh();
    db.execute("CREATE TABLE t (id INT, k INT)").unwrap();
    db.execute("INSERT INTO t VALUES (1, 5),(2, 6),(3, 5)").unwrap();
    db.execute("CREATE INDEX ix ON t (k)").unwrap();
    let k5 = "SELECT id FROM t WHERE k = 5 ORDER BY id";
    db.prefer = false;
    assert_eq!(db.ints(k5), vec![1, 3]);
    assert_eq!(db.db.index_lookups(), 0);
    db.prefer = true;
    assert_eq!(db.ints(k5), vec![1, 3]);
    assert_eq!(db.db.index_lookups(), 1);
    assert_eq!(db.ints("SELECT id FROM t WHERE id = 2"), vec![2]);
    assert_eq!(db.db.index_lookups(), 1, "no index serves this filter");
    db.execute("CREATE TABLE u (id INT)").unwrap();
    let names = |ns: &[&str]| ns.iter().map(|n| n.to_string()).collect::<Vec<String>>();
    let yes = |_, _: &Probe| true;
    assert!(matches!(db.db.route(&names(&[]), &None, coerce, yes), Route::Materialize));
    assert!(matches!(db.db.route(&names(&["u"]), &None, coerce, yes), Route::Scan(1)));
    assert!(matches!(db.db.route(&names(&["t", "no"]), &None, coerce, yes), Route::Materialize));
    match db.db.route(&names(&["u", "t"]), &None, coerce, yes) {
        Route::Join(at) => assert_eq!(at, vec![1, 0]),
        _ => panic!("two known tables are joined"),
    }
}

#[test]
fn joined_tables_are_read_and_counted() {
    let mut db = fresh();
    db.execute("CREATE TABLE a (id INT, v INT)").unwrap();
    db.execute("CREATE TABLE b (id INT, w INT)").unwrap();
    db.execute("INSERT INTO a VALUES (1, 10),(2, 20),(3, 30)").unwrap();
    db.execute("INSERT INTO b VALUES (1, 100),(2, 200)").unwrap();
    let col = |t: &str, c: &str| Expr::qcol(&t.to_string(), &c.to_string());
    let item = |e: Expr| SelectItem::Expr {
        expr: e,
        label: "c".into(),
    };
    let q = Select {
        items: vec![item(col("a", "id")), item(col("b", "w"))],
        filter: None,
        group_by: vec![],
        having: None,
        order_by: vec![],
        distinct: false,
        limit: None,
    };
    let names = vec!["a".to_string(), "b".to_string()];
    let on = vec![Expr::bin(BinOp::Eq, col("a", "id"), col("b", "id"))];
    let plan = |_: &Vec<Sch>, _: &Vec<Vec<Row>>| None;
    let kinds = vec![keel::db::joins::JoinKind::Left];
    let rs = db
        .db
        .select_join(&vec![0, 1], &names, &decode, &eval, &floats, &plan, &q, &kinds, &on)
        .unwrap()
        .unwrap();
    let mut got: Vec<String> = rs.rows.iter().map(|r| format!("{:?}", r)).collect();
    got.sort();
    assert_eq!(
        got,
        vec!["[Int(1), Int(100)]", "[Int(2), Int(200)]", "[Int(3), Null]"]
    );
    assert_eq!(db.db.join_streams(), 1);
    let b = db.db.tables[1].tid;
    db.db.insert_rows(b, &vec![(vec![], vec![9])]).unwrap();
    assert_eq!(
        exec_text(db.db.select_join(
            &vec![0, 1],
            &names,
            &decode,
            &eval,
            &floats,
            &plan,
            &q,
            &kinds,
            &on
        )),
        "unknown tag"
    );
}

// ---- with a log ----

#[test]
fn transaction_commit_is_atomic_across_crash() {
    let mut db = logged(vec![]);
    db.execute("CREATE TABLE t (id INT, v INT)").unwrap();
    db.execute("BEGIN").unwrap();
    db.execute("INSERT INTO t VALUES (1, 10)").unwrap();
    db.execute("INSERT INTO t VALUES (2, 20)").unwrap();
    db.execute("UPDATE t SET v = v + 100 WHERE id = 1").unwrap();
    db.execute("COMMIT").unwrap();
    let mut db = logged(db.log.file.snapshot());
    let rows = db.rows("SELECT id, v FROM t ORDER BY id");
    assert_eq!(rows.len(), 2);
    assert_eq!(rows[0][1], Value::Int(110));
    assert_eq!(rows[1][1], Value::Int(20));
}

#[test]
fn transaction_rollback_and_uncommitted_crash_leave_no_trace() {
    let mut db = logged(vec![]);
    db.execute("CREATE TABLE t (id INT)").unwrap();
    db.execute("INSERT INTO t VALUES (1)").unwrap();

    db.execute("BEGIN").unwrap();
    db.execute("INSERT INTO t VALUES (2)").unwrap();
    db.execute("INSERT INTO t VALUES (3)").unwrap();
    db.execute("ROLLBACK").unwrap();

    db.execute("BEGIN").unwrap();
    db.execute("INSERT INTO t VALUES (4)").unwrap();
    let mut db = logged(db.log.file.snapshot());
    let rows = db.rows("SELECT id FROM t ORDER BY id");
    assert_eq!(rows.len(), 1, "only the auto-committed row survives");
    assert_eq!(rows[0][0], Value::Int(1));
}

#[test]
fn transaction_read_your_writes() {
    let mut db = logged(vec![]);
    db.execute("CREATE TABLE t (id INT, v INT)").unwrap();
    db.execute("INSERT INTO t VALUES (1, 10)").unwrap();

    db.execute("BEGIN").unwrap();
    db.execute("INSERT INTO t VALUES (2, 20)").unwrap();
    db.execute("UPDATE t SET v = v + 5 WHERE id = 1").unwrap();
    let inside = db.rows("SELECT id, v FROM t ORDER BY id");
    assert_eq!(inside.len(), 2, "read-your-writes: sees the buffered insert");
    assert_eq!(inside[0][1], Value::Int(15));
    assert_eq!(inside[1][1], Value::Int(20));
    db.execute("ROLLBACK").unwrap();
    let after = db.rows("SELECT id, v FROM t ORDER BY id");
    assert_eq!(after.len(), 1);
    assert_eq!(after[0][1], Value::Int(10));

    db.execute("BEGIN").unwrap();
    db.execute("INSERT INTO t VALUES (3, 30)").unwrap();
    db.execute("COMMIT").unwrap();
    let committed = db.rows("SELECT id FROM t ORDER BY id");
    assert_eq!(committed.len(), 2);
    assert_eq!(committed[1][0], Value::Int(3));
}

fn raw_frame(payload: &[u8]) -> Vec<u8> {
    let mut f = Vec::new();
    f.extend_from_slice(&LOG_MAGIC.to_le_bytes());
    f.extend_from_slice(&(payload.len() as u32).to_le_bytes());
    f.extend_from_slice(&crc32(payload).to_le_bytes());
    f.extend_from_slice(payload);
    f
}

#[test]
fn crash_between_statements_and_commit_marker_discards_batch() {
    let mut db = logged(vec![]);
    db.execute("CREATE TABLE t (id INT)").unwrap();
    db.execute("INSERT INTO t VALUES (1)").unwrap();
    let mut image = db.log.file.snapshot();
    for sql in ["INSERT INTO t VALUES (2)", "INSERT INTO t VALUES (3)"] {
        let mut payload = vec![b'S'];
        payload.extend_from_slice(sql.as_bytes());
        image.extend_from_slice(&raw_frame(&payload));
    }
    let mut db = logged(image);
    let rows = db.rows("SELECT id FROM t ORDER BY id");
    assert_eq!(rows.len(), 1, "the un-committed batch is discarded");
    assert_eq!(rows[0][0], Value::Int(1));
}

#[test]
fn compaction_bounds_recovery_and_preserves_state() {
    let mut db = logged(vec![]);
    db.execute("CREATE TABLE t (id INT, v INT)").unwrap();
    for i in 0..60i64 {
        db.execute(&format!("INSERT INTO t VALUES ({i}, {i})")).unwrap();
    }
    for _ in 0..5 {
        db.execute("UPDATE t SET v = v + 1 WHERE id < 30").unwrap();
    }
    db.execute("DELETE FROM t WHERE id >= 50").unwrap();
    db.execute("CREATE INDEX ix ON t (v)").unwrap();

    db.compact().unwrap();
    db.execute("INSERT INTO t VALUES (100, 100)").unwrap();
    db.execute("UPDATE t SET v = 7 WHERE id = 0").unwrap();

    let mut db = logged(db.log.file.snapshot());
    let n = db.rows("SELECT COUNT(*) FROM t");
    assert_eq!(n[0][0], Value::BigInt(51));
    let v0 = db.rows("SELECT v FROM t WHERE id = 0");
    assert_eq!(v0[0][0], Value::Int(7));
    let v100 = db.rows("SELECT id FROM t WHERE id = 100");
    assert_eq!(v100.len(), 1);
    assert!(
        db.db.replay_count() < 70,
        "compaction should bound recovery replay, got {}",
        db.db.replay_count()
    );
}

#[test]
fn compaction_round_trips_all_value_types() {
    type Sample = (i64, i64, Option<f64>, bool, Option<&'static str>);
    let rows: Vec<Sample> = vec![
        (0, 9_000_000_000, Some(0.0), true, Some("hello")),
        (1, -9_000_000_000, Some(-1.5), false, Some("")),
        (2, 2_147_483_647, Some(1000000.0), true, Some("with 'quotes' inside")),
        (3, -2_147_483_648, Some(0.001), false, Some("a,b,c")),
        (4, 42, None, true, None),
    ];
    let mut db = logged(vec![]);
    db.execute("CREATE TABLE t (id INT, big BIGINT, d DOUBLE, flag BOOL, s VARCHAR(64))").unwrap();
    for (id, big, d, flag, s) in &rows {
        let dsql = d.map(|x| x.to_string()).unwrap_or_else(|| "NULL".into());
        let ssql = s
            .map(|x| format!("'{}'", x.replace('\'', "''")))
            .unwrap_or_else(|| "NULL".into());
        db.execute(&format!("INSERT INTO t VALUES ({id}, {big}, {dsql}, {flag}, {ssql})")).unwrap();
    }
    db.compact().unwrap();
    let mut db = logged(db.log.file.snapshot());
    let got = db.rows("SELECT id, big, d, flag, s FROM t ORDER BY id");
    assert_eq!(got.len(), rows.len());
    for (row, (id, big, d, flag, s)) in got.iter().zip(&rows) {
        assert_eq!(row[0], Value::Int(*id as i32), "id");
        assert_eq!(row[1], Value::BigInt(*big), "big");
        assert_eq!(row[2], d.map(|x| Value::Double(x.to_bits())).unwrap_or(Value::Null), "double for id {id}");
        assert_eq!(row[3], Value::Bool(*flag), "bool");
        assert_eq!(row[4], s.map(|x| Value::Text(x.to_string())).unwrap_or(Value::Null), "text for id {id}");
    }
}

#[test]
fn compaction_round_trip_random_values_vs_oracle() {
    for seed in 0..25u64 {
        let mut db = logged(vec![]);
        let mut mem = fresh();
        let ddl = "CREATE TABLE t (id INT, big BIGINT, d DOUBLE, flag BOOL, s VARCHAR(64))";
        db.execute(ddl).unwrap();
        mem.execute(ddl).unwrap();

        let mut rng = Rng::seed(seed ^ 0x5A17);
        let chars: Vec<char> = "abcXYZ 0'9,_-".chars().collect();
        for id in 0..30i64 {
            let big = rng.next_u64() as i64;
            let d = loop {
                let f = f64::from_bits(rng.next_u64());
                if f.is_finite() {
                    break f;
                }
            };
            let flag = rng.below(2) == 0;
            let dsql = if rng.below(9) == 0 {
                "NULL".to_string()
            } else {
                d.to_string()
            };
            let ssql = if rng.below(9) == 0 {
                "NULL".to_string()
            } else {
                let len = rng.below(8) as usize;
                let raw: String = (0..len)
                    .map(|_| chars[rng.below(chars.len() as u64) as usize])
                    .collect();
                format!("'{}'", raw.replace('\'', "''"))
            };
            let ins = format!("INSERT INTO t VALUES ({id}, {big}, {dsql}, {flag}, {ssql})");
            db.execute(&ins).unwrap();
            mem.execute(&ins).unwrap();
        }
        db.compact().unwrap();
        let mut db = logged(db.log.file.snapshot());
        let q = "SELECT id, big, d, flag, s FROM t ORDER BY id";
        assert_eq!(
            db.rows(q),
            mem.rows(q),
            "seed {seed}: compaction round-trip diverged"
        );
    }
}

#[test]
fn torn_compaction_is_ignored() {
    let mut db = logged(vec![]);
    db.execute("CREATE TABLE t (id INT)").unwrap();
    db.execute("INSERT INTO t VALUES (1)").unwrap();
    db.execute("INSERT INTO t VALUES (2)").unwrap();
    let mut image = db.log.file.snapshot();
    for payload in [vec![b'B'], {
        let mut p = vec![b'S'];
        p.extend_from_slice(b"CREATE TABLE t (id INT)");
        p
    }] {
        image.extend_from_slice(&raw_frame(&payload));
    }
    let mut db = logged(image);
    let rows = db.rows("SELECT id FROM t ORDER BY id");
    assert_eq!(rows.len(), 2, "torn compaction ignored; original state intact");
}

#[test]
fn torn_log_tail_is_dropped_atomically() {
    let mut db = logged(vec![]);
    db.execute("CREATE TABLE t (id INT, v INT)").unwrap();
    db.execute("INSERT INTO t VALUES (1, 10)").unwrap();
    db.execute("INSERT INTO t VALUES (2, 20)").unwrap();
    let mut image = db.log.file.snapshot();
    image.extend_from_slice(&LOG_MAGIC.to_le_bytes());
    image.extend_from_slice(&1000u32.to_le_bytes());
    image.extend_from_slice(&0u32.to_le_bytes());
    image.extend_from_slice(b"INSERT INTO t VALUES (3, 30)");
    let mut db = logged(image);
    let rows = db.rows("SELECT id, v FROM t ORDER BY id");
    assert_eq!(rows.len(), 2, "torn tail must not add a row");
    assert_eq!(rows[1][0], Value::Int(2), "only committed rows 1 and 2 survive");
}

/// A file that takes no writes.
struct Stuck;

impl BlockFile for Stuck {
    fn image(&self) -> Image {
        unreachable!()
    }
    fn reliable(&self) -> bool {
        false
    }
    fn synced(&self) -> bool {
        unreachable!()
    }
    fn read_at(&mut self, _buf: &mut Vec<u8>, _offset: u64) -> Result<(), IoError> {
        Err(IoError::Device)
    }
    fn write_at(&mut self, _buf: &Vec<u8>, _offset: u64) -> Result<(), IoError> {
        Err(IoError::Device)
    }
    fn sync(&mut self) -> Result<(), IoError> {
        Ok(())
    }
    fn size(&mut self) -> Result<u64, IoError> {
        Err(IoError::Device)
    }
    fn set_len(&mut self, _len: u64) -> Result<(), IoError> {
        Err(IoError::Device)
    }
}

#[test]
fn a_batch_that_cannot_be_logged_is_not_run() {
    let mut db = logged(vec![]);
    db.execute("CREATE TABLE t (id INT)").unwrap();
    db.execute("INSERT INTO t VALUES (1)").unwrap();
    let before = db.log.file.snapshot();
    assert!(db.execute("SELECT id FROM t").is_ok());
    db.execute("BEGIN").unwrap();
    db.execute("INSERT INTO t VALUES (2)").unwrap();
    assert_eq!(db.log.file.snapshot(), before, "an open transaction is not logged");
    let mut log = StmtLog::open(Stuck);
    let r = step(&mut db.session, &mut log, StmtKind::Commit, "COMMIT", &say);
    assert_eq!(exec_text(r), "log append: Device");
    assert_eq!(db.ints("SELECT id FROM t"), vec![1]);
    let r = step(&mut db.session, &mut log, StmtKind::Insert, "INSERT INTO t VALUES (3)", &say);
    assert_eq!(exec_text(r), "log append: Device");
    let r = db.db.compact(true, &mut log, &decode, &show, &say);
    assert_eq!(exec_text(r), "compact: Device");
    assert_eq!(exec_text(fresh().compact()), "compact requires logged mode");
    let r = Database::open_logged(MemDisk::new(), Stuck, 256, &say);
    assert_eq!(exec_text(r), "log replay: Device");
}
