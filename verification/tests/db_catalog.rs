use keel::db::ast::{BinOp, Expr, Node};
use keel::db::catalog::{
    flip_op, get_str, index_bounds, index_key, parse_catalog, parse_index, put_str,
    serialize_catalog, serialize_index, type_from_tag, ColumnDef, IndexMeta, Schema, CATALOG_TID,
    INDEX_TID,
};
use keel::db::dml::{
    assemble_row, assign, check_count, doomed_records, entry_changes, index_column, load_catalog,
    resolve_columns, row_entries, row_record, table_rows,
};
use keel::db::dml::TableDef;
use keel::db::script::{snapshot_script, type_to_sql, value_to_sql};
use keel::db::plan::{find_indexed_pred, probe_for};
use keel::db::DbError;
use keel::heap::Rid;
use keel::keys::encode_value;
use keel::types::{ColumnType, Value};

fn schema() -> Schema {
    Schema {
        columns: vec![
            ColumnDef {
                name: "id".into(),
                ty: ColumnType::Int,
                not_null: true,
            },
            ColumnDef {
                name: "name".into(),
                ty: ColumnType::Varchar(16),
                not_null: false,
            },
        ],
    }
}

fn index(name: &str, tid: u16, col: usize, ty: ColumnType) -> IndexMeta {
    IndexMeta {
        name: name.into(),
        table_id: tid,
        col_index: col,
        col_type: ty,
        root: 7,
        catalog_rid: Rid::new(0, 0),
    }
}

fn text<T>(r: Result<T, DbError>) -> String {
    match r {
        Err(DbError::Exec(m)) => m,
        _ => panic!("expected an error"),
    }
}

#[test]
fn table_definitions_roundtrip() {
    let bytes = serialize_catalog(9, "people", &schema());
    let (tid, name, s) = parse_catalog(&bytes).unwrap();
    assert_eq!(tid, 9);
    assert_eq!(name, "people");
    assert_eq!(s.len(), 2);
    assert_eq!(s.columns[1].name, "name");
    assert_eq!(s.columns[1].ty, ColumnType::Varchar(16));
    assert!(s.columns[0].not_null);
    assert!(!s.columns[1].not_null);
    assert_eq!(s.column_index("name"), Some(1));
    assert_eq!(s.column_index("age"), None);
}

#[test]
fn index_definitions_roundtrip() {
    let bytes = serialize_index("by_name", 9, 1, ColumnType::Varchar(16), 77);
    let m = parse_index(&bytes).unwrap();
    assert_eq!(m.name, "by_name");
    assert_eq!(m.table_id, 9);
    assert_eq!(m.col_index, 1);
    assert_eq!(m.col_type, ColumnType::Varchar(16));
    assert_eq!(m.root, 77);
}

#[test]
fn stored_texts_carry_their_length() {
    let mut out = vec![1];
    put_str(&mut out, "h\u{e9}");
    assert_eq!(out, vec![1, 3, 0, b'h', 0xc3, 0xa9]);
    let mut pos = 1;
    assert_eq!(get_str(&out, &mut pos).unwrap(), "h\u{e9}");
    assert_eq!(pos, 6);
    out[4] = 0xff;
    let mut pos = 1;
    assert_eq!(text(get_str(&out, &mut pos)), "bad catalog utf8");
}

#[test]
fn unknown_type_tags_are_refused() {
    assert_eq!(
        type_from_tag(4, 12).unwrap(),
        ColumnType::Varchar(12)
    );
    assert_eq!(text(type_from_tag(9, 0)), "bad catalog type tag");
}

#[test]
fn index_keys_end_in_the_record_id() {
    let k = index_key(ColumnType::Int, &Value::Int(5), Rid::new(3, 4));
    assert!(k.starts_with(&encode_value(ColumnType::Int, &Value::Int(5))));
    assert_eq!(k.len(), 5 + 6);
    let a = index_key(ColumnType::Int, &Value::Int(5), Rid::new(9, 9));
    let b = index_key(ColumnType::Int, &Value::Int(6), Rid::new(0, 0));
    assert!(k < b && a < b);
}

#[test]
fn an_index_range_holds_exactly_the_matching_keys() {
    let keys: Vec<(i32, Vec<u8>)> = (-3..4)
        .map(|i| (i, index_key(ColumnType::Int, &Value::Int(i), Rid::new(1, 2))))
        .collect();
    let enc = encode_value(ColumnType::Int, &Value::Int(1));
    let hits = |op: BinOp| -> Vec<i32> {
        let (lo, hi) = index_bounds(op, &enc);
        keys.iter()
            .filter(|(_, k)| *k >= lo && hi.as_ref().map_or(true, |h| k < h))
            .map(|(i, _)| *i)
            .collect()
    };
    assert_eq!(hits(BinOp::Eq), vec![1]);
    assert_eq!(hits(BinOp::Ge), vec![1, 2, 3]);
    assert_eq!(hits(BinOp::Gt), vec![2, 3]);
    assert_eq!(hits(BinOp::Lt), vec![-3, -2, -1, 0]);
    assert_eq!(hits(BinOp::Le), vec![-3, -2, -1, 0, 1]);
    assert_eq!(flip_op(BinOp::Lt), BinOp::Gt);
    assert_eq!(flip_op(BinOp::Eq), BinOp::Eq);
}

#[test]
fn insert_columns_are_resolved() {
    let s = schema();
    assert_eq!(resolve_columns(&s, &None).unwrap(), vec![0, 1]);
    assert_eq!(
        resolve_columns(&s, &Some(vec!["name".into(), "id".into()])).unwrap(),
        vec![1, 0]
    );
    assert!(resolve_columns(&s, &Some(vec!["age".into()])).is_err());
    assert!(check_count(2, 2).is_ok());
    assert!(check_count(2, 3).is_err());
    let row = assemble_row(2, &vec![1], &vec![Value::Text("x".into())]);
    assert_eq!(row, vec![Value::Null, Value::Text("x".into())]);
}

#[test]
fn required_columns_refuse_null() {
    let s = schema();
    let mut row = vec![Value::Int(1), Value::Null];
    assert!(assign(&s, &mut row, 0, Value::Null).is_err());
    assert_eq!(row[0], Value::Int(1));
    assign(&s, &mut row, 1, Value::Text("y".into())).unwrap();
    assert_eq!(row[1], Value::Text("y".into()));
}

#[test]
fn only_one_column_can_be_indexed() {
    let s = schema();
    assert_eq!(index_column(&s, &vec!["name".into()]).unwrap(), 1);
    assert!(index_column(&s, &vec!["id".into(), "name".into()]).is_err());
    assert!(index_column(&s, &vec!["age".into()]).is_err());
}

#[test]
fn rows_are_told_apart_by_their_table() {
    let rs = vec![
        (Rid::new(0, 0), row_record(5, b"a")),
        (Rid::new(0, 1), row_record(6, b"b")),
        (Rid::new(0, 2), row_record(5, b"c")),
    ];
    assert_eq!(rs[1].1, vec![6, 0, b'b']);
    assert_eq!(
        table_rows(&rs, 5),
        vec![
            (Rid::new(0, 0), b"a".to_vec()),
            (Rid::new(0, 2), b"c".to_vec())
        ]
    );
}

#[test]
fn the_catalog_is_read_from_its_records() {
    let rs = vec![
        (
            Rid::new(0, 0),
            row_record(CATALOG_TID, &serialize_catalog(4, "t", &schema())),
        ),
        (Rid::new(0, 1), row_record(4, b"row")),
        (
            Rid::new(0, 2),
            row_record(
                INDEX_TID,
                &serialize_index("i", 4, 0, ColumnType::Int, 11),
            ),
        ),
    ];
    let c = load_catalog(&rs).unwrap();
    assert_eq!(c.tables.len(), 1);
    assert_eq!(c.tables[0].name, "t");
    assert_eq!(c.tables[0].tid, 4);
    assert_eq!(c.indexes.len(), 1);
    assert_eq!(c.indexes[0].root, 11);
    assert_eq!(c.indexes[0].catalog_rid, Rid::new(0, 2));
    assert_eq!(c.next_tid, 5);
    assert_eq!(
        doomed_records(&rs, 4),
        vec![Rid::new(0, 0), Rid::new(0, 1), Rid::new(0, 2)]
    );
}

#[test]
fn index_entries_follow_the_row() {
    let idxs = vec![
        index("a", 4, 0, ColumnType::Int),
        index("b", 9, 0, ColumnType::Int),
        index("c", 4, 1, ColumnType::Varchar(16)),
    ];
    let rid = Rid::new(1, 1);
    let old = vec![Value::Int(1), Value::Text("x".into())];
    let new = vec![Value::Int(1), Value::Text("y".into())];
    let es = row_entries(&idxs, 4, &old, rid);
    assert_eq!(es.len(), 2);
    assert_eq!(es[0].index, 0);
    assert_eq!(es[1].index, 2);
    assert_eq!(es[0].key, index_key(ColumnType::Int, &old[0], rid));
    let cs = entry_changes(&idxs, 4, &old, &new, rid);
    assert_eq!(cs.len(), 1);
    assert_eq!(cs[0].index, 2);
    assert_eq!(
        cs[0].removed,
        index_key(ColumnType::Varchar(16), &old[1], rid)
    );
    assert_eq!(
        cs[0].added,
        index_key(ColumnType::Varchar(16), &new[1], rid)
    );
}

#[test]
fn comparisons_with_a_constant_use_an_index() {
    let s = schema();
    let idxs = vec![index("i", 4, 0, ColumnType::Int)];
    let col = || Expr {
        node: Node::Column {
            table: None,
            name: "id".into(),
        },
        kids: vec![],
    };
    let e = Expr::bin(BinOp::Lt, Expr::lit(Value::Int(3)), col());
    let p = probe_for(&e, &s, &idxs, 4).unwrap();
    assert_eq!(p.index, 0);
    assert_eq!(p.op, BinOp::Gt);
    assert_eq!(p.value, Value::Int(3));
    assert!(probe_for(&e, &s, &idxs, 5).is_none());
}

fn show(bits: u64) -> String {
    f64::from_bits(bits).to_string()
}

#[test]
fn values_are_written_as_literals() {
    let sql = |v: Value| value_to_sql(&v, &show);
    assert_eq!(sql(Value::Null), "NULL");
    assert_eq!(sql(Value::Bool(true)), "true");
    assert_eq!(sql(Value::Bool(false)), "false");
    assert_eq!(sql(Value::Int(i32::MIN)), "-2147483648");
    assert_eq!(sql(Value::Int(0)), "0");
    assert_eq!(sql(Value::Int(9)), "9");
    assert_eq!(sql(Value::Int(10)), "10");
    assert_eq!(sql(Value::BigInt(i64::MIN)), "-9223372036854775808");
    assert_eq!(sql(Value::BigInt(i64::MAX)), "9223372036854775807");
    for n in [-12345i64, -10, -1, 7, 100, 9007199254740993] {
        assert_eq!(sql(Value::BigInt(n)), n.to_string());
    }
    assert_eq!(sql(Value::Double(1.5f64.to_bits())), "1.5");
    assert_eq!(sql(Value::Double(3.0f64.to_bits())), "3.0");
    assert_eq!(sql(Value::Double(f64::NAN.to_bits())), "NaN");
    assert_eq!(sql(Value::Double(f64::INFINITY.to_bits())), "inf");
    assert_eq!(sql(Value::Text("".into())), "''");
    assert_eq!(
        sql(Value::Text("it's 'Gr\u{fc}n'".into())),
        "'it''s ''Gr\u{fc}n'''"
    );
    assert_eq!(type_to_sql(ColumnType::Bool), "BOOL");
    assert_eq!(type_to_sql(ColumnType::Int), "INT");
    assert_eq!(type_to_sql(ColumnType::BigInt), "BIGINT");
    assert_eq!(type_to_sql(ColumnType::Double), "DOUBLE");
    assert_eq!(type_to_sql(ColumnType::Varchar(65535)), "VARCHAR(65535)");
}

#[test]
fn the_script_builds_the_tables_by_number_and_then_the_indexes() {
    let table = |name: &str, tid: u16| TableDef {
        name: name.into(),
        tid,
        schema: schema(),
    };
    let tables = vec![table("late", 9), table("early", 2)];
    let rows = vec![
        vec![vec![Value::Int(1), Value::Text("o'k".into())]],
        vec![
            vec![Value::Int(2), Value::Null],
            vec![Value::Int(3), Value::Text("x".into())],
        ],
    ];
    let indexes = vec![
        index("i1", 9, 0, ColumnType::Int),
        index("gone", 5, 0, ColumnType::Int),
        index("i2", 2, 1, ColumnType::Varchar(16)),
    ];
    assert_eq!(
        snapshot_script(&tables, &rows, &indexes, &show),
        vec![
            "CREATE TABLE early (id INT NOT NULL, name VARCHAR(16))",
            "INSERT INTO early VALUES (2, NULL)",
            "INSERT INTO early VALUES (3, 'x')",
            "CREATE TABLE late (id INT NOT NULL, name VARCHAR(16))",
            "INSERT INTO late VALUES (1, 'o''k')",
            "CREATE INDEX i1 ON late (id)",
            "CREATE INDEX i2 ON early (name)",
        ]
    );
}

#[test]
fn the_first_equality_wins_and_else_the_first_comparison() {
    let s = schema();
    let idxs = vec![
        index("i", 4, 0, ColumnType::Int),
        index("n", 4, 1, ColumnType::Varchar(16)),
    ];
    let test = |op: BinOp, name: &str, v: Value| {
        Expr::bin(
            op,
            Expr {
                node: Node::Column {
                    table: None,
                    name: name.into(),
                },
                kids: vec![],
            },
            Expr::lit(v),
        )
    };
    let and = |a: Expr, b: Expr| Expr::bin(BinOp::And, a, b);
    let coerce = |v: Value, t: ColumnType| match (&v, t) {
        (Value::Int(_), ColumnType::Int) => Some(v),
        (Value::Text(_), ColumnType::Varchar(_)) => Some(v),
        _ => None,
    };
    let low = || test(BinOp::Gt, "id", Value::Int(1));
    let high = || test(BinOp::Lt, "id", Value::Int(9));
    let bob = || test(BinOp::Eq, "name", Value::Text("bob".into()));
    let wrong = || test(BinOp::Eq, "id", Value::Text("x".into()));
    let null = || test(BinOp::Eq, "id", Value::Null);
    let p = find_indexed_pred(&and(and(low(), high()), bob()), &s, &idxs, 4, coerce).unwrap();
    assert_eq!((p.index, p.op), (1, BinOp::Eq));
    assert_eq!(p.value, Value::Text("bob".into()));
    let p = find_indexed_pred(&and(wrong(), and(high(), low())), &s, &idxs, 4, coerce).unwrap();
    assert_eq!((p.index, p.op), (0, BinOp::Lt));
    assert_eq!(p.value, Value::Int(9));
    assert!(find_indexed_pred(&and(wrong(), null()), &s, &idxs, 4, coerce).is_none());
    assert!(find_indexed_pred(&bob(), &s, &idxs, 5, coerce).is_none());
}
