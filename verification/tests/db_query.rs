use keel::db::ast::{AggFunc, BinOp, Expr, Node};
use keel::db::exec::{reduce_aggregate, stream, substitute_aggs, ExecError, Keyed, Row};
use keel::db::joins::{
    build_steps, extract_equijoin, join_edges, sole_table, JoinKind,
};
use keel::db::order::{dp_order, join_plan, planned_join_order};
use keel::db::keyed::{distinct_rows, find_partners, group_keys, key_less, sort_rows, OrdKey};
use keel::db::plan::{binds_in, collect_conjuncts, contains_agg, is_subquery_free, Sch};
use keel::db::query::{hash_join, ndv};
use keel::db::select::{
    finish, join_tables, try_stream, try_stream_join, OrderKey, ResultSet, Select, SelectItem,
};
use keel::db::catalog::{ColumnDef, Schema};
use keel::types::{f64_total_order_bits, ColumnType, Value};

fn copy(v: &Value) -> Value {
    match v {
        Value::Null => Value::Null,
        Value::Bool(b) => Value::Bool(*b),
        Value::Int(i) => Value::Int(*i),
        Value::BigInt(i) => Value::BigInt(*i),
        Value::Double(b) => Value::Double(*b),
        Value::Text(s) => Value::Text(s.clone()),
    }
}

fn key_of(v: &Value) -> OrdKey {
    match v {
        Value::Null => OrdKey::Null,
        Value::Bool(b) => OrdKey::Bool(*b),
        Value::Int(i) => OrdKey::Num(f64_total_order_bits((*i as f64).to_bits())),
        Value::BigInt(i) => OrdKey::Num(f64_total_order_bits((*i as f64).to_bits())),
        Value::Double(b) => OrdKey::Num(f64_total_order_bits(*b)),
        Value::Text(s) => OrdKey::Text(s.clone()),
    }
}

fn fails<T>(text: &str) -> Result<T, ExecError> {
    Err(ExecError { text: text.into() })
}

fn value(e: &Expr, s: &Sch, r: &Row) -> Result<Value, ExecError> {
    match &e.node {
        Node::Literal(v) => Ok(copy(v)),
        Node::Column { table, name } => {
            for (i, (t, c)) in s.iter().enumerate() {
                if c == name && table.as_ref().map_or(true, |x| x == t) {
                    return Ok(copy(&r[i]));
                }
            }
            fails("no such column")
        }
        Node::Binary(op) => {
            let a = value(&e.kids[0], s, r)?;
            let b = value(&e.kids[1], s, r)?;
            let less = key_less(&key_of(&a), &key_of(&b));
            let more = key_less(&key_of(&b), &key_of(&a));
            match (op, &a, &b) {
                (_, Value::Null, _) | (_, _, Value::Null) => Ok(Value::Null),
                (BinOp::Eq, _, _) => Ok(Value::Bool(!less && !more)),
                (BinOp::Lt, _, _) => Ok(Value::Bool(less)),
                (BinOp::Gt, _, _) => Ok(Value::Bool(more)),
                (BinOp::Add, Value::Int(x), Value::Int(y)) => Ok(Value::Int(x + y)),
                _ => fails("unsupported"),
            }
        }
        _ => fails("unsupported"),
    }
}

fn eval(e: &Expr, s: &Sch, r: &Row) -> Result<Keyed, ExecError> {
    let v = value(e, s, r)?;
    let k = key_of(&v);
    Ok(Keyed { value: v, key: k })
}

fn floats(avg: bool, vs: &Vec<Value>) -> Value {
    let mut t = 0.0f64;
    for v in vs {
        t += match v {
            Value::Int(i) => *i as f64,
            Value::BigInt(i) => *i as f64,
            Value::Double(b) => f64::from_bits(*b),
            _ => 0.0,
        };
    }
    if avg {
        t /= vs.len() as f64;
    }
    Value::Double(t.to_bits())
}

fn col(t: &str, c: &str) -> Expr {
    Expr::qcol(&t.to_string(), &c.to_string())
}

fn lit(i: i32) -> Expr {
    Expr::lit(Value::Int(i))
}

fn agg(func: AggFunc, distinct: bool, arg: Option<Expr>) -> Expr {
    Expr {
        node: Node::Aggregate { func, distinct },
        kids: arg.into_iter().collect(),
    }
}

fn sch(t: &str, cs: &[&str]) -> Sch {
    cs.iter().map(|c| (t.to_string(), c.to_string())).collect()
}

fn rows(rs: &[&[i32]]) -> Vec<Row> {
    rs.iter()
        .map(|r| r.iter().map(|i| Value::Int(*i)).collect())
        .collect()
}

fn item(e: Expr, label: &str) -> SelectItem {
    SelectItem::Expr {
        expr: e,
        label: label.into(),
    }
}

fn select(items: Vec<SelectItem>) -> Select {
    Select {
        items,
        filter: None,
        group_by: vec![],
        having: None,
        order_by: vec![],
        distinct: false,
        limit: None,
    }
}

fn run(q: &Select, s: &Sch, rs: &Vec<Row>) -> ResultSet {
    match finish(&eval, &floats, q, s, rs) {
        Some(Ok(set)) => set,
        Some(Err(e)) => panic!("{}", e.text),
        None => panic!("not served"),
    }
}

#[test]
fn a_filter_keeps_the_matching_rows() {
    let s = sch("t", &["a", "b"]);
    let rs = rows(&[&[1, 10], &[2, 20], &[3, 30]]);
    let mut q = select(vec![SelectItem::Wildcard]);
    q.filter = Some(Expr::bin(BinOp::Gt, col("t", "a"), lit(1)));
    let set = run(&q, &s, &rs);
    assert_eq!(set.columns, vec!["a", "b"]);
    assert_eq!(set.rows, rows(&[&[2, 20], &[3, 30]]));
}

#[test]
fn rows_are_ordered_and_cut() {
    let s = sch("t", &["a", "b"]);
    let rs = rows(&[&[1, 10], &[3, 30], &[2, 20], &[3, 29]]);
    let mut q = select(vec![item(col("t", "a"), "a"), item(col("t", "b"), "b")]);
    q.order_by = vec![
        OrderKey {
            expr: col("t", "a"),
            asc: false,
        },
        OrderKey {
            expr: col("t", "b"),
            asc: true,
        },
    ];
    q.limit = Some(3);
    assert_eq!(
        run(&q, &s, &rs).rows,
        rows(&[&[3, 29], &[3, 30], &[2, 20]])
    );
}

#[test]
fn distinct_rows_are_kept_once() {
    let s = sch("t", &["a"]);
    let rs = rows(&[&[2], &[1], &[2], &[1]]);
    let mut q = select(vec![SelectItem::Wildcard]);
    q.distinct = true;
    assert_eq!(run(&q, &s, &rs).rows, rows(&[&[2], &[1]]));
}

#[test]
fn groups_are_aggregated() {
    let s = sch("t", &["g", "v"]);
    let rs = rows(&[&[1, 10], &[2, 5], &[1, 20], &[2, 5]]);
    let mut q = select(vec![
        item(col("t", "g"), "g"),
        item(agg(AggFunc::Sum, false, Some(col("t", "v"))), "s"),
        item(agg(AggFunc::Count, true, Some(col("t", "v"))), "n"),
    ]);
    q.group_by = vec![col("t", "g")];
    q.order_by = vec![OrderKey {
        expr: Expr {
            node: Node::Column {
                table: None,
                name: "g".into(),
            },
            kids: vec![],
        },
        asc: true,
    }];
    let set = run(&q, &s, &rs);
    assert_eq!(
        set.rows,
        vec![
            vec![Value::Int(1), Value::BigInt(30), Value::BigInt(2)],
            vec![Value::Int(2), Value::BigInt(10), Value::BigInt(1)],
        ]
    );
}

#[test]
fn having_filters_groups() {
    let s = sch("t", &["g", "v"]);
    let rs = rows(&[&[1, 10], &[2, 5], &[1, 20]]);
    let mut q = select(vec![item(col("t", "g"), "g")]);
    q.group_by = vec![col("t", "g")];
    q.having = Some(Expr::bin(BinOp::Gt, agg(AggFunc::Count, false, None), lit(1)));
    assert_eq!(run(&q, &s, &rs).rows, rows(&[&[1]]));
}

#[test]
fn an_empty_table_has_one_group_without_keys() {
    let s = sch("t", &["v"]);
    let q = select(vec![
        item(agg(AggFunc::Count, false, None), "n"),
        item(agg(AggFunc::Max, false, Some(col("t", "v"))), "m"),
    ]);
    assert_eq!(
        run(&q, &s, &vec![]).rows,
        vec![vec![Value::BigInt(0), Value::Null]]
    );
}

#[test]
fn evaluation_errors_come_through() {
    let s = sch("t", &["a"]);
    let rs = rows(&[&[1]]);
    let q = select(vec![item(col("t", "zz"), "zz")]);
    match finish(&eval, &floats, &q, &s, &rs) {
        Some(Err(e)) => assert_eq!(e.text, "no such column"),
        _ => panic!("expected an error"),
    }
}

#[test]
fn subqueries_are_left_to_another_engine() {
    let s = sch("t", &["a"]);
    let sub = || Expr {
        node: Node::Subquery(0),
        kids: vec![],
    };
    assert!(!is_subquery_free(&sub()));
    let mut q = select(vec![SelectItem::Wildcard]);
    q.filter = Some(sub());
    assert!(finish(&eval, &floats, &q, &s, &vec![]).is_none());
    let q = select(vec![SelectItem::QualifiedWildcard("u".into())]);
    assert!(finish(&eval, &floats, &q, &s, &vec![]).is_none());
}

#[test]
fn aggregates_reduce_a_group() {
    let s = sch("t", &["v"]);
    let g = rows(&[&[4], &[2], &[4]]);
    let v = col("t", "v");
    let one = |f: AggFunc, distinct: bool| {
        reduce_aggregate(&eval, &floats, f, Some(&v), distinct, &s, &g).unwrap()
    };
    assert_eq!(one(AggFunc::Count, false), Value::BigInt(3));
    assert_eq!(one(AggFunc::Count, true), Value::BigInt(2));
    assert_eq!(one(AggFunc::Sum, false), Value::BigInt(10));
    assert_eq!(one(AggFunc::Sum, true), Value::BigInt(6));
    assert_eq!(one(AggFunc::Min, false), Value::Int(2));
    assert_eq!(one(AggFunc::Max, false), Value::Int(4));
    assert_eq!(one(AggFunc::Avg, true), Value::Double(3.0f64.to_bits()));
    let none = reduce_aggregate(&eval, &floats, AggFunc::Sum, None, false, &s, &g);
    assert_eq!(none.unwrap_err().text, "aggregate requires an argument");
}

#[test]
fn aggregates_inside_expressions_become_constants() {
    let s = sch("t", &["v"]);
    let g = rows(&[&[4], &[2]]);
    let e = Expr::bin(
        BinOp::Add,
        agg(AggFunc::Min, false, Some(col("t", "v"))),
        lit(1),
    );
    assert!(contains_agg(&e));
    let r = substitute_aggs(&eval, &floats, &e, &s, &g).unwrap();
    assert!(!contains_agg(&r));
    assert_eq!(value(&r, &s, &vec![Value::Null]).unwrap(), Value::Int(3));
}

#[test]
fn streaming_stops_at_the_wanted_count() {
    let s = sch("t", &["a"]);
    let rs = rows(&[&[1], &[2], &[3]]);
    let out = stream(&eval, &None, &vec![col("t", "a")], &s, &rs, Some(2)).unwrap();
    assert_eq!(out.len(), 2);
    assert_eq!(out[1][0].value, Value::Int(2));
}

#[test]
fn conjunctions_are_taken_apart() {
    let e = Expr::bin(
        BinOp::And,
        Expr::bin(BinOp::And, lit(1), lit(2)),
        lit(3),
    );
    let mut out = Vec::new();
    collect_conjuncts(&e, &mut out);
    assert_eq!(out.len(), 3);
    assert!(binds_in(&col("t", "a"), &sch("t", &["a"])));
    assert!(!binds_in(&col("u", "a"), &sch("t", &["a"])));
}

#[test]
fn hash_joins_pair_equal_keys() {
    let l = sch("l", &["k"]);
    let r = sch("r", &["k", "v"]);
    let lr = vec![
        vec![Value::Int(1)],
        vec![Value::Null],
        vec![Value::Int(2)],
    ];
    let rr = rows(&[&[2, 20], &[1, 10], &[2, 21]]);
    let (s, out) = hash_join(
        &eval,
        JoinKind::Inner,
        &l,
        &lr,
        &col("l", "k"),
        &r,
        &rr,
        &col("r", "k"),
    )
    .unwrap();
    assert_eq!(s.len(), 3);
    assert_eq!(out, rows(&[&[1, 1, 10], &[2, 2, 20], &[2, 2, 21]]));
    let (_, out) = hash_join(
        &eval,
        JoinKind::Left,
        &l,
        &lr,
        &col("l", "k"),
        &r,
        &rr,
        &col("r", "k"),
    )
    .unwrap();
    assert_eq!(out.len(), 4);
    assert_eq!(out[1], vec![Value::Null, Value::Null, Value::Null]);
    assert_eq!(ndv(&eval, &col("r", "k"), &r, &rr), 2);
}

fn triangle() -> (Vec<Sch>, Vec<Vec<Row>>, Vec<JoinKind>, Vec<Expr>) {
    (
        vec![
            sch("a", &["x"]),
            sch("b", &["x", "y"]),
            sch("c", &["y", "z"]),
        ],
        vec![
            rows(&[&[1], &[2], &[3]]),
            rows(&[&[1, 7], &[2, 8], &[2, 9]]),
            rows(&[&[8, 80], &[9, 90], &[7, 70]]),
        ],
        vec![JoinKind::Inner, JoinKind::Inner],
        vec![
            Expr::bin(BinOp::Eq, col("a", "x"), col("b", "x")),
            Expr::bin(BinOp::Eq, col("b", "y"), col("c", "y")),
        ],
    )
}

#[test]
fn joins_are_planned_from_their_equalities() {
    let (schs, _, kinds, ons) = triangle();
    assert_eq!(sole_table(&col("b", "y"), &schs), Some(1));
    let (l, r) = extract_equijoin(&ons[0], &schs[0], &schs[1]).unwrap();
    assert!(matches!(l.node, Node::Column { .. }));
    assert!(matches!(r.node, Node::Column { .. }));
    let edges = join_edges(&kinds, &ons, &schs).unwrap();
    assert_eq!(edges.len(), 2);
    assert_eq!((edges[1].a, edges[1].b), (1, 2));
    let steps = build_steps(&vec![2, 1, 0], &edges).unwrap();
    let tables: Vec<usize> = steps.iter().map(|p| p.table).collect();
    assert_eq!(tables, vec![2, 1, 0]);
    assert!(build_steps(&vec![0, 2, 1], &edges).is_none());
}

#[test]
fn a_reordered_join_has_the_same_rows() {
    let (schs, tables, kinds, ons) = triangle();
    let (s0, plain) = join_tables(&eval, &kinds, &ons, &schs, &tables, &None).unwrap();
    assert_eq!(
        plain,
        rows(&[&[1, 1, 7, 7, 70], &[2, 2, 8, 8, 80], &[2, 2, 9, 9, 90]])
    );
    assert_eq!(s0.len(), 5);
    let mut q = select(vec![
        item(col("a", "x"), "x"),
        item(col("c", "z"), "z"),
    ]);
    q.order_by = vec![OrderKey {
        expr: Expr {
            node: Node::Column {
                table: None,
                name: "z".into(),
            },
            kids: vec![],
        },
        asc: true,
    }];
    for order in [None, Some(vec![2, 1, 0]), Some(vec![1, 0, 2])] {
        let got = try_stream_join(
            &eval, &floats, &q, &kinds, &ons, &schs, &tables, &order,
        );
        match got {
            Some(Ok(set)) => assert_eq!(set.rows, rows(&[&[1, 70], &[2, 80], &[2, 90]])),
            _ => panic!("not served"),
        }
    }
}

#[test]
fn keys_are_ordered_across_kinds() {
    let ks = [
        OrdKey::Null,
        OrdKey::Bool(false),
        OrdKey::Bool(true),
        OrdKey::Num(1),
        OrdKey::Num(2),
        OrdKey::Text("a".into()),
        OrdKey::Text("b".into()),
    ];
    for (i, a) in ks.iter().enumerate() {
        for (j, b) in ks.iter().enumerate() {
            assert_eq!(key_less(a, b), i < j);
        }
    }
}

#[test]
fn keyed_rows_are_grouped_paired_and_sorted() {
    let n = |i: u64| vec![OrdKey::Num(i)];
    let rs = vec![n(2), n(1), n(2)];
    assert_eq!(distinct_rows(&rs), vec![0, 1]);
    assert_eq!(group_keys(&rs), vec![vec![0, 2], vec![1]]);
    assert_eq!(
        find_partners(&vec![n(1), n(9)], &rs),
        vec![vec![1], vec![]]
    );
    assert_eq!(sort_rows(&rs, &vec![true]), vec![1, 0, 2]);
    assert_eq!(sort_rows(&rs, &vec![false]), vec![0, 2, 1]);
}

fn big_small_mid() -> (Vec<Sch>, Vec<Vec<Row>>, Vec<JoinKind>, Vec<Expr>) {
    let ints = |vs: Vec<(i32, i32)>| -> Vec<Row> {
        vs.into_iter()
            .map(|(a, b)| vec![Value::Int(a), Value::Int(b)])
            .collect()
    };
    (
        vec![
            sch("big", &["id", "k"]),
            sch("small", &["k", "j"]),
            sch("mid", &["j", "z"]),
        ],
        vec![
            ints((0..200).map(|i| (i, i % 4)).collect()),
            ints((0..4).map(|i| (i, i)).collect()),
            ints((0..30).map(|i| (i, i % 10)).collect()),
        ],
        vec![JoinKind::Inner, JoinKind::Inner],
        vec![
            Expr::bin(BinOp::Eq, col("big", "k"), col("small", "k")),
            Expr::bin(BinOp::Eq, col("small", "j"), col("mid", "j")),
        ],
    )
}

#[test]
fn cost_based_join_reordering() {
    let (schs, tables, kinds, ons) = big_small_mid();
    let edges = join_edges(&kinds, &ons, &schs).unwrap();
    let sizes: Vec<u64> = tables
        .iter()
        .map(|t| (t.len() as f64).to_bits())
        .collect();
    let step = |cost: u64, card: u64, t: usize, e: usize| -> (u64, u64) {
        let e = &edges[e];
        let na = ndv(&eval, &e.akey, &schs[e.a], &tables[e.a]);
        let nb = ndv(&eval, &e.bkey, &schs[e.b], &tables[e.b]);
        let sel = 1.0 / na.max(nb) as f64;
        let card = f64::from_bits(card) * f64::from_bits(sizes[t]) * sel;
        ((f64::from_bits(cost) + card).to_bits(), card.to_bits())
    };
    let order = planned_join_order(&kinds, &ons, &schs, &sizes, &step).unwrap();
    assert_eq!(order.len(), 3);
    assert_ne!(order, vec![0, 1, 2]);
    assert_eq!(order[2], 0);
    let steps = join_plan(&kinds, &ons, &schs, &sizes, &step).unwrap();
    assert_eq!(steps.iter().map(|p| p.table).collect::<Vec<_>>(), order);

    let mut q = select(vec![
        item(col("big", "id"), "id"),
        item(col("mid", "z"), "z"),
    ]);
    q.order_by = vec![
        OrderKey {
            expr: col("big", "id"),
            asc: true,
        },
        OrderKey {
            expr: col("mid", "z"),
            asc: true,
        },
    ];
    let got = |order: Option<Vec<usize>>| {
        match try_stream_join(&eval, &floats, &q, &kinds, &ons, &schs, &tables, &order) {
            Some(Ok(set)) => set.rows,
            _ => panic!("not served"),
        }
    };
    let want: Vec<Row> = (0..200)
        .map(|i| vec![Value::Int(i), Value::Int(i % 4)])
        .collect();
    assert_eq!(got(Some(order)), want);
    assert_eq!(got(None), want);
}

#[test]
fn join_orders_follow_the_estimates() {
    let (schs, _, kinds, ons) = triangle();
    let edges = join_edges(&kinds, &ons, &schs).unwrap();
    // Each table multiplies the rows; the cost is their sum.
    let sizes = vec![100u64, 10, 1];
    let step = |cost: u64, card: u64, t: usize, _e: usize| -> (u64, u64) {
        let c = card * sizes[t];
        (cost + c, c)
    };
    // {1, 2} costs 10 and {0, 1} costs 1000; then the third table is joined.
    assert_eq!(dp_order(&sizes, &edges, &step), Some(vec![2, 1, 0]));
    // Where all costs are the same, the first table to come last stays.
    let flat = |_: u64, _: u64, _: usize, _: usize| -> (u64, u64) { (1, 1) };
    assert_eq!(dp_order(&sizes, &edges, &flat), Some(vec![2, 1, 0]));
    // One table alone, and tables that do not hang together.
    assert_eq!(dp_order(&vec![5], &vec![], &flat), Some(vec![0]));
    assert_eq!(dp_order(&vec![5, 5], &vec![], &flat), None);
    // An outer join stays as it is written.
    let outer = vec![JoinKind::Inner, JoinKind::Left];
    assert!(planned_join_order(&outer, &ons, &schs, &sizes, &flat).is_none());
}

#[test]
fn a_query_over_one_table_binds_its_alias() {
    let schema = Schema {
        columns: vec![ColumnDef {
            name: "x".into(),
            ty: ColumnType::Int,
            not_null: false,
        }],
    };
    let mut q = select(vec![item(col("t", "x"), "x")]);
    q.filter = Some(Expr::bin(BinOp::Gt, col("t", "x"), lit(1)));
    let rs = rows(&[&[1], &[2], &[3]]);
    match try_stream(&eval, &floats, &q, &"t".to_string(), &schema, &rs) {
        Some(Ok(set)) => assert_eq!(set.rows, rows(&[&[2], &[3]])),
        _ => panic!("not served"),
    }
    // Under another alias the column is unknown.
    assert!(!matches!(
        try_stream(&eval, &floats, &q, &"u".to_string(), &schema, &rs),
        Some(Ok(_))
    ));
}

#[test]
fn a_limit_of_zero_asks_no_row() {
    let s = sch("t", &["a"]);
    let rs = rows(&[&[1]]);
    let mut q = select(vec![item(col("t", "zz"), "zz")]);
    q.limit = Some(0);
    q.distinct = true;
    assert_eq!(run(&q, &s, &rs).rows, rows(&[]));
    q.distinct = false;
    q.order_by = vec![OrderKey {
        expr: Expr {
            node: Node::Column {
                table: None,
                name: "zz".into(),
            },
            kids: vec![],
        },
        asc: true,
    }];
    assert_eq!(run(&q, &s, &rs).rows, rows(&[]));
    q.limit = Some(-1);
    assert_eq!(run(&q, &s, &rs).rows, rows(&[]));
}
