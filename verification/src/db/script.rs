//! The statements that build a database anew: its tables, their rows and its indexes as
//! text.

use vstd::prelude::*;

use crate::db::catalog::{ColumnDef, IndexMeta};
use crate::db::defined::lemma_all_below;
use crate::db::dml::TableDef;
use crate::text::{decimal, decimal_text, digit, int_text, listed, number_text};
use crate::types::{ColumnType, Value};

verus! {

// ---- texts ----

/// A text with its single quotes doubled.
pub open spec fn doubled(s: Seq<char>) -> Seq<char>
    decreases s.len(),
{
    if s.len() == 0 {
        s
    } else if s.last() == '\'' {
        doubled(s.drop_last()) + "''"@
    } else {
        doubled(s.drop_last()).push(s.last())
    }
}

fn double_quotes(s: &str) -> (r: String)
    ensures
        r@ == doubled(s@),
{
    let n: usize = s.unicode_len();
    let mut out: String = String::new();
    let mut i: usize = 0;
    assert(s@.take(0) =~= Seq::empty());
    while i < n
        invariant
            i <= n == s@.len(),
            out@ == doubled(s@.take(i as int)),
        decreases n - i,
    {
        proof {
            assert(s@.take(i + 1).drop_last() =~= s@.take(i as int));
        }
        if s.get_char(i) == '\'' {
            out.append("''");
        } else {
            let c: &str = s.substring_char(i, i + 1);
            out.append(c);
            assert(out@ =~= doubled(s@.take(i as int)).push(s@[i as int]));
        }
        i = i + 1;
    }
    assert(s@.take(n as int) =~= s@);
    out
}

/// A number that is written with a point or an exponent, or is none, reads as a double.
pub open spec fn reads_as_double(s: Seq<char>) -> bool {
    exists|i: int| 0 <= i < s.len() && marks_double(#[trigger] s[i])
}

pub open spec fn marks_double(c: char) -> bool {
    c == '.' || c == 'e' || c == 'E' || c == 'n' || c == 'N'
}

fn is_double_text(s: &str) -> (r: bool)
    ensures
        r == reads_as_double(s@),
{
    let n: usize = s.unicode_len();
    let mut i: usize = 0;
    while i < n
        invariant
            i <= n == s@.len(),
            forall|j: int| 0 <= j < i ==> !marks_double(#[trigger] s@[j]),
        decreases n - i,
    {
        let c: char = s.get_char(i);
        if c == '.' || c == 'e' || c == 'E' || c == 'n' || c == 'N' {
            assert(marks_double(s@[i as int]));
            return true;
        }
        i = i + 1;
    }
    false
}

/// The shortest text of a double, by its bits.
pub open spec fn shown<D: Fn(u64) -> String>(show: D, bits: u64) -> Seq<char> {
    (choose|x: String| show.ensures((bits,), x))@
}

/// A function that writes doubles writes every double, and the same one the same.
pub open spec fn shows<D: Fn(u64) -> String>(show: D) -> bool {
    &&& forall|bits: u64| #[trigger] show.requires((bits,))
    &&& forall|bits: u64, x: String, y: String| #[trigger]
        show.ensures((bits,), x) && #[trigger] show.ensures((bits,), y) ==> x@ == y@
}

// ---- values and types ----

/// A value as a literal.
pub open spec fn value_text<D: Fn(u64) -> String>(show: D, v: Value) -> Seq<char> {
    match v {
        Value::Null => "NULL"@,
        Value::Bool(b) => if b {
            "true"@
        } else {
            "false"@
        },
        Value::Int(n) => int_text(n as int),
        Value::BigInt(n) => int_text(n as int),
        Value::Double(bits) => if reads_as_double(shown(show, bits)) {
            shown(show, bits)
        } else {
            shown(show, bits) + ".0"@
        },
        Value::Text(s) => "'"@ + doubled(s@) + "'"@,
    }
}

pub fn value_to_sql<D: Fn(u64) -> String>(v: &Value, show: &D) -> (r: String)
    requires
        shows(*show),
    ensures
        r@ == value_text(*show, *v),
{
    match v {
        Value::Null => "NULL".to_owned(),
        Value::Bool(b) => {
            if *b {
                "true".to_owned()
            } else {
                "false".to_owned()
            }
        },
        Value::Int(n) => number_text(*n as i64),
        Value::BigInt(n) => number_text(*n),
        Value::Double(bits) => {
            let s: String = show(*bits);
            assert(show.ensures((*bits,), s));
            if is_double_text(s.as_str()) {
                s
            } else {
                s.concat(".0")
            }
        },
        Value::Text(s) => "'".to_owned().concat(double_quotes(s.as_str()).as_str()).concat("'"),
    }
}

pub open spec fn type_text(t: ColumnType) -> Seq<char> {
    match t {
        ColumnType::Bool => "BOOL"@,
        ColumnType::Int => "INT"@,
        ColumnType::BigInt => "BIGINT"@,
        ColumnType::Double => "DOUBLE"@,
        ColumnType::Varchar(n) => "VARCHAR("@ + decimal(n as nat) + ")"@,
    }
}

pub fn type_to_sql(t: ColumnType) -> (r: String)
    ensures
        r@ == type_text(t),
{
    match t {
        ColumnType::Bool => "BOOL".to_owned(),
        ColumnType::Int => "INT".to_owned(),
        ColumnType::BigInt => "BIGINT".to_owned(),
        ColumnType::Double => "DOUBLE".to_owned(),
        ColumnType::Varchar(n) => "VARCHAR(".to_owned().concat(
            decimal_text(n as u64).as_str(),
        ).concat(")"),
    }
}

// ---- statements ----

pub open spec fn column_text(c: ColumnDef) -> Seq<char> {
    c.name@ + " "@ + type_text(c.ty) + if c.not_null {
        " NOT NULL"@
    } else {
        ""@
    }
}

pub open spec fn create_text(t: TableDef) -> Seq<char> {
    "CREATE TABLE "@ + t.name@ + " ("@ + listed(
        t.schema.columns@.map_values(|c: ColumnDef| column_text(c)),
    ) + ")"@
}

pub open spec fn insert_text<D: Fn(u64) -> String>(
    show: D,
    name: Seq<char>,
    row: Seq<Value>,
) -> Seq<char> {
    "INSERT INTO "@ + name + " VALUES ("@ + listed(
        row.map_values(|v: Value| value_text(show, v)),
    ) + ")"@
}

pub open spec fn index_text(m: IndexMeta, t: TableDef) -> Seq<char> {
    "CREATE INDEX "@ + m.name@ + " ON "@ + t.name@ + " ("@
        + t.schema.columns@[m.col_index as int].name@ + ")"@
}

fn column_to_sql(c: &ColumnDef) -> (r: String)
    ensures
        r@ == column_text(*c),
{
    let mut s: String = c.name.clone().concat(" ").concat(type_to_sql(c.ty).as_str());
    if c.not_null {
        s.append(" NOT NULL");
    } else {
        proof {
            reveal_strlit("");
        }
        assert(s@ =~= s@ + ""@);
    }
    s
}

fn create_to_sql(t: &TableDef) -> (r: String)
    ensures
        r@ == create_text(*t),
{
    let ghost ts = t.schema.columns@.map_values(|c: ColumnDef| column_text(c));
    let n: usize = t.schema.columns.len();
    let mut s: String = String::new();
    let mut i: usize = 0;
    assert(ts.take(0) =~= Seq::empty());
    while i < n
        invariant
            i <= n == t.schema.columns@.len(),
            ts == t.schema.columns@.map_values(|c: ColumnDef| column_text(c)),
            s@ == listed(ts.take(i as int)),
        decreases n - i,
    {
        proof {
            assert(ts.take(i + 1).drop_last() =~= ts.take(i as int));
        }
        if i > 0 {
            s.append(", ");
        }
        let c: String = column_to_sql(&t.schema.columns[i]);
        s.append(c.as_str());
        assert(ts.take(i + 1).last() == c@);
        assert(s@ =~= listed(ts.take(i + 1)));
        i = i + 1;
    }
    assert(ts.take(n as int) =~= ts);
    "CREATE TABLE ".to_owned().concat(t.name.as_str()).concat(" (").concat(s.as_str()).concat(")")
}

fn insert_to_sql<D: Fn(u64) -> String>(name: &String, row: &Vec<Value>, show: &D) -> (r: String)
    requires
        shows(*show),
    ensures
        r@ == insert_text(*show, name@, row@),
{
    let ghost ts = row@.map_values(|v: Value| value_text(*show, v));
    let n: usize = row.len();
    let mut s: String = String::new();
    let mut i: usize = 0;
    assert(ts.take(0) =~= Seq::empty());
    while i < n
        invariant
            i <= n == row@.len(),
            shows(*show),
            ts == row@.map_values(|v: Value| value_text(*show, v)),
            s@ == listed(ts.take(i as int)),
        decreases n - i,
    {
        proof {
            assert(ts.take(i + 1).drop_last() =~= ts.take(i as int));
        }
        if i > 0 {
            s.append(", ");
        }
        let c: String = value_to_sql(&row[i], show);
        s.append(c.as_str());
        assert(ts.take(i + 1).last() == c@);
        assert(s@ =~= listed(ts.take(i + 1)));
        i = i + 1;
    }
    assert(ts.take(n as int) =~= ts);
    "INSERT INTO ".to_owned().concat(name.as_str()).concat(" VALUES (").concat(s.as_str()).concat(
        ")",
    )
}

// ---- the script ----

/// The tables by their numbers, those of one number as they are listed.
pub open spec fn by_number(ts: Seq<TableDef>, order: Seq<usize>) -> bool {
    &&& order.len() == ts.len()
    &&& forall|i: int| 0 <= i < order.len() ==> (#[trigger] order[i]) < ts.len()
    &&& forall|i: int, j: int|
        0 <= i < j < order.len() ==> sorts_before(ts, #[trigger] order[i], #[trigger] order[j])
}

pub open spec fn sorts_before(ts: Seq<TableDef>, a: usize, b: usize) -> bool {
    ts[a as int].tid < ts[b as int].tid || ts[a as int].tid == ts[b as int].tid && a < b
}

/// The places of the tables, by their numbers.
pub fn sort_tables(ts: &Vec<TableDef>) -> (order: Vec<usize>)
    ensures
        by_number(ts@, order@),
{
    let n: usize = ts.len();
    let mut order: Vec<usize> = Vec::new();
    let mut k: usize = 0;
    while k < n
        invariant
            k <= n == ts@.len(),
            order@.len() == k,
            forall|i: int| 0 <= i < k ==> (#[trigger] order@[i]) < k,
            forall|i: int, j: int|
                0 <= i < j < k ==> sorts_before(ts@, #[trigger] order@[i], #[trigger] order@[j]),
        decreases n - k,
    {
        let mut p: usize = k;
        while p > 0 && ts[order[p - 1]].tid > ts[k].tid
            invariant
                p <= k < n == ts@.len(),
                order@.len() == k,
                forall|i: int| 0 <= i < k ==> (#[trigger] order@[i]) < k,
                forall|i: int|
                    p <= i < k ==> ts@[(#[trigger] order@[i]) as int].tid > ts@[k as int].tid,
            decreases p,
        {
            p = p - 1;
        }
        let ghost was = order@;
        order.insert(p, k);
        proof {
            assert forall|i: int, j: int| 0 <= i < j < k + 1 implies sorts_before(
                ts@,
                #[trigger] order@[i],
                #[trigger] order@[j],
            ) by {
                if i != p && j != p {
                    let a = if i < p { i } else { i - 1 };
                    let b = if j < p { j } else { j - 1 };
                    assert(sorts_before(ts@, was[a], was[b]));
                } else if i == p {
                    assert(order@[j] == was[j - 1]);
                } else {
                    assert(order@[i] == was[i]);
                    if i < p - 1 {
                        assert(sorts_before(ts@, was[i], was[p - 1]));
                    }
                    assert(!(ts@[was[p - 1] as int].tid > ts@[k as int].tid));
                }
            }
        }
        k = k + 1;
    }
    order
}

/// The statements that build the first `upto` tables of the order with their rows.
pub open spec fn tables_script<D: Fn(u64) -> String>(
    show: D,
    ts: Seq<TableDef>,
    rows: Seq<Seq<Seq<Value>>>,
    order: Seq<usize>,
    upto: nat,
) -> Seq<Seq<char>>
    decreases upto,
{
    if upto == 0 {
        Seq::empty()
    } else {
        let t = order[upto - 1] as int;
        tables_script(show, ts, rows, order, (upto - 1) as nat).push(create_text(ts[t]))
            + rows[t].map_values(|r: Seq<Value>| insert_text(show, ts[t].name@, r))
    }
}

/// The first table of the order with this number.
pub open spec fn table_at(ts: Seq<TableDef>, order: Seq<usize>, tid: u16, i: int) -> bool {
    &&& 0 <= i < order.len()
    &&& ts[order[i] as int].tid == tid
    &&& forall|j: int| 0 <= j < i ==> ts[(#[trigger] order[j]) as int].tid != tid
}

/// The statements that build the indexes of the tables; an index of a table that is not
/// there is passed over.
pub open spec fn indexes_script(
    ts: Seq<TableDef>,
    order: Seq<usize>,
    ms: Seq<IndexMeta>,
) -> Seq<Seq<char>>
    decreases ms.len(),
{
    if ms.len() == 0 {
        Seq::empty()
    } else {
        let before = indexes_script(ts, order, ms.drop_last());
        let m = ms.last();
        if exists|i: int| table_at(ts, order, m.table_id, i) {
            let i = choose|i: int| table_at(ts, order, m.table_id, i);
            before.push(index_text(m, ts[order[i] as int]))
        } else {
            before
        }
    }
}

pub open spec fn lines(v: Seq<String>) -> Seq<Seq<char>> {
    v.map_values(|s: String| s@)
}

pub open spec fn row_lists(rows: Seq<Vec<Vec<Value>>>) -> Seq<Seq<Seq<Value>>> {
    rows.map_values(|l: Vec<Vec<Value>>| l@.map_values(|r: Vec<Value>| r@))
}

/// The statements that build a database of these tables, rows and indexes.
pub open spec fn builds<D: Fn(u64) -> String>(
    show: D,
    ts: Seq<TableDef>,
    rows: Seq<Seq<Seq<Value>>>,
    ms: Seq<IndexMeta>,
    script: Seq<Seq<char>>,
) -> bool {
    exists|order: Seq<usize>| #[trigger]
        by_number(ts, order) && script == tables_script(show, ts, rows, order, ts.len())
            + indexes_script(ts, order, ms)
}

/// Write the statements of one table.
fn push_table<D: Fn(u64) -> String>(
    out: &mut Vec<String>,
    t: &TableDef,
    rows: &Vec<Vec<Value>>,
    show: &D,
)
    requires
        shows(*show),
    ensures
        lines(final(out)@) == lines(old(out)@).push(create_text(*t)) + rows@.map_values(
            |r: Vec<Value>| r@,
        ).map_values(|r: Seq<Value>| insert_text(*show, t.name@, r)),
{
    let ghost base = lines(out@).push(create_text(*t));
    let ghost rs = rows@.map_values(|r: Vec<Value>| r@).map_values(
        |r: Seq<Value>| insert_text(*show, t.name@, r),
    );
    let ghost was = out@;
    let c: String = create_to_sql(t);
    out.push(c);
    assert(lines(out@) =~= base) by {
        assert(lines(was.push(c)) =~= lines(was).push(c@));
    }
    let n: usize = rows.len();
    let mut i: usize = 0;
    assert(base + rs.take(0) =~= base);
    while i < n
        invariant
            i <= n == rows@.len(),
            shows(*show),
            rs == rows@.map_values(|r: Vec<Value>| r@).map_values(
                |r: Seq<Value>| insert_text(*show, t.name@, r),
            ),
            lines(out@) == base + rs.take(i as int),
        decreases n - i,
    {
        let ghost was = out@;
        let s: String = insert_to_sql(&t.name, &rows[i], show);
        out.push(s);
        proof {
            assert(lines(was.push(s)) =~= lines(was).push(s@));
            assert(rs.take(i + 1) =~= rs.take(i as int).push(rs[i as int]));
            assert(rs[i as int] == s@);
            assert(lines(out@) =~= base + rs.take(i + 1));
        }
        i = i + 1;
    }
    assert(rs.take(n as int) =~= rs);
}

fn find_table(ts: &Vec<TableDef>, order: &Vec<usize>, tid: u16) -> (r: Option<usize>)
    requires
        by_number(ts@, order@),
    ensures
        match r {
            Some(i) => table_at(ts@, order@, tid, i as int),
            None => forall|i: int| !table_at(ts@, order@, tid, i),
        },
{
    let n: usize = order.len();
    let mut i: usize = 0;
    while i < n
        invariant
            i <= n == order@.len(),
            by_number(ts@, order@),
            forall|j: int| 0 <= j < i ==> ts@[(#[trigger] order@[j]) as int].tid != tid,
        decreases n - i,
    {
        if ts[order[i]].tid == tid {
            return Some(i);
        }
        i = i + 1;
    }
    None
}

/// The statements that build a database of these tables, with `rows` the rows of each, and
/// these indexes. `show` writes a double, by its bits, as short as it can be written.
pub fn snapshot_script<D: Fn(u64) -> String>(
    tables: &Vec<TableDef>,
    rows: &Vec<Vec<Vec<Value>>>,
    indexes: &Vec<IndexMeta>,
    show: &D,
) -> (out: Vec<String>)
    requires
        shows(*show),
        rows@.len() == tables@.len(),
        forall|i: int, j: int|
            0 <= i < indexes@.len() && 0 <= j < tables@.len() && (#[trigger] indexes@[i]).table_id
                == (#[trigger] tables@[j]).tid ==> indexes@[i].col_index
                < tables@[j].schema.columns@.len(),
    ensures
        builds(*show, tables@, row_lists(rows@), indexes@, lines(out@)),
{
    let ghost rl = row_lists(rows@);
    let order: Vec<usize> = sort_tables(tables);
    let mut out: Vec<String> = Vec::new();
    let n: usize = tables.len();
    let mut i: usize = 0;
    assert(lines(out@) =~= Seq::empty());
    while i < n
        invariant
            i <= n == tables@.len(),
            rows@.len() == n,
            shows(*show),
            by_number(tables@, order@),
            rl == row_lists(rows@),
            lines(out@) == tables_script(*show, tables@, rl, order@, i as nat),
        decreases n - i,
    {
        let t: usize = order[i];
        push_table(&mut out, &tables[t], &rows[t], show);
        i = i + 1;
    }
    let ghost base = lines(out@);
    let m: usize = indexes.len();
    let mut k: usize = 0;
    assert(base + indexes_script(tables@, order@, indexes@.take(0)) =~= base);
    while k < m
        invariant
            k <= m == indexes@.len(),
            by_number(tables@, order@),
            forall|i: int, j: int|
                0 <= i < indexes@.len() && 0 <= j < tables@.len() && (
                #[trigger] indexes@[i]).table_id == (#[trigger] tables@[j]).tid
                    ==> indexes@[i].col_index < tables@[j].schema.columns@.len(),
            lines(out@) == base + indexes_script(tables@, order@, indexes@.take(k as int)),
        decreases m - k,
    {
        let ghost was = out@;
        let x: &IndexMeta = &indexes[k];
        proof {
            assert(indexes@.take(k + 1).drop_last() =~= indexes@.take(k as int));
            assert(indexes@.take(k + 1).last() == *x);
        }
        match find_table(tables, &order, x.table_id) {
            Some(i) => {
                let t: &TableDef = &tables[order[i]];
                proof {
                    let c = choose|c: int| table_at(tables@, order@, x.table_id, c);
                    assert(table_at(tables@, order@, x.table_id, c));
                    assert(c == i) by {
                        if c < i {
                            assert(tables@[order@[c] as int].tid != x.table_id);
                        }
                        if i < c {
                            assert(tables@[order@[i as int] as int].tid != x.table_id);
                        }
                    }
                }
                let s: String = "CREATE INDEX ".to_owned().concat(x.name.as_str()).concat(
                    " ON ",
                ).concat(t.name.as_str()).concat(" (").concat(
                    t.schema.columns[x.col_index].name.as_str(),
                ).concat(")");
                out.push(s);
                proof {
                    assert(lines(was.push(s)) =~= lines(was).push(s@));
                    assert(lines(out@) =~= base + indexes_script(
                        tables@,
                        order@,
                        indexes@.take(k + 1),
                    ));
                }
            },
            None => {},
        }
        k = k + 1;
    }
    assert(indexes@.take(m as int) =~= indexes@);
    out
}

// ---- laws ----

/// Texts that differ are written differently.
pub proof fn law_quoted_texts_differ(a: Seq<char>, b: Seq<char>)
    requires
        doubled(a) == doubled(b),
    ensures
        a == b,
    decreases a.len(),
{
    reveal_strlit("''");
    let da = doubled(a);
    let db = doubled(b);
    if a.len() > 0 && b.len() > 0 {
        let pa = doubled(a.drop_last());
        let pb = doubled(b.drop_last());
        assert(da.last() == a.last());
        assert(db.last() == b.last());
        if a.last() == '\'' {
            assert(da.take(da.len() - 2) =~= pa);
            assert(db.take(db.len() - 2) =~= pb);
        } else {
            assert(da.drop_last() =~= pa);
            assert(db.drop_last() =~= pb);
        }
        law_quoted_texts_differ(a.drop_last(), b.drop_last());
        assert(a.drop_last().push(a.last()) =~= a);
        assert(b.drop_last().push(b.last()) =~= b);
    } else {
        assert(a =~= b);
    }
}

/// The number that a row of digits stands for.
pub open spec fn numeral(s: Seq<char>) -> int
    decreases s.len(),
{
    if s.len() == 0 {
        0
    } else {
        10 * numeral(s.drop_last()) + (s.last() as int - '0' as int)
    }
}

/// A number reads back from its digits.
pub proof fn law_numbers_read_back(n: nat)
    ensures
        numeral(decimal(n)) == n,
        forall|i: int|
            0 <= i < decimal(n).len() ==> '0' <= (#[trigger] decimal(n)[i]) <= '9',
    decreases n,
{
    let d = (n % 10) as int;
    lemma_digit(d);
    let s = decimal(n);
    if n < 10 {
        assert(s.drop_last() =~= Seq::empty());
        assert(numeral(s.drop_last()) == 0);
    } else {
        law_numbers_read_back(n / 10);
        assert(s.drop_last() =~= decimal(n / 10));
        assert(s.last() == digit(d)[0]);
    }
}

proof fn lemma_digit(d: int)
    requires
        0 <= d < 10,
    ensures
        digit(d).len() == 1,
        digit(d)[0] as int == '0' as int + d,
{
    reveal_strlit("0");
    reveal_strlit("1");
    reveal_strlit("2");
    reveal_strlit("3");
    reveal_strlit("4");
    reveal_strlit("5");
    reveal_strlit("6");
    reveal_strlit("7");
    reveal_strlit("8");
    reveal_strlit("9");
}

/// What a reader takes out of the inside of a quoted text: two quotes are one.
pub open spec fn unquoted(t: Seq<char>) -> Seq<char>
    decreases t.len(),
{
    if t.len() == 0 {
        t
    } else if t[0] == '\'' && t.len() > 1 {
        seq!['\''] + unquoted(t.skip(2))
    } else {
        seq![t[0]] + unquoted(t.skip(1))
    }
}

/// A reader does not leave the quoted text before its end: no quote in it stands alone.
pub open spec fn stays_inside(t: Seq<char>) -> bool
    decreases t.len(),
{
    if t.len() == 0 {
        true
    } else if t[0] == '\'' {
        t.len() >= 2 && t[1] == '\'' && stays_inside(t.skip(2))
    } else {
        stays_inside(t.skip(1))
    }
}

proof fn lemma_reads_on(a: Seq<char>, b: Seq<char>)
    requires
        stays_inside(a),
    ensures
        stays_inside(a + b) == stays_inside(b),
        unquoted(a + b) == unquoted(a) + unquoted(b),
    decreases a.len(),
{
    if a.len() == 0 {
        assert(a + b =~= b);
        assert(unquoted(a) + unquoted(b) =~= unquoted(b));
    } else if a[0] == '\'' {
        lemma_reads_on(a.skip(2), b);
        assert((a + b).skip(2) =~= a.skip(2) + b);
        assert(unquoted(a + b) =~= unquoted(a) + unquoted(b));
    } else {
        lemma_reads_on(a.skip(1), b);
        assert((a + b).skip(1) =~= a.skip(1) + b);
        assert(unquoted(a + b) =~= unquoted(a) + unquoted(b));
    }
}

/// A quoted text reads back as what it was, whatever quotes are in it.
pub proof fn law_quoted_texts_read_back(s: Seq<char>)
    ensures
        stays_inside(doubled(s)),
        unquoted(doubled(s)) == s,
    decreases s.len(),
{
    reveal_strlit("''");
    if s.len() > 0 {
        let init = s.drop_last();
        law_quoted_texts_read_back(init);
        let more = if s.last() == '\'' {
            "''"@
        } else {
            seq![s.last()]
        };
        assert(doubled(s) =~= doubled(init) + more);
        lemma_reads_on(doubled(init), more);
        reveal_with_fuel(stays_inside, 2);
        reveal_with_fuel(unquoted, 2);
        if s.last() == '\'' {
            assert(more.skip(2) =~= Seq::<char>::empty());
            assert(unquoted(more) =~= seq![s.last()]);
        } else {
            assert(more.skip(1) =~= Seq::<char>::empty());
            assert(unquoted(more) =~= seq![s.last()]);
        }
        assert(init + seq![s.last()] =~= s);
    }
}

/// Integers read back: a minus stands before the digits of those below zero, and of no other.
pub proof fn law_integers_read_back(n: int)
    ensures
        int_text(n).len() > 0,
        n < 0 <==> int_text(n)[0] == '-',
        n < 0 ==> numeral(int_text(n).skip(1)) == -n,
        n >= 0 ==> numeral(int_text(n)) == n,
{
    reveal_strlit("-");
    let m = if n < 0 {
        (-n) as nat
    } else {
        n as nat
    };
    law_numbers_read_back(m);
    lemma_digit((m % 10) as int);
    assert(decimal(m).len() > 0);
    if n < 0 {
        assert(int_text(n).skip(1) =~= decimal(m));
    } else {
        assert('0' <= decimal(m)[0] <= '9');
    }
}

/// Different types are spelled differently.
pub proof fn law_types_are_told_apart(a: ColumnType, b: ColumnType)
    requires
        type_text(a) == type_text(b),
    ensures
        a == b,
{
    reveal_strlit("BOOL");
    reveal_strlit("INT");
    reveal_strlit("BIGINT");
    reveal_strlit("DOUBLE");
    reveal_strlit("VARCHAR(");
    reveal_strlit(")");
    assert("BIGINT"@[0] == 'B');
    assert("DOUBLE"@[0] == 'D');
    assert("BOOL"@.len() == 4 && "INT"@.len() == 3 && "BIGINT"@.len() == 6 && "DOUBLE"@.len() == 6);
    assert(a is Varchar ==> type_text(a).len() > 8);
    assert(b is Varchar ==> type_text(b).len() > 8);
    if let ColumnType::Varchar(n) = a {
        if let ColumnType::Varchar(m) = b {
            law_numbers_read_back(n as nat);
            law_numbers_read_back(m as nat);
            let x = type_text(a);
            let y = type_text(b);
            assert(x.subrange(8, x.len() - 1) =~= decimal(n as nat));
            assert(y.subrange(8, y.len() - 1) =~= decimal(m as nat));
            assert(decimal(n as nat) == decimal(m as nat));
            assert(n == m);
        }
    }
}

/// `t` ends with `end`.
pub open spec fn ends_with(t: Seq<char>, end: Seq<char>) -> bool {
    t.len() >= end.len() && t.skip(t.len() - end.len()) == end
}

/// A column is written NOT NULL exactly where it takes no null.
pub proof fn law_not_null_is_written(c: ColumnDef)
    ensures
        ends_with(column_text(c), " NOT NULL"@) <==> c.not_null,
{
    reveal_strlit(" NOT NULL");
    reveal_strlit("");
    reveal_strlit(" ");
    reveal_strlit("BOOL");
    reveal_strlit("INT");
    reveal_strlit("BIGINT");
    reveal_strlit("DOUBLE");
    reveal_strlit("VARCHAR(");
    reveal_strlit(")");
    let t = column_text(c);
    let end = " NOT NULL"@;
    let ty = type_text(c.ty);
    if c.not_null {
        assert(t.skip(t.len() - end.len()) =~= end);
    } else {
        assert(t =~= c.name@ + " "@ + ty);
        assert(ty.len() >= 3);
        assert(t[t.len() - 1] == ty[ty.len() - 1]);
        if ends_with(t, end) {
            let tail = t.skip(t.len() - end.len());
            assert(tail[8] == t[t.len() - 1]);
            assert(tail[8] == 'L');
            assert(tail[5] == 'N');
            assert(tail[5] == t[t.len() - 4]);
            if c.ty is Bool {
                assert(t[t.len() - 4] == ty[0]);
            }
        }
    }
}

/// The statements of the tables stand one table after the other: the table at `at[i]`, and
/// behind it its rows in their order.
pub open spec fn builds_tables<D: Fn(u64) -> String>(
    show: D,
    ts: Seq<TableDef>,
    rows: Seq<Seq<Seq<Value>>>,
    order: Seq<usize>,
    at: Seq<int>,
    script: Seq<Seq<char>>,
) -> bool {
    &&& at.len() == order.len() + 1
    &&& at[0] == 0
    &&& forall|i: int|
        0 <= i < order.len() ==> at[i + 1] == #[trigger] at[i] + 1 + rows[order[i] as int].len()
    &&& at[order.len() as int] <= script.len()
    &&& forall|i: int|
        0 <= i < order.len() ==> 0 <= #[trigger] at[i] < script.len() && script[at[i]]
            == create_text(ts[order[i] as int])
    &&& forall|i: int, j: int|
        0 <= i < order.len() && 0 <= j < rows[#[trigger] order[i] as int].len()
            ==> #[trigger] row_stands(show, ts, rows, order, at, script, i, j)
}

/// Row `j` of the `i`th table is inserted behind the rows before it.
pub open spec fn row_stands<D: Fn(u64) -> String>(
    show: D,
    ts: Seq<TableDef>,
    rows: Seq<Seq<Seq<Value>>>,
    order: Seq<usize>,
    at: Seq<int>,
    script: Seq<Seq<char>>,
    i: int,
    j: int,
) -> bool {
    let t = order[i] as int;
    let k = at[i] + 1 + j;
    0 <= k < script.len() && script[k] == insert_text(show, ts[t].name@, rows[t][j])
}

#[verifier::rlimit(60)]
#[verifier::spinoff_prover]
proof fn lemma_tables_script<D: Fn(u64) -> String>(
    show: D,
    ts: Seq<TableDef>,
    rows: Seq<Seq<Seq<Value>>>,
    order: Seq<usize>,
    n: nat,
) -> (at: Seq<int>)
    requires
        n <= order.len(),
    ensures
        builds_tables(show, ts, rows, order.take(n as int), at, tables_script(show, ts, rows, order, n)),
        at[n as int] == tables_script(show, ts, rows, order, n).len(),
    decreases n,
{
    if n == 0 {
        seq![0int]
    } else {
        let m = (n - 1) as nat;
        let was = lemma_tables_script(show, ts, rows, order, m);
        let before = tables_script(show, ts, rows, order, m);
        let script = tables_script(show, ts, rows, order, n);
        let t = order[m as int] as int;
        let o = order.take(n as int);
        let o0 = order.take(m as int);
        let at = was.push(was[m as int] + 1 + rows[t].len());
        assert(o[m as int] == order[m as int]);
        assert forall|i: int| 0 <= i < m implies o[i] == #[trigger] o0[i] by {}
        assert forall|i: int| 0 <= i < o.len() implies at[i + 1] == #[trigger] at[i] + 1
            + rows[o[i] as int].len() by {
            if i < m {
                assert(was[i + 1] == was[i] + 1 + rows[o0[i] as int].len());
            }
        }
        assert forall|i: int| 0 <= i < o.len() implies 0 <= #[trigger] at[i] < script.len()
            && script[at[i]] == create_text(ts[o[i] as int]) by {
            if i < m {
                assert(at[i] == was[i]);
                assert(o0[i] == o[i]);
                assert(before[was[i]] == create_text(ts[o0[i] as int]));
            }
        }
        assert forall|i: int, j: int|
            0 <= i < o.len() && 0 <= j < rows[#[trigger] o[i] as int].len()
                implies #[trigger] row_stands(show, ts, rows, o, at, script, i, j) by {
            if i < m {
                assert(o0[i] == o[i]);
                assert(row_stands(show, ts, rows, o0, was, before, i, j));
                assert(at[i] == was[i]);
            } else {
                assert(at[i] == before.len());
            }
        }
        at
    }
}

/// A table of the number is listed.
pub open spec fn has_number(ts: Seq<TableDef>, order: Seq<usize>, tid: u16) -> bool {
    exists|i: int| 0 <= i < order.len() && ts[(#[trigger] order[i]) as int].tid == tid
}

/// The text makes the index on the column of its table.
pub open spec fn makes_index(
    ts: Seq<TableDef>,
    order: Seq<usize>,
    m: IndexMeta,
    text: Seq<char>,
) -> bool {
    exists|i: int|
        0 <= i < order.len() && ts[(#[trigger] order[i]) as int].tid == m.table_id && text
            == index_text(m, ts[order[i] as int])
}

/// `at` numbers, upwards, exactly the indexes whose tables are listed, and `script` makes them
/// in that order.
pub open spec fn builds_indexes(
    ts: Seq<TableDef>,
    order: Seq<usize>,
    ms: Seq<IndexMeta>,
    at: Seq<int>,
    script: Seq<Seq<char>>,
) -> bool {
    &&& script.len() == at.len()
    &&& forall|i: int, j: int| 0 <= i < j < at.len() ==> #[trigger] at[i] < #[trigger] at[j]
    &&& forall|i: int|
        0 <= i < at.len() ==> 0 <= #[trigger] at[i] < ms.len() && makes_index(
            ts,
            order,
            ms[at[i]],
            script[i],
        )
    &&& forall|k: int|
        0 <= k < ms.len() && has_number(ts, order, (#[trigger] ms[k]).table_id) ==> at.contains(k)
}

proof fn lemma_first_of_number(ts: Seq<TableDef>, order: Seq<usize>, tid: u16, n: int)
    requires
        0 <= n <= order.len(),
    ensures
        (exists|i: int| 0 <= i < n && ts[(#[trigger] order[i]) as int].tid == tid) ==> exists|i: int|
            table_at(ts, order, tid, i),
    decreases n,
{
    if n > 0 {
        lemma_first_of_number(ts, order, tid, n - 1);
        if ts[order[n - 1] as int].tid == tid && !(exists|i: int|
            0 <= i < n - 1 && ts[(#[trigger] order[i]) as int].tid == tid) {
            assert(table_at(ts, order, tid, n - 1));
        }
    }
}

proof fn lemma_indexes_script(ts: Seq<TableDef>, order: Seq<usize>, ms: Seq<IndexMeta>) -> (at: Seq<
    int,
>)
    ensures
        builds_indexes(ts, order, ms, at, indexes_script(ts, order, ms)),
    decreases ms.len(),
{
    if ms.len() == 0 {
        Seq::empty()
    } else {
        let init = ms.drop_last();
        let n = ms.len() - 1;
        let m = ms.last();
        let was = lemma_indexes_script(ts, order, init);
        let before = indexes_script(ts, order, init);
        let script = indexes_script(ts, order, ms);
        lemma_first_of_number(ts, order, m.table_id, order.len() as int);
        let keep = exists|i: int| table_at(ts, order, m.table_id, i);
        let at = if keep {
            was.push(n)
        } else {
            was
        };
        if keep {
            let i = choose|i: int| table_at(ts, order, m.table_id, i);
            assert(ts[order[i] as int].tid == m.table_id);
            assert(makes_index(ts, order, m, script[was.len() as int]));
        }
        assert forall|i: int, j: int| 0 <= i < j < at.len() implies #[trigger] at[i]
            < #[trigger] at[j] by {
            assert(was[i] == at[i]);
            if j < was.len() {
                assert(was[j] == at[j]);
            }
        }
        assert forall|i: int| 0 <= i < at.len() implies 0 <= #[trigger] at[i] < ms.len()
            && makes_index(ts, order, ms[at[i]], script[i]) by {
            if i < was.len() {
                assert(was[i] == at[i]);
                assert(init[was[i]] == ms[at[i]]);
                assert(script[i] == before[i]);
            }
        }
        assert forall|k: int|
            0 <= k < ms.len() && has_number(ts, order, (#[trigger] ms[k]).table_id)
                implies at.contains(k) by {
            if k < n {
                assert(init[k] == ms[k]);
                assert(was.contains(k));
                let i = was.index_of(k);
                assert(at[i] == k);
            } else {
                assert(at[was.len() as int] == k);
            }
        }
        at
    }
}

/// The statements that build a database create every table, by their numbers, insert all its
/// rows behind it in their order, and make the indexes of these tables behind all that, and
/// they do nothing else.
pub proof fn law_scripts_build_everything<D: Fn(u64) -> String>(
    show: D,
    ts: Seq<TableDef>,
    rows: Seq<Seq<Seq<Value>>>,
    ms: Seq<IndexMeta>,
    script: Seq<Seq<char>>,
) -> (w: (Seq<usize>, Seq<int>, Seq<int>))
    requires
        builds(show, ts, rows, ms, script),
    ensures
        w.0.len() == ts.len(),
        forall|k: usize| k < ts.len() ==> #[trigger] w.0.contains(k),
        forall|i: int, j: int|
            0 <= i < j < w.0.len() ==> w.0[i] != w.0[j] && ts[(#[trigger] w.0[i]) as int].tid
                <= ts[(#[trigger] w.0[j]) as int].tid,
        builds_tables(show, ts, rows, w.0, w.1, script),
        builds_indexes(ts, w.0, ms, w.2, script.skip(w.1[ts.len() as int])),
{
    let order = choose|order: Seq<usize>| #[trigger]
        by_number(ts, order) && script == tables_script(show, ts, rows, order, ts.len())
            + indexes_script(ts, order, ms);
    assert forall|i: int, j: int| 0 <= i < j < order.len() implies order[i] != order[j] && ts[(
    #[trigger] order[i]) as int].tid <= ts[(#[trigger] order[j]) as int].tid by {
        assert(sorts_before(ts, order[i], order[j]));
    }
    assert(order.no_duplicates()) by {
        assert forall|i: int, j: int|
            0 <= i < order.len() && 0 <= j < order.len() && i != j implies order[i]
            != order[j] by {
            if i < j {
                assert(sorts_before(ts, order[i], order[j]));
            } else {
                assert(sorts_before(ts, order[j], order[i]));
            }
        }
    }
    assert forall|k: usize| k < ts.len() implies #[trigger] order.contains(k) by {
        lemma_all_below(order, ts.len() as int, k);
    }
    let at = lemma_tables_script(show, ts, rows, order, ts.len());
    let ix = lemma_indexes_script(ts, order, ms);
    let first = tables_script(show, ts, rows, order, ts.len());
    assert(order.take(ts.len() as int) =~= order);
    assert(script.skip(first.len() as int) =~= indexes_script(ts, order, ms));
    assert forall|i: int, j: int|
        0 <= i < order.len() && 0 <= j < rows[#[trigger] order[i] as int].len()
            implies #[trigger] row_stands(show, ts, rows, order, at, script, i, j) by {
        assert(row_stands(show, ts, rows, order, at, first, i, j));
    }
    (order, at, ix)
}

} // verus!
