//! What statements do to rows and records: which columns values go to, what a table's
//! records are, what a dropped table takes with it, and which index entries a changed
//! row needs.

use vstd::prelude::*;
use vstd::utf8::{encode_utf8, valid_utf8};

use crate::bytes::{copy_bytes, le16, le16_bytes, le32, lemma_le16_bytes, push_u16, rd_u16};
use crate::db::catalog::{
    columns, entry_key, index_fits, index_key, index_type, parse_catalog, parse_index, table_at,
    table_fits, text_at, text_end, ColumnView, IndexMeta, Schema, CATALOG_TID, FIRST_USER_TID, INDEX_TID,
};
use crate::db::plan::column_named;
use crate::db::session::words;
use crate::db::{exec_err, says, DbError};
use crate::heap::Rid;
use crate::types::{fits_type, views, Value, ValueView};

verus! {

// ---- rows ----

/// `prefix` + `name` + `'`.
pub open spec fn quoted(prefix: Seq<char>, name: Seq<char>) -> Seq<char> {
    prefix + name + "'"@
}

pub(crate) fn quoted_err<T>(prefix: &str, name: &String) -> (r: Result<T, DbError>)
    ensures
        r is Err && says(r->Err_0, quoted(prefix@, name@)),
{
    let text: String = prefix.to_owned().concat(name.as_str()).concat("'");
    Err(DbError::Exec(text))
}

/// A column has the name.
pub open spec fn known(schema: &Schema, name: Seq<char>) -> bool {
    exists|k: int| column_named(schema, name, k)
}

/// The first name that is no column's.
pub open spec fn first_unknown(schema: &Schema, names: Seq<Seq<char>>, i: int) -> bool {
    &&& 0 <= i < names.len()
    &&& !known(schema, names[i])
    &&& forall|j: int| 0 <= j < i ==> known(schema, #[trigger] names[j])
}

/// The columns that values are given for, in the order of the values.
pub fn resolve_columns(schema: &Schema, cols: &Option<Vec<String>>) -> (r: Result<
    Vec<usize>,
    DbError,
>)
    ensures
        match (cols, r) {
            (None, Ok(v)) => v@ == Seq::new(schema.columns@.len(), |i: int| i as usize),
            (None, Err(_)) => false,
            (Some(names), Ok(v)) => v@.len() == names@.len() && forall|i: int|
                0 <= i < v@.len() ==> column_named(
                    schema,
                    words(names@)[i],
                    #[trigger] v@[i] as int,
                ),
            (Some(names), Err(e)) => exists|i: int| #[trigger]
                first_unknown(schema, words(names@), i) && says(
                    e,
                    quoted("no column '"@, words(names@)[i]),
                ),
        },
        r matches Ok(v) ==> forall|i: int|
            0 <= i < v@.len() ==> (#[trigger] v@[i]) < schema.columns@.len(),
{
    let mut out: Vec<usize> = Vec::new();
    match cols {
        None => {
            let n: usize = schema.len();
            let mut i: usize = 0;
            while i < n
                invariant
                    i <= n == schema.columns@.len(),
                    out@ == Seq::new(i as nat, |j: int| j as usize),
                decreases n - i,
            {
                out.push(i);
                i = i + 1;
                assert(out@ =~= Seq::new(i as nat, |j: int| j as usize));
            }
        },
        Some(names) => {
            return resolve_names(schema, names);
        },
    }
    Ok(out)
}

/// The columns of these names.
fn resolve_names(schema: &Schema, names: &Vec<String>) -> (r: Result<Vec<usize>, DbError>)
    ensures
        match r {
            Ok(v) => v@.len() == names@.len() && forall|i: int|
                0 <= i < v@.len() ==> column_named(
                    schema,
                    words(names@)[i],
                    #[trigger] v@[i] as int,
                ),
            Err(e) => exists|i: int| #[trigger]
                first_unknown(schema, words(names@), i) && says(
                    e,
                    quoted("no column '"@, words(names@)[i]),
                ),
        },
{
    let ghost ws = words(names@);
    let mut out: Vec<usize> = Vec::new();
    let mut i: usize = 0;
    while i < names.len()
        invariant
            i <= names@.len(),
            ws == words(names@),
            out@.len() == i,
            forall|j: int| 0 <= j < i ==> column_named(schema, ws[j], #[trigger] out@[j] as int),
        decreases names@.len() - i,
    {
        assert(ws[i as int] == names@[i as int]@);
        match schema.column_index(names[i].as_str()) {
            Some(c) => {
                assert(column_named(schema, ws[i as int], c as int));
                out.push(c);
            },
            None => {
                proof {
                    assert forall|k: int| !column_named(schema, ws[i as int], k) by {
                        if column_named(schema, ws[i as int], k) {
                            assert(schema.columns@[k].name@ == ws[i as int]);
                        }
                    }
                    assert forall|j: int| 0 <= j < i implies known(schema, #[trigger] ws[j]) by {
                        assert(column_named(schema, ws[j], out@[j] as int));
                    }
                    assert(first_unknown(schema, ws, i as int));
                }
                return quoted_err("no column '", &names[i]);
            },
        }
        i = i + 1;
    }
    Ok(out)
}

/// As many values as columns?
pub fn check_count(columns: usize, values: usize) -> (r: Result<(), DbError>)
    ensures
        match r {
            Ok(()) => columns == values,
            Err(e) => columns != values && says(
                e,
                "INSERT value count does not match column count"@,
            ),
        },
{
    if columns != values {
        return exec_err("INSERT value count does not match column count");
    }
    Ok(())
}

/// A row of `n` nulls with the values put in their columns, one after the other.
pub open spec fn filled(n: nat, order: Seq<usize>, vals: Seq<ValueView>) -> Seq<ValueView>
    decreases order.len(),
{
    if order.len() == 0 {
        Seq::new(n, |i: int| ValueView::Null)
    } else {
        filled(n, order.drop_last(), vals.drop_last()).update(order.last() as int, vals.last())
    }
}

/// Put the values of one row in their columns; the others are null.
pub fn assemble_row(n: usize, order: &Vec<usize>, vals: &Vec<Value>) -> (row: Vec<Value>)
    requires
        order@.len() == vals@.len(),
        forall|i: int| 0 <= i < order@.len() ==> (#[trigger] order@[i]) < n,
    ensures
        views(row@) == filled(n as nat, order@, views(vals@)),
        row@.len() == n,
{
    let ghost vv = views(vals@);
    let mut row: Vec<Value> = Vec::new();
    let mut k: usize = 0;
    while k < n
        invariant
            k <= n,
            row@.len() == k,
            forall|j: int| 0 <= j < k ==> (#[trigger] row@[j])@ == ValueView::Null,
        decreases n - k,
    {
        row.push(Value::Null);
        k = k + 1;
    }
    let mut i: usize = 0;
    proof {
        assert(order@.take(0) =~= Seq::empty());
        assert(views(row@) =~= filled(n as nat, order@.take(0), vv.take(0)));
    }
    while i < order.len()
        invariant
            i <= order@.len() == vals@.len(),
            vv == views(vals@),
            row@.len() == n,
            forall|i: int| 0 <= i < order@.len() ==> (#[trigger] order@[i]) < n,
            views(row@) == filled(n as nat, order@.take(i as int), vv.take(i as int)),
        decreases order@.len() - i,
    {
        let ghost was = row@;
        let c: usize = order[i];
        let v: Value = vals[i].clone();
        row.set(c, v);
        proof {
            assert(order@.take(i + 1).drop_last() =~= order@.take(i as int));
            assert(vv.take(i + 1).drop_last() =~= vv.take(i as int));
            assert(vv.take(i + 1).last() == v@);
            assert(views(row@) =~= views(was).update(c as int, v@));
        }
        i = i + 1;
    }
    assert(order@.take(i as int) =~= order@);
    assert(vv.take(i as int) =~= vv);
    row
}

/// Assign a value to a column of a row.
pub fn assign(schema: &Schema, row: &mut Vec<Value>, column: usize, v: Value) -> (r: Result<
    (),
    DbError,
>)
    requires
        column < schema.columns@.len(),
        old(row)@.len() == schema.columns@.len(),
    ensures
        ({
            let c = schema.columns@[column as int];
            let refused = c.not_null && v@ == ValueView::Null;
            match r {
                Ok(()) => !refused && views(final(row)@) == views(old(row)@).update(
                    column as int,
                    v@,
                ),
                Err(e) => refused && final(row)@ == old(row)@ && says(
                    e,
                    quoted("NULL in NOT NULL column '"@, c.name@),
                ),
            }
        }),
        final(row)@.len() == old(row)@.len(),
{
    if schema.columns[column].not_null && v.is_null() {
        return quoted_err("NULL in NOT NULL column '", &schema.columns[column].name);
    }
    let ghost was = row@;
    row.set(column, v);
    assert(views(row@) =~= views(was).update(column as int, v@));
    Ok(())
}

/// The column of a new index.
pub fn index_column(schema: &Schema, cols: &Vec<String>) -> (r: Result<usize, DbError>)
    ensures
        match r {
            Ok(c) => cols@.len() == 1 && column_named(schema, cols@[0]@, c as int),
            Err(e) => if cols@.len() != 1 {
                says(e, "only single-column indexes are supported"@)
            } else {
                !known(schema, cols@[0]@) && says(
                    e,
                    quoted("no column '"@, cols@[0]@),
                )
            },
        },
{
    if cols.len() != 1 {
        return exec_err("only single-column indexes are supported");
    }
    match schema.column_index(cols[0].as_str()) {
        Some(c) => Ok(c),
        None => {
            proof {
                assert forall|k: int| !column_named(schema, cols@[0]@, k) by {
                    if column_named(schema, cols@[0]@, k) {
                        assert(schema.columns@[k].name@ == cols@[0]@);
                    }
                }
            }
            quoted_err("no column '", &cols[0])
        },
    }
}

// ---- records ----

/// The record of a row, a table or an index: the table number, then the payload.
pub open spec fn table_record(tid: u16, payload: Seq<u8>) -> Seq<u8> {
    le16_bytes(tid) + payload
}

pub fn row_record(tid: u16, payload: &[u8]) -> (r: Vec<u8>)
    ensures
        r@ == table_record(tid, payload@),
{
    let mut r: Vec<u8> = Vec::new();
    push_u16(&mut r, tid);
    r.extend_from_slice(payload);
    assert(r@ =~= table_record(tid, payload@));
    r
}

/// The table a record belongs to.
pub open spec fn table_of(rec: Seq<u8>) -> Option<u16> {
    if rec.len() < 2 {
        None
    } else {
        Some(le16(rec, 0) as u16)
    }
}

/// A record belongs to the table it was made for and holds what was put in.
pub proof fn law_record_roundtrip(tid: u16, payload: Seq<u8>)
    ensures
        table_of(table_record(tid, payload)) == Some(tid),
        table_record(tid, payload).skip(2) == payload,
{
    let r = table_record(tid, payload);
    assert(r.subrange(0, 2) =~= le16_bytes(tid));
    lemma_le16_bytes(r, 0, tid);
    assert(r.skip(2) =~= payload);
}

fn read_table(rec: &Vec<u8>) -> (r: Option<u16>)
    ensures
        r == table_of(rec@),
{
    if rec.len() < 2 {
        return None;
    }
    Some(rd_u16(rec.as_slice(), 0))
}

fn payload_of(rec: &Vec<u8>) -> (r: Vec<u8>)
    requires
        rec@.len() >= 2,
    ensures
        r@ == rec@.skip(2),
{
    let n: usize = rec.len();
    let r: Vec<u8> = copy_bytes(&rec.as_slice()[2..n]);
    assert(r@ =~= rec@.skip(2));
    r
}

pub open spec fn rec_views(rs: Seq<(Rid, Vec<u8>)>) -> Seq<(Rid, Seq<u8>)> {
    rs.map_values(|r: (Rid, Vec<u8>)| (r.0, r.1@))
}

/// The payloads of a table's records, in order.
pub open spec fn payloads(rs: Seq<(Rid, Seq<u8>)>, tid: u16) -> Seq<(Rid, Seq<u8>)>
    decreases rs.len(),
{
    if rs.len() == 0 {
        Seq::empty()
    } else if table_of(rs.last().1) == Some(tid) {
        payloads(rs.drop_last(), tid).push((rs.last().0, rs.last().1.skip(2)))
    } else {
        payloads(rs.drop_last(), tid)
    }
}

/// The rows of a table among all records.
pub fn table_rows(rs: &Vec<(Rid, Vec<u8>)>, tid: u16) -> (out: Vec<(Rid, Vec<u8>)>)
    ensures
        rec_views(out@) == payloads(rec_views(rs@), tid),
{
    let ghost rv = rec_views(rs@);
    let mut out: Vec<(Rid, Vec<u8>)> = Vec::new();
    let mut i: usize = 0;
    proof {
        assert(rv.take(0) =~= Seq::empty());
        assert(rec_views(out@) =~= Seq::empty());
    }
    while i < rs.len()
        invariant
            i <= rs@.len(),
            rv == rec_views(rs@),
            rec_views(out@) == payloads(rv.take(i as int), tid),
        decreases rs@.len() - i,
    {
        proof {
            assert(rv.take(i + 1).drop_last() =~= rv.take(i as int));
            assert(rv.take(i + 1).last() == (rs@[i as int].0, rs@[i as int].1@));
        }
        let mine: bool = match read_table(&rs[i].1) {
            Some(t) => t == tid,
            None => false,
        };
        if mine {
            let ghost was = out@;
            let rid: Rid = rs[i].0;
            let p: Vec<u8> = payload_of(&rs[i].1);
            out.push((rid, p));
            assert(rec_views(out@) =~= rec_views(was).push((rid, p@)));
        }
        i = i + 1;
    }
    assert(rv.take(i as int) =~= rv);
    out
}

/// Every catalog record holds a whole definition.
pub open spec fn catalog_fits(rs: Seq<(Rid, Seq<u8>)>) -> bool {
    forall|i: int| 0 <= i < rs.len() ==> record_fits((#[trigger] rs[i]).1)
}

pub open spec fn record_fits(rec: Seq<u8>) -> bool {
    &&& table_of(rec) == Some(CATALOG_TID) ==> table_fits(rec.skip(2))
    &&& table_of(rec) == Some(INDEX_TID) ==> index_fits(rec.skip(2))
}

/// The record goes when table `tid` is dropped: its rows, its definition and those of
/// its indexes.
pub open spec fn goes_with_table(rec: Seq<u8>, tid: u16) -> bool {
    let p = rec.skip(2);
    match table_of(rec) {
        None => false,
        Some(t) => if t == tid {
            true
        } else if t == CATALOG_TID {
            table_at(p) matches Ok(d) && d.0 == tid
        } else if t == INDEX_TID {
            valid_utf8(text_at(p, 0)) && index_type(p) is Some && le16(p, text_end(p, 0)) == tid
        } else {
            false
        },
    }
}

fn is_doomed(rec: &Vec<u8>, tid: u16) -> (r: bool)
    requires
        record_fits(rec@),
    ensures
        r == goes_with_table(rec@, tid),
{
    let t: u16 = match read_table(rec) {
        Some(t) => t,
        None => {
            return false;
        },
    };
    if t == tid {
        return true;
    }
    if t == CATALOG_TID {
        return match parse_catalog(payload_of(rec).as_slice()) {
            Ok((ctid, _, _)) => ctid == tid,
            Err(_) => false,
        };
    }
    if t == INDEX_TID {
        return match parse_index(payload_of(rec).as_slice()) {
            Ok(m) => m.table_id == tid,
            Err(_) => false,
        };
    }
    false
}

pub open spec fn doomed(rs: Seq<(Rid, Seq<u8>)>, tid: u16) -> Seq<Rid>
    decreases rs.len(),
{
    if rs.len() == 0 {
        Seq::empty()
    } else if goes_with_table(rs.last().1, tid) {
        doomed(rs.drop_last(), tid).push(rs.last().0)
    } else {
        doomed(rs.drop_last(), tid)
    }
}

/// The records to delete when a table is dropped.
pub fn doomed_records(rs: &Vec<(Rid, Vec<u8>)>, tid: u16) -> (out: Vec<Rid>)
    requires
        catalog_fits(rec_views(rs@)),
    ensures
        out@ == doomed(rec_views(rs@), tid),
{
    let ghost rv = rec_views(rs@);
    let mut out: Vec<Rid> = Vec::new();
    let mut i: usize = 0;
    assert(rv.take(0) =~= Seq::empty());
    while i < rs.len()
        invariant
            i <= rs@.len(),
            rv == rec_views(rs@),
            catalog_fits(rv),
            out@ == doomed(rv.take(i as int), tid),
        decreases rs@.len() - i,
    {
        proof {
            assert(rv.take(i + 1).drop_last() =~= rv.take(i as int));
            assert(rv.take(i + 1).last() == (rs@[i as int].0, rs@[i as int].1@));
            assert(record_fits(rv[i as int].1));
        }
        if is_doomed(&rs[i].1, tid) {
            out.push(rs[i].0);
        }
        i = i + 1;
    }
    assert(rv.take(i as int) =~= rv);
    out
}

// ---- the catalog ----

/// A table: its name, number and columns.
pub struct TableDef {
    pub name: String,
    pub tid: u16,
    pub schema: Schema,
}

/// What the catalog records say.
pub struct Catalog {
    /// Table definitions in the order of their records.
    pub tables: Vec<TableDef>,
    /// Index definitions in the order of their records.
    pub indexes: Vec<IndexMeta>,
    /// The number of the next table.
    pub next_tid: u16,
}

/// The records of one kind, in order.
pub open spec fn of_kind(rs: Seq<(Rid, Seq<u8>)>, kind: u16) -> Seq<(Rid, Seq<u8>)> {
    payloads(rs, kind)
}

/// The greatest table number there is a definition of.
pub open spec fn greatest_tid(rs: Seq<(Rid, Seq<u8>)>) -> int
    decreases rs.len(),
{
    if rs.len() == 0 {
        0
    } else {
        let g = greatest_tid(rs.drop_last());
        match table_at(rs.last().1) {
            Ok(d) => if d.0 > g {
                d.0 as int
            } else {
                g
            },
            Err(_) => g,
        }
    }
}

/// A table as its definition gives it: its number, the bytes of its name, and its columns.
pub type Definition = (u16, Seq<u8>, Seq<ColumnView>);

pub open spec fn definition(d: TableDef) -> Definition {
    (d.tid, encode_utf8(d.name@), columns(d.schema.columns@))
}

/// Where the table of a name stands, or the length where there is none.
pub open spec fn place_of(ds: Seq<Definition>, name: Seq<u8>) -> int
    decreases ds.len(),
{
    if ds.len() == 0 {
        0
    } else if place_of(ds.drop_last(), name) < ds.len() - 1 {
        place_of(ds.drop_last(), name)
    } else if ds.last().1 == name {
        ds.len() - 1
    } else {
        ds.len() as int
    }
}

/// One more definition: it takes the place of an earlier one of its name.
pub open spec fn redefined(ds: Seq<Definition>, d: Definition) -> Seq<Definition> {
    let k = place_of(ds, d.1);
    if k < ds.len() {
        ds.update(k, d)
    } else {
        ds.push(d)
    }
}

/// The tables that records define: of two definitions of a name the later counts.
pub open spec fn definitions(ts: Seq<(Rid, Seq<u8>)>) -> Seq<Definition>
    decreases ts.len(),
{
    if ts.len() == 0 {
        Seq::empty()
    } else {
        redefined(definitions(ts.drop_last()), table_at(ts.last().1)->Ok_0)
    }
}

/// The tables are those that records define.
pub open spec fn tables_read(tables: Seq<TableDef>, ts: Seq<(Rid, Seq<u8>)>) -> bool {
    &&& tables.len() == definitions(ts).len()
    &&& forall|i: int| 0 <= i < tables.len() ==> definition(#[trigger] tables[i]) == definitions(ts)[i]
}

/// No two tables have a name in common.
pub open spec fn own_names(tables: Seq<TableDef>) -> bool {
    forall|i: int, j: int|
        0 <= i < j < tables.len() ==> (#[trigger] tables[i]).name@ != (#[trigger] tables[j]).name@
}

/// The place of a name is the first that bears it.
pub proof fn lemma_place_of(ds: Seq<Definition>, name: Seq<u8>)
    ensures
        0 <= place_of(ds, name) <= ds.len(),
        place_of(ds, name) < ds.len() ==> ds[place_of(ds, name)].1 == name,
        forall|i: int| 0 <= i < place_of(ds, name) ==> (#[trigger] ds[i]).1 != name,
    decreases ds.len(),
{
    if ds.len() > 0 {
        let init = ds.drop_last();
        lemma_place_of(init, name);
        assert forall|i: int| 0 <= i < place_of(ds, name) implies (#[trigger] ds[i]).1 != name by {
            if i < init.len() {
                assert(init[i] == ds[i]);
            }
        }
    }
}

/// Definitions leave each name once.
pub proof fn law_definitions_have_own_names(ts: Seq<(Rid, Seq<u8>)>)
    ensures
        forall|i: int, j: int|
            0 <= i < j < definitions(ts).len() ==> (#[trigger] definitions(ts)[i]).1 != (
            #[trigger] definitions(ts)[j]).1,
    decreases ts.len(),
{
    if ts.len() > 0 {
        let ds = definitions(ts.drop_last());
        let d = table_at(ts.last().1)->Ok_0;
        law_definitions_have_own_names(ts.drop_last());
        lemma_place_of(ds, d.1);
        let k = place_of(ds, d.1);
        let now = definitions(ts);
        assert forall|i: int, j: int| 0 <= i < j < now.len() implies (#[trigger] now[i]).1 != (
        #[trigger] now[j]).1 by {
            if i != k && i < ds.len() {
                assert(now[i] == ds[i]);
            }
            if j != k && j < ds.len() {
                assert(now[j] == ds[j]);
            }
            if k < ds.len() {
                assert(ds[k].1 == d.1);
                assert(ds[i].1 != ds[j].1);
            }
        }
    }
}

/// Tables that definitions give have names of their own.
pub proof fn lemma_own_names(tables: Seq<TableDef>, ts: Seq<(Rid, Seq<u8>)>)
    requires
        tables_read(tables, ts),
    ensures
        own_names(tables),
{
    law_definitions_have_own_names(ts);
    assert forall|i: int, j: int| 0 <= i < j < tables.len() implies (#[trigger] tables[i]).name@ != (
    #[trigger] tables[j]).name@ by {
        assert(definition(tables[i]) == definitions(ts)[i]);
        assert(definition(tables[j]) == definitions(ts)[j]);
    }
}

/// Take a definition among the tables: it takes the place of an earlier one of its name.
fn define(tables: &mut Vec<TableDef>, d: TableDef, Ghost(ds): Ghost<Seq<Definition>>)
    requires
        old(tables)@.len() == ds.len(),
        forall|i: int| 0 <= i < ds.len() ==> definition(#[trigger] old(tables)@[i]) == ds[i],
    ensures
        final(tables)@.len() == redefined(ds, definition(d)).len(),
        forall|i: int|
            0 <= i < final(tables)@.len() ==> definition(#[trigger] final(tables)@[i]) == redefined(
                ds,
                definition(d),
            )[i],
{
    let ghost bytes = encode_utf8(d.name@);
    let ghost at = place_of(ds, bytes);
    proof {
        lemma_place_of(ds, bytes);
    }
    let mut k: usize = 0;
    while k < tables.len()
        invariant
            k <= tables@.len(),
            *tables == *old(tables),
            tables@.len() == ds.len(),
            forall|i: int| 0 <= i < ds.len() ==> definition(#[trigger] tables@[i]) == ds[i],
            bytes == encode_utf8(d.name@),
            at == place_of(ds, bytes),
            0 <= at <= ds.len(),
            at < ds.len() ==> ds[at].1 == bytes,
            forall|i: int| 0 <= i < at ==> (#[trigger] ds[i]).1 != bytes,
            k <= at,
        decreases tables@.len() - k,
    {
        proof {
            assert(definition(tables@[k as int]) == ds[k as int]);
            vstd::utf8::encode_utf8_decode_utf8(tables@[k as int].name@);
            vstd::utf8::encode_utf8_decode_utf8(d.name@);
        }
        if tables[k].name == d.name {
            assert(k == at);
            tables.set(k, d);
            return;
        }
        k = k + 1;
    }
    tables.push(d);
}

pub open spec fn index_read(m: IndexMeta, rid: Rid, p: Seq<u8>) -> bool {
    let at = text_end(p, 0);
    &&& encode_utf8(m.name@) == text_at(p, 0)
    &&& m.table_id == le16(p, at)
    &&& m.col_index == le32(p, at + 2)
    &&& index_type(p) == Some(m.col_type)
    &&& m.root == le32(p, at + 9)
    &&& m.catalog_rid == rid
}

/// A definition that can be read.
pub open spec fn sound_record(rec: Seq<u8>) -> bool {
    &&& table_of(rec) == Some(CATALOG_TID) ==> table_at(rec.skip(2)) is Ok
    &&& table_of(rec) == Some(INDEX_TID) ==> valid_utf8(text_at(rec.skip(2), 0)) && index_type(
        rec.skip(2),
    ) is Some
}

/// What is wrong with a definition that cannot be read.
pub open spec fn flaw(rec: Seq<u8>) -> Seq<char> {
    if table_of(rec) == Some(CATALOG_TID) {
        table_at(rec.skip(2))->Err_0
    } else if !valid_utf8(text_at(rec.skip(2), 0)) {
        "bad catalog utf8"@
    } else {
        "bad catalog type tag"@
    }
}

spec fn gathered(c: Catalog, rs: Seq<(Rid, Seq<u8>)>, greatest: int) -> bool {
    let ts = of_kind(rs, CATALOG_TID);
    let xs = of_kind(rs, INDEX_TID);
    &&& tables_read(c.tables@, ts)
    &&& c.indexes@.len() == xs.len()
    &&& forall|i: int|
        0 <= i < xs.len() ==> index_read(#[trigger] c.indexes@[i], xs[i].0, xs[i].1)
    &&& greatest == greatest_tid(ts)
}

/// The table and index definitions among all records.
pub fn load_catalog(rs: &Vec<(Rid, Vec<u8>)>) -> (r: Result<Catalog, DbError>)
    requires
        catalog_fits(rec_views(rs@)),
        greatest_tid(of_kind(rec_views(rs@), CATALOG_TID)) < 0xFFFF,
    ensures
        match r {
            Ok(c) => {
                let rv = rec_views(rs@);
                let ts = of_kind(rv, CATALOG_TID);
                let xs = of_kind(rv, INDEX_TID);
                &&& forall|i: int| 0 <= i < rv.len() ==> sound_record((#[trigger] rv[i]).1)
                &&& tables_read(c.tables@, ts)
                &&& c.indexes@.len() == xs.len()
                &&& forall|i: int|
                    0 <= i < xs.len() ==> index_read(#[trigger] c.indexes@[i], xs[i].0, xs[i].1)
                &&& c.next_tid == if greatest_tid(ts) + 1 > FIRST_USER_TID {
                    greatest_tid(ts) + 1
                } else {
                    FIRST_USER_TID as int
                }
            },
            Err(e) => exists|i: int|
                0 <= i < rs@.len() && !sound_record((#[trigger] rec_views(rs@)[i]).1) && says(
                    e,
                    flaw(rec_views(rs@)[i].1),
                ) && forall|j: int|
                    0 <= j < i ==> sound_record((#[trigger] rec_views(rs@)[j]).1),
        },
{
    let ghost rv = rec_views(rs@);
    let mut c: Catalog = Catalog {
        tables: Vec::new(),
        indexes: Vec::new(),
        next_tid: FIRST_USER_TID,
    };
    let mut max_id: u16 = 0;
    let mut i: usize = 0;
    proof {
        assert(rv.take(0) =~= Seq::empty());
        assert(gathered(c, rv.take(0), 0));
    }
    while i < rs.len()
        invariant
            i <= rs@.len(),
            rv == rec_views(rs@),
            catalog_fits(rv),
            gathered(c, rv.take(i as int), max_id as int),
            c.next_tid == FIRST_USER_TID,
            forall|j: int| 0 <= j < i ==> sound_record((#[trigger] rv[j]).1),
        decreases rs@.len() - i,
    {
        let ghost a = rv.take(i as int);
        let ghost b = rv.take(i + 1);
        let ghost old_c = c;
        proof {
            assert(b.drop_last() =~= a);
            assert(b.last() == (rs@[i as int].0, rs@[i as int].1@));
            assert(rv[i as int] == (rs@[i as int].0, rs@[i as int].1@));
            assert(record_fits(rv[i as int].1));
        }
        let tid: Option<u16> = read_table(&rs[i].1);
        let is_table: bool = match tid {
            Some(t) => t == CATALOG_TID,
            None => false,
        };
        let is_index: bool = match tid {
            Some(t) => t == INDEX_TID,
            None => false,
        };
        if is_table {
            match parse_catalog(payload_of(&rs[i].1).as_slice()) {
                Ok((tid, name, schema)) => {
                    if tid > max_id {
                        max_id = tid;
                    }
                    let d: TableDef = TableDef { name, tid, schema };
                    proof {
                        let ts = of_kind(b, CATALOG_TID);
                        assert(ts.drop_last() =~= of_kind(a, CATALOG_TID));
                        assert(table_at(ts.last().1) == Ok::<_, Seq<char>>(definition(d)));
                    }
                    define(
                        &mut c.tables,
                        d,
                        Ghost(definitions(of_kind(a, CATALOG_TID))),
                    );
                },
                Err(e) => {
                    assert(!sound_record(rec_views(rs@)[i as int].1));
                    return Err(e);
                },
            }
        } else if is_index {
            match parse_index(payload_of(&rs[i].1).as_slice()) {
                Ok(m) => {
                    let m2: IndexMeta = IndexMeta { catalog_rid: rs[i].0, ..m };
                    c.indexes.push(m2);
                    proof {
                        let xs = of_kind(b, INDEX_TID);
                        assert forall|k: int| 0 <= k < xs.len() implies index_read(
                            #[trigger] c.indexes@[k],
                            xs[k].0,
                            xs[k].1,
                        ) by {
                            if k < xs.len() - 1 {
                                assert(c.indexes@[k] == old_c.indexes@[k]);
                            }
                        }
                    }
                },
                Err(e) => {
                    assert(!sound_record(rec_views(rs@)[i as int].1));
                    return Err(e);
                },
            }
        }
        i = i + 1;
    }
    assert(rv.take(i as int) =~= rv);
    c.next_tid = if max_id + 1 > FIRST_USER_TID {
        max_id + 1
    } else {
        FIRST_USER_TID
    };
    Ok(c)
}

// ---- index entries ----

/// The entry a changed row leaves in an index and the one it gets.
pub struct EntryChange {
    pub index: usize,
    pub removed: Vec<u8>,
    pub added: Vec<u8>,
}

/// Index `m` is touched when a row of table `tid` changes.
pub open spec fn touched(
    m: IndexMeta,
    tid: u16,
    old_row: Seq<ValueView>,
    new_row: Seq<ValueView>,
) -> bool {
    m.table_id == tid && old_row[m.col_index as int] != new_row[m.col_index as int]
}

/// The indexes touched, in order.
pub open spec fn touched_indexes(
    idxs: Seq<IndexMeta>,
    tid: u16,
    old_row: Seq<ValueView>,
    new_row: Seq<ValueView>,
) -> Seq<usize>
    decreases idxs.len(),
{
    if idxs.len() == 0 {
        Seq::empty()
    } else if touched(idxs.last(), tid, old_row, new_row) {
        touched_indexes(idxs.drop_last(), tid, old_row, new_row).push((idxs.len() - 1) as usize)
    } else {
        touched_indexes(idxs.drop_last(), tid, old_row, new_row)
    }
}

/// The row fits what the table's indexes are on.
pub open spec fn row_fits(idxs: Seq<IndexMeta>, tid: u16, row: Seq<ValueView>) -> bool {
    forall|i: int|
        0 <= i < idxs.len() && (#[trigger] idxs[i]).table_id == tid ==> idxs[i].col_index
            < row.len() && fits_type(idxs[i].col_type, row[idxs[i].col_index as int])
}

/// What a changed row asks of the indexes on its table: those on a column that changed
/// lose the old entry and get the new one.
pub fn entry_changes(
    idxs: &Vec<IndexMeta>,
    tid: u16,
    old_row: &Vec<Value>,
    new_row: &Vec<Value>,
    rid: Rid,
) -> (out: Vec<EntryChange>)
    requires
        row_fits(idxs@, tid, views(old_row@)),
        row_fits(idxs@, tid, views(new_row@)),
    ensures
        ({
            let at = touched_indexes(idxs@, tid, views(old_row@), views(new_row@));
            &&& out@.len() == at.len()
            &&& forall|i: int|
                0 <= i < at.len() ==> {
                    let m = idxs@[at[i] as int];
                    &&& (#[trigger] out@[i]).index == at[i]
                    &&& out@[i].removed@ == entry_key(views(old_row@)[m.col_index as int], rid)
                    &&& out@[i].added@ == entry_key(views(new_row@)[m.col_index as int], rid)
                }
        }),
{
    let ghost ov = views(old_row@);
    let ghost nv = views(new_row@);
    let mut out: Vec<EntryChange> = Vec::new();
    let mut i: usize = 0;
    while i < idxs.len()
        invariant
            i <= idxs@.len(),
            ov == views(old_row@),
            nv == views(new_row@),
            row_fits(idxs@, tid, ov),
            row_fits(idxs@, tid, nv),
            ({
                let at = touched_indexes(idxs@.take(i as int), tid, ov, nv);
                &&& out@.len() == at.len()
                &&& forall|k: int|
                    0 <= k < at.len() ==> {
                        let m = idxs@[at[k] as int];
                        &&& (#[trigger] out@[k]).index == at[k]
                        &&& out@[k].removed@ == entry_key(ov[m.col_index as int], rid)
                        &&& out@[k].added@ == entry_key(nv[m.col_index as int], rid)
                    }
            }),
        decreases idxs@.len() - i,
    {
        proof {
            assert(idxs@.take(i + 1).drop_last() =~= idxs@.take(i as int));
            assert(idxs@.take(i + 1).last() == idxs@[i as int]);
        }
        let m: &IndexMeta = &idxs[i];
        if m.table_id == tid {
            let c: usize = m.col_index;
            assert(ov[c as int] == old_row@[c as int]@ && nv[c as int] == new_row@[c as int]@);
            if !old_row[c].same(&new_row[c]) {
                let removed: Vec<u8> = index_key(m.col_type, &old_row[c], rid);
                let added: Vec<u8> = index_key(m.col_type, &new_row[c], rid);
                out.push(EntryChange { index: i, removed, added });
            }
        }
        i = i + 1;
    }
    assert(idxs@.take(i as int) =~= idxs@);
    out
}

/// The entries a new row gets: one in each index on its table.
pub struct Entry {
    pub index: usize,
    pub key: Vec<u8>,
}

pub open spec fn indexes_on(idxs: Seq<IndexMeta>, tid: u16) -> Seq<usize>
    decreases idxs.len(),
{
    if idxs.len() == 0 {
        Seq::empty()
    } else if idxs.last().table_id == tid {
        indexes_on(idxs.drop_last(), tid).push((idxs.len() - 1) as usize)
    } else {
        indexes_on(idxs.drop_last(), tid)
    }
}

/// The index entries of a row.
pub fn row_entries(idxs: &Vec<IndexMeta>, tid: u16, row: &Vec<Value>, rid: Rid) -> (out: Vec<Entry>)
    requires
        row_fits(idxs@, tid, views(row@)),
    ensures
        ({
            let at = indexes_on(idxs@, tid);
            &&& out@.len() == at.len()
            &&& forall|i: int|
                0 <= i < at.len() ==> (#[trigger] out@[i]).index == at[i] && out@[i].key@
                    == entry_key(views(row@)[idxs@[at[i] as int].col_index as int], rid)
        }),
{
    let ghost rv = views(row@);
    let mut out: Vec<Entry> = Vec::new();
    let mut i: usize = 0;
    while i < idxs.len()
        invariant
            i <= idxs@.len(),
            rv == views(row@),
            row_fits(idxs@, tid, rv),
            ({
                let at = indexes_on(idxs@.take(i as int), tid);
                &&& out@.len() == at.len()
                &&& forall|k: int|
                    0 <= k < at.len() ==> (#[trigger] out@[k]).index == at[k] && out@[k].key@
                        == entry_key(rv[idxs@[at[k] as int].col_index as int], rid)
            }),
        decreases idxs@.len() - i,
    {
        proof {
            assert(idxs@.take(i + 1).drop_last() =~= idxs@.take(i as int));
            assert(idxs@.take(i + 1).last() == idxs@[i as int]);
        }
        let m: &IndexMeta = &idxs[i];
        if m.table_id == tid {
            assert(rv[m.col_index as int] == row@[m.col_index as int]@);
            let key: Vec<u8> = index_key(m.col_type, &row[m.col_index], rid);
            out.push(Entry { index: i, key });
        }
        i = i + 1;
    }
    assert(idxs@.take(i as int) =~= idxs@);
    out
}

} // verus!
