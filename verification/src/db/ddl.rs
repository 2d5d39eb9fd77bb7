//! Statements that define and drop tables and indexes. What such a statement changed is
//! durable before it ends, unless a log holds it.

use vstd::prelude::*;

use crate::btree::MAX_KEY;
use crate::buffer::{BufferPool, WalSync};
use crate::db::catalog::{Schema, FIRST_USER_TID};
use crate::db::change::no_table;
use crate::db::define::{buildable, keys_for, lists, named, pair_views, sapling, table_data};
use crate::db::dml::{index_column, known, quoted, rec_views, record_fits};
use crate::db::exec::ExecError;
use crate::db::plan::column_named;
use crate::db::store::{device, Database};
use crate::db::{says, DbError};
use crate::heap::Rid;
use crate::pager::{holds_out, Pager};
use crate::types::{fits_type, ColumnType, Value, ValueView};
use crate::vfs::BlockFile;

verus! {

impl<F: BlockFile, W: WalSync> Database<BufferPool<F, W>> {
    /// CREATE TABLE: define the table and make that durable.
    pub fn create_table_statement(&mut self, name: &String, schema: Schema, logged: bool) -> (r:
        Result<u16, DbError>)
        requires
            old(self).ok(),
            old(self).next_tid < u16::MAX,
            old(self).bp.count() < u32::MAX,
        ensures
            exists|mid: Self, w: Result<u16, DbError>| #[trigger]
                mid.created(old(self), name@, schema, w) && final(self).ended(&mid, w, logged, r),
    {
        let w: Result<u16, DbError> = self.create_table(name, schema);
        let ghost mid = *self;
        let ghost came = w;
        let r: Result<u16, DbError> = self.end_statement(w, logged);
        assert(mid.created(old(self), name@, schema, came));
        r
    }

    /// DROP TABLE: drop the table with its rows and indexes and make that durable.
    pub fn drop_table_statement(&mut self, name: &String, logged: bool) -> (r: Result<(), DbError>)
        requires
            old(self).ok(),
            forall|i: int|
                named(old(self).tables@, name@, i) ==> old(self).tables@[i].tid >= FIRST_USER_TID,
            forall|x: Rid| #[trigger]
                old(self).stored().dom().contains(x) ==> record_fits(old(self).stored()[x]),
        ensures
            exists|mid: Self, w: Result<(), DbError>| #[trigger]
                mid.dropped(old(self), name@, w) && final(self).ended(&mid, w, logged, r),
    {
        let w: Result<(), DbError> = self.drop_table(name);
        let ghost mid = *self;
        let ghost came = w;
        let r: Result<(), DbError> = self.end_statement(w, logged);
        assert(mid.dropped(old(self), name@, came));
        r
    }

    /// DROP INDEX: drop the index and make that durable.
    pub fn drop_index_statement(&mut self, name: &String, logged: bool) -> (r: Result<(), DbError>)
        requires
            old(self).ok(),
        ensures
            exists|mid: Self, w: Result<(), DbError>| #[trigger]
                mid.unindexed(old(self), name@, w) && final(self).ended(&mid, w, logged, r),
    {
        let w: Result<(), DbError> = self.drop_index(name);
        let ghost mid = *self;
        let ghost came = w;
        let r: Result<(), DbError> = self.end_statement(w, logged);
        assert(mid.unindexed(old(self), name@, came));
        r
    }
}

// ---- CREATE INDEX ----

/// A stored row decodes to `values`, whose column `col` is what the pair holds.
pub open spec fn holds_at<D: Fn(&Schema, &Vec<u8>) -> Result<Vec<Value>, ExecError>>(
    decode: D,
    schema: &Schema,
    col: int,
    row: (Rid, Vec<u8>),
    pair: (Rid, ValueView),
    values: Vec<Value>,
) -> bool {
    &&& decode.ensures((schema, &row.1), Ok(values))
    &&& pair.0 == row.0
    &&& pair.1 == values@[col]@
}

/// The pair is a stored row's address and what its column `col` may decode to.
pub open spec fn pair_of<D: Fn(&Schema, &Vec<u8>) -> Result<Vec<Value>, ExecError>>(
    decode: D,
    schema: &Schema,
    col: int,
    row: (Rid, Vec<u8>),
    pair: (Rid, ValueView),
) -> bool {
    exists|values: Vec<Value>| #[trigger] holds_at(decode, schema, col, row, pair, values)
}

/// Column `col` of the first rows, as they were decoded.
pub open spec fn column_read<D: Fn(&Schema, &Vec<u8>) -> Result<Vec<Value>, ExecError>>(
    decode: D,
    schema: &Schema,
    col: int,
    rows: Seq<(Rid, Vec<u8>)>,
    pairs: Seq<(Rid, ValueView)>,
) -> bool {
    &&& pairs.len() <= rows.len()
    &&& forall|i: int|
        0 <= i < pairs.len() ==> pair_of(decode, schema, col, rows[i], #[trigger] pairs[i])
}

/// Decoding gives rows as wide as the schema, with values of the types of its columns.
pub open spec fn typed<D: Fn(&Schema, &Vec<u8>) -> Result<Vec<Value>, ExecError>>(
    decode: D,
    schema: &Schema,
) -> bool {
    &&& schema.columns@.len() <= u32::MAX
    &&& forall|p: Vec<u8>| #[trigger] decode.requires((schema, &p))
    &&& forall|p: Vec<u8>, values: Vec<Value>, c: int| #[trigger]
        decode.ensures((schema, &p), Ok(values)) && 0 <= c < schema.columns@.len() ==> c
            < values@.len() && fits_type(schema.columns@[c].ty, (#[trigger] values@[c])@)
}

/// Decode the rows up to the first that does not decode, and take column `col` of each.
fn read_column<D: Fn(&Schema, &Vec<u8>) -> Result<Vec<Value>, ExecError>>(
    decode: &D,
    schema: &Schema,
    col: usize,
    rows: &Vec<(Rid, Vec<u8>)>,
) -> (r: (Vec<(Rid, Value)>, Option<ExecError>))
    requires
        col < schema.columns@.len(),
        typed(*decode, schema),
    ensures
        column_read(*decode, schema, col as int, rows@, pair_views(r.0@)),
        forall|i: int|
            0 <= i < r.0@.len() ==> fits_type(
                schema.columns@[col as int].ty,
                (#[trigger] r.0@[i]).1@,
            ),
        match r.1 {
            None => r.0@.len() == rows@.len(),
            Some(e) => r.0@.len() < rows@.len() && decode.ensures(
                (schema, &rows@[r.0@.len() as int].1),
                Err(e),
            ),
        },
{
    let mut out: Vec<(Rid, Value)> = Vec::new();
    let mut i: usize = 0;
    while i < rows.len()
        invariant
            i <= rows@.len(),
            out@.len() == i,
            col < schema.columns@.len(),
            typed(*decode, schema),
            column_read(*decode, schema, col as int, rows@, pair_views(out@)),
            forall|j: int|
                0 <= j < out@.len() ==> fits_type(
                    schema.columns@[col as int].ty,
                    (#[trigger] out@[j]).1@,
                ),
        decreases rows@.len() - i,
    {
        let values: Vec<Value> = match decode(schema, &rows[i].1) {
            Ok(v) => v,
            Err(e) => {
                return (out, Some(e));
            },
        };
        let ghost before = pair_views(out@);
        assert(fits_type(schema.columns@[col as int].ty, values@[col as int]@));
        out.push((rows[i].0, values[col].clone()));
        proof {
            let now = pair_views(out@);
            assert(holds_at(*decode, schema, col as int, rows@[i as int], now[i as int], values));
            assert forall|j: int| 0 <= j < now.len() implies pair_of(
                *decode,
                schema,
                col as int,
                rows@[j],
                #[trigger] now[j],
            ) by {
                if j < i {
                    assert(now[j] == before[j]);
                }
            }
        }
        i = i + 1;
    }
    (out, None)
}

impl<P: Pager> Database<P> {
    /// Building an index stopped at a row that does not decode: the rows before it are in a
    /// tree that nothing refers to, unless one of them did not go in.
    pub open spec fn index_stopped(
        &self,
        before: &Self,
        rows: Seq<(Rid, ValueView)>,
        e: ExecError,
        r: DbError,
    ) -> bool {
        let es = keys_for(rows);
        let large = exists|i: int| 0 <= i < es.len() && (#[trigger] es[i]).0.len() > MAX_KEY;
        &&& self.tables == before.tables
        &&& self.indexes == before.indexes
        &&& self.trees == before.trees
        &&& self.next_tid == before.next_tid
        &&& match r {
            DbError::Exec(t) => {
                &&& self.ok()
                &&& self.stored() == before.stored()
                &&& t@ == if large {
                    "entry too large for a node"@
                } else {
                    e.text@
                }
            },
            _ => device(r) && !(holds_out(&before.bp, 1) && buildable(
                sapling(before.bp.count()),
                es,
                before.bp.count() + 1,
                before.bp.reach(),
            )),
        }
    }
}

impl<F: BlockFile, W: WalSync> Database<BufferPool<F, W>> {
    /// CREATE INDEX read the rows of table `t` from `here`, and then went on.
    pub open spec fn index_made<D: Fn(&Schema, &Vec<u8>) -> Result<Vec<Value>, ExecError>>(
        &self,
        before: &Self,
        here: Self,
        t: int,
        name: Seq<char>,
        col: usize,
        decode: D,
        rows: Seq<(Rid, Vec<u8>)>,
        pairs: Seq<(Rid, ValueView)>,
        logged: bool,
        mid: Self,
        w: Result<(), DbError>,
        r: Result<(), DbError>,
    ) -> bool {
        let d = before.tables@[t];
        &&& here.unmoved(before)
        &&& lists(table_data(before.stored(), d.tid), rec_views(rows))
        &&& column_read(decode, &d.schema, col as int, rows, pairs)
        &&& if pairs.len() == rows.len() {
            &&& mid.indexed(
                &here,
                name,
                d.tid,
                col,
                d.schema.columns@[col as int].ty,
                pairs,
                w,
            )
            &&& self.ended(&mid, w, logged, r)
        } else {
            exists|e: ExecError|
                decode.ensures((&d.schema, &rows[pairs.len() as int].1), Err(e)) && r is Err
                    && #[trigger] self.index_stopped(&here, pairs, e, r->Err_0)
        }
    }

    /// CREATE INDEX: the table and the column are looked up, every row of the table is read
    /// and entered, and the index is made durable.
    pub fn create_index_statement<D: Fn(&Schema, &Vec<u8>) -> Result<Vec<Value>, ExecError>>(
        &mut self,
        name: &String,
        table: &String,
        cols: &Vec<String>,
        decode: &D,
        logged: bool,
    ) -> (r: Result<(), DbError>)
        requires
            old(self).ok(),
            old(self).bp.count() < u32::MAX,
            forall|t: int| #[trigger]
                named(old(self).tables@, table@, t) ==> typed(
                    *decode,
                    &old(self).tables@[t].schema,
                ),
            forall|t: int, c: int, rows: Vec<(Rid, Vec<u8>)>, pairs: Vec<(Rid, Value)>|
                named(old(self).tables@, table@, t) && lists(
                    table_data(old(self).stored(), old(self).tables@[t].tid),
                    rec_views(rows@),
                ) && #[trigger] column_read(
                    *decode,
                    &old(self).tables@[t].schema,
                    c,
                    rows@,
                    pair_views(pairs@),
                ) ==> old(self).indexable(keys_for(pair_views(pairs@)), u32::MAX as int),
        ensures
            final(self).counts == old(self).counts,
            ({
                ||| {
                    &&& forall|t: int| !named(old(self).tables@, table@, t)
                    &&& r is Err && no_table(r->Err_0, table@)
                    &&& *final(self) == *old(self)
                }
                ||| {
                    &&& exists|t: int| named(old(self).tables@, table@, t)
                    &&& cols@.len() != 1
                    &&& r is Err && says(
                        r->Err_0,
                        "only single-column indexes are supported"@,
                    )
                    &&& *final(self) == *old(self)
                }
                ||| {
                    &&& exists|t: int| #[trigger]
                        named(old(self).tables@, table@, t) && !known(
                            &old(self).tables@[t].schema,
                            cols@[0]@,
                        )
                    &&& cols@.len() == 1
                    &&& r is Err && says(r->Err_0, quoted("no column '"@, cols@[0]@))
                    &&& *final(self) == *old(self)
                }
                ||| {
                    &&& exists|t: int| #[trigger]
                        named(old(self).tables@, table@, t) && known(
                            &old(self).tables@[t].schema,
                            cols@[0]@,
                        )
                    &&& cols@.len() == 1
                    &&& r is Err && device(r->Err_0) && !holds_out(&old(self).bp, 0)
                    &&& final(self).unmoved(old(self))
                }
                ||| exists|
                    t: int,
                    here: Self,
                    col: usize,
                    rows: Vec<(Rid, Vec<u8>)>,
                    pairs: Vec<(Rid, Value)>,
                    mid: Self,
                    w: Result<(), DbError>,
                | {
                    &&& named(old(self).tables@, table@, t)
                    &&& cols@.len() == 1
                    &&& column_named(&old(self).tables@[t].schema, cols@[0]@, col as int)
                    &&& #[trigger] final(self).index_made(
                        old(self),
                        here,
                        t,
                        name@,
                        col,
                        *decode,
                        rows@,
                        pair_views(pairs@),
                        logged,
                        mid,
                        w,
                        r,
                    )
                }
            }),
    {
        let ghost was = *self;
        let t: usize = match self.find_table(table) {
            Ok(t) => t,
            Err(e) => {
                return Err(e);
            },
        };
        assert(named(was.tables@, table@, t as int));
        let col: usize = match index_column(&self.tables[t].schema, cols) {
            Ok(c) => c,
            Err(e) => {
                return Err(e);
            },
        };
        let ghost schema = &was.tables@[t as int].schema;
        assert(known(schema, cols@[0]@)) by {
            assert(column_named(schema, cols@[0]@, col as int));
        }
        let tid: u16 = self.tables[t].tid;
        let ty: ColumnType = self.tables[t].schema.columns[col].ty;
        let rows: Vec<(Rid, Vec<u8>)> = match self.scan_table(tid) {
            Ok(v) => v,
            Err(e) => {
                return Err(e);
            },
        };
        let ghost here = *self;
        let (pairs, flaw) = read_column(decode, &self.tables[t].schema, col, &rows);
        let ghost pv = pair_views(pairs@);
        proof {
            here.lemma_unmoved_same(&was);
            assert(column_read(*decode, schema, col as int, rows@, pv));
            assert(here.indexable(keys_for(pv), u32::MAX as int));
        }
        match flaw {
            None => {
                let w: Result<(), DbError> = self.create_index(name, tid, col, ty, &pairs);
                let ghost mid = *self;
                let ghost came = w;
                let r: Result<(), DbError> = self.end_statement(w, logged);
                assert(self.index_made(
                    &was,
                    here,
                    t as int,
                    name@,
                    col,
                    *decode,
                    rows@,
                    pv,
                    logged,
                    mid,
                    came,
                    r,
                ));
                r
            },
            Some(e) => {
                let ghost seen = e;
                let r: Result<(), DbError> = match self.build_tree(ty, &pairs) {
                    Ok(_) => Err(DbError::Exec(e.text)),
                    Err(x) => Err(x),
                };
                assert(self.index_stopped(&here, pv, seen, r->Err_0));
                assert(self.index_made(
                    &was,
                    here,
                    t as int,
                    name@,
                    col,
                    *decode,
                    rows@,
                    pv,
                    logged,
                    here,
                    r,
                    r,
                ));
                r
            },
        }
    }
}

} // verus!
