//! Table and index definitions as the catalog stores them, and the keys of index
//! entries.

use vstd::prelude::*;
use vstd::utf8::{encode_utf8, valid_utf8};

use crate::bytes::{
    copy_bytes, le16, le16_bytes, le32, le32_bytes, lemma_le16_bytes, lemma_le32_bytes,
    lemma_lex_irreflexive, lemma_lex_total, lemma_lex_transitive, lex_le, lex_lt, push_u16,
    push_u32, rd_u16, rd_u32,
};
use crate::db::ast::BinOp;
use crate::db::{exec_err, says, DbError};
use crate::heap::{law_rid_roundtrip, rid_bytes, Rid};
use crate::keys::{encode_value, encoded, law_value_order};
use crate::types::{fits_type, text_from_utf8, value_lt, ColumnType, Value, ValueView};

verus! {

/// The records of table definitions.
pub const CATALOG_TID: u16 = 0;

/// The records of index definitions.
pub const INDEX_TID: u16 = 1;

/// The first table number there is for tables.
pub const FIRST_USER_TID: u16 = 2;

#[derive(Debug)]
pub struct ColumnDef {
    pub name: String,
    pub ty: ColumnType,
    pub not_null: bool,
}

/// What a column is; its name by its bytes.
pub ghost struct ColumnView {
    pub name: Seq<u8>,
    pub ty: ColumnType,
    pub not_null: bool,
}

impl View for ColumnDef {
    type V = ColumnView;

    open spec fn view(&self) -> ColumnView {
        ColumnView { name: encode_utf8(self.name@), ty: self.ty, not_null: self.not_null }
    }
}

pub open spec fn columns(cs: Seq<ColumnDef>) -> Seq<ColumnView> {
    cs.map_values(|c: ColumnDef| c@)
}

#[derive(Debug)]
pub struct Schema {
    pub columns: Vec<ColumnDef>,
}

impl Schema {
    pub fn len(&self) -> (n: usize)
        ensures
            n == self.columns@.len(),
    {
        self.columns.len()
    }

    /// The first column of the name.
    pub fn column_index(&self, name: &str) -> (r: Option<usize>)
        ensures
            match r {
                Some(i) => i < self.columns@.len() && self.columns@[i as int].name@ == name@
                    && forall|j: int|
                    0 <= j < i ==> (#[trigger] self.columns@[j]).name@ != name@,
                None => forall|j: int|
                    0 <= j < self.columns@.len() ==> (#[trigger] self.columns@[j]).name@ != name@,
            },
    {
        let wanted: String = name.to_owned();
        let mut i: usize = 0;
        while i < self.columns.len()
            invariant
                i <= self.columns@.len(),
                wanted@ == name@,
                forall|j: int| 0 <= j < i ==> (#[trigger] self.columns@[j]).name@ != name@,
            decreases self.columns@.len() - i,
        {
            if self.columns[i].name == wanted {
                return Some(i);
            }
            i = i + 1;
        }
        None
    }
}

/// An index as the catalog knows it.
#[derive(Debug)]
pub struct IndexMeta {
    pub name: String,
    pub table_id: u16,
    pub col_index: usize,
    pub col_type: ColumnType,
    pub root: u32,
    pub catalog_rid: Rid,
}

// ---- texts ----

/// A text as it is stored: its length, then its bytes.
pub open spec fn stored_text(t: Seq<u8>) -> Seq<u8> {
    le16_bytes(t.len() as u16) + t
}

/// A whole text is stored at `pos`.
pub open spec fn text_fits(b: Seq<u8>, pos: int) -> bool {
    0 <= pos && pos + 2 <= b.len() && pos + 2 + le16(b, pos) <= b.len()
}

pub open spec fn text_at(b: Seq<u8>, pos: int) -> Seq<u8> {
    b.subrange(pos + 2, pos + 2 + le16(b, pos))
}

pub open spec fn text_end(b: Seq<u8>, pos: int) -> int {
    pos + 2 + le16(b, pos)
}

pub fn put_str(out: &mut Vec<u8>, s: &str)
    ensures
        final(out)@ == old(out)@ + stored_text(encode_utf8(s@)),
{
    let b: &[u8] = s.as_bytes();
    let n: usize = b.len();
    push_u16(out, n as u16);
    out.extend_from_slice(b);
    assert(out@ =~= old(out)@ + stored_text(encode_utf8(s@)));
}

pub fn get_str(b: &[u8], pos: &mut usize) -> (r: Result<String, DbError>)
    requires
        text_fits(b@, *old(pos) as int),
    ensures
        r is Ok <==> valid_utf8(text_at(b@, *old(pos) as int)),
        match r {
            Ok(s) => encode_utf8(s@) == text_at(b@, *old(pos) as int) && *final(pos) == text_end(
                b@,
                *old(pos) as int,
            ),
            Err(e) => says(e, "bad catalog utf8"@),
        },
{
    let total: usize = b.len();
    let len: usize = rd_u16(b, *pos) as usize;
    let start: usize = *pos + 2;
    *pos = start;
    let raw: Vec<u8> = copy_bytes(&b[start..start + len]);
    assert(raw@ =~= text_at(b@, *old(pos) as int));
    match text_from_utf8(raw) {
        Some(s) => {
            *pos = start + len;
            Ok(s)
        },
        None => exec_err("bad catalog utf8"),
    }
}

// ---- types ----

pub open spec fn tag_of(ty: ColumnType) -> (u8, u16) {
    match ty {
        ColumnType::Bool => (0, 0),
        ColumnType::Int => (1, 0),
        ColumnType::BigInt => (2, 0),
        ColumnType::Double => (3, 0),
        ColumnType::Varchar(n) => (4, n),
    }
}

pub open spec fn type_of_tag(tag: u8, param: u16) -> Option<ColumnType> {
    if tag == 0 {
        Some(ColumnType::Bool)
    } else if tag == 1 {
        Some(ColumnType::Int)
    } else if tag == 2 {
        Some(ColumnType::BigInt)
    } else if tag == 3 {
        Some(ColumnType::Double)
    } else if tag == 4 {
        Some(ColumnType::Varchar(param))
    } else {
        None
    }
}

pub fn type_tag(ty: ColumnType) -> (r: (u8, u16))
    ensures
        r == tag_of(ty),
{
    match ty {
        ColumnType::Bool => (0, 0),
        ColumnType::Int => (1, 0),
        ColumnType::BigInt => (2, 0),
        ColumnType::Double => (3, 0),
        ColumnType::Varchar(n) => (4, n),
    }
}

pub fn type_from_tag(tag: u8, param: u16) -> (r: Result<ColumnType, DbError>)
    ensures
        match r {
            Ok(ty) => type_of_tag(tag, param) == Some(ty),
            Err(e) => type_of_tag(tag, param) is None && says(e, "bad catalog type tag"@),
        },
{
    match tag {
        0 => Ok(ColumnType::Bool),
        1 => Ok(ColumnType::Int),
        2 => Ok(ColumnType::BigInt),
        3 => Ok(ColumnType::Double),
        4 => Ok(ColumnType::Varchar(param)),
        _ => exec_err("bad catalog type tag"),
    }
}

// ---- index definitions ----

pub open spec fn stored_index(
    name: Seq<u8>,
    tid: u16,
    col_index: u32,
    ty: ColumnType,
    root: u32,
) -> Seq<u8> {
    stored_text(name) + le16_bytes(tid) + le32_bytes(col_index) + seq![tag_of(ty).0] + le16_bytes(
        tag_of(ty).1,
    ) + le32_bytes(root)
}

pub fn serialize_index(
    name: &str,
    tid: u16,
    col_index: usize,
    col_type: ColumnType,
    root: u32,
) -> (out: Vec<u8>)
    ensures
        out@ == stored_index(encode_utf8(name@), tid, col_index as u32, col_type, root),
{
    let mut out: Vec<u8> = Vec::new();
    put_str(&mut out, name);
    push_u16(&mut out, tid);
    push_u32(&mut out, col_index as u32);
    let (tag, param): (u8, u16) = type_tag(col_type);
    out.push(tag);
    push_u16(&mut out, param);
    push_u32(&mut out, root);
    assert(out@ =~= stored_index(encode_utf8(name@), tid, col_index as u32, col_type, root));
    out
}

/// A whole index definition is stored.
pub open spec fn index_fits(b: Seq<u8>) -> bool {
    text_fits(b, 0) && text_end(b, 0) + 13 <= b.len()
}

pub open spec fn index_type(b: Seq<u8>) -> Option<ColumnType> {
    let p = text_end(b, 0);
    type_of_tag(b[p + 6], le16(b, p + 7) as u16)
}

pub fn parse_index(b: &[u8]) -> (r: Result<IndexMeta, DbError>)
    requires
        index_fits(b@),
    ensures
        match r {
            Ok(m) => {
                let p = text_end(b@, 0);
                &&& encode_utf8(m.name@) == text_at(b@, 0)
                &&& m.table_id == le16(b@, p)
                &&& m.col_index == le32(b@, p + 2)
                &&& index_type(b@) == Some(m.col_type)
                &&& m.root == le32(b@, p + 9)
                &&& m.catalog_rid == (Rid { page: 0, slot: 0 })
            },
            Err(e) => if !valid_utf8(text_at(b@, 0)) {
                says(e, "bad catalog utf8"@)
            } else {
                index_type(b@) is None && says(e, "bad catalog type tag"@)
            },
        },
        r is Ok <==> valid_utf8(text_at(b@, 0)) && index_type(b@) is Some,
{
    let total: usize = b.len();
    let mut pos: usize = 0;
    let name: String = match get_str(b, &mut pos) {
        Ok(s) => s,
        Err(e) => {
            return Err(e);
        },
    };
    let tid: u16 = rd_u16(b, pos);
    let col_index: usize = rd_u32(b, pos + 2) as usize;
    let tag: u8 = b[pos + 6];
    let param: u16 = rd_u16(b, pos + 7);
    let root: u32 = rd_u32(b, pos + 9);
    match type_from_tag(tag, param) {
        Ok(col_type) => Ok(
            IndexMeta {
                name,
                table_id: tid,
                col_index,
                col_type,
                root,
                catalog_rid: Rid::new(0, 0),
            },
        ),
        Err(e) => Err(e),
    }
}

// ---- table definitions ----

pub open spec fn stored_column(c: ColumnView) -> Seq<u8> {
    stored_text(c.name) + seq![tag_of(c.ty).0] + le16_bytes(tag_of(c.ty).1) + seq![
        if c.not_null {
            1u8
        } else {
            0u8
        },
    ]
}

pub open spec fn stored_columns(cs: Seq<ColumnView>) -> Seq<u8>
    decreases cs.len(),
{
    if cs.len() == 0 {
        Seq::empty()
    } else {
        stored_columns(cs.drop_last()) + stored_column(cs.last())
    }
}

pub open spec fn stored_table(tid: u16, name: Seq<u8>, cs: Seq<ColumnView>) -> Seq<u8> {
    le16_bytes(tid) + stored_text(name) + le16_bytes(cs.len() as u16) + stored_columns(cs)
}

pub fn serialize_catalog(tid: u16, name: &str, schema: &Schema) -> (out: Vec<u8>)
    ensures
        out@ == stored_table(tid, encode_utf8(name@), columns(schema.columns@)),
{
    let ghost cs = columns(schema.columns@);
    let mut out: Vec<u8> = Vec::new();
    push_u16(&mut out, tid);
    put_str(&mut out, name);
    let n: usize = schema.columns.len();
    push_u16(&mut out, n as u16);
    let ghost head = out@;
    assert(head =~= le16_bytes(tid) + stored_text(encode_utf8(name@)) + le16_bytes(n as u16));
    let mut i: usize = 0;
    assert(out@ =~= head + stored_columns(cs.take(0)));
    while i < n
        invariant
            i <= n == schema.columns@.len(),
            cs == columns(schema.columns@),
            out@ == head + stored_columns(cs.take(i as int)),
        decreases n - i,
    {
        let ghost was = out@;
        let c: &ColumnDef = &schema.columns[i];
        put_str(&mut out, c.name.as_str());
        let (tag, param): (u8, u16) = type_tag(c.ty);
        out.push(tag);
        push_u16(&mut out, param);
        let flag: u8 = if c.not_null {
            1
        } else {
            0
        };
        out.push(flag);
        proof {
            let d = cs.take(i + 1);
            assert(d.drop_last() =~= cs.take(i as int));
            assert(d.last() == c@);
            assert(out@ =~= was + stored_column(c@));
            assert(was + stored_column(c@) =~= head + (stored_columns(cs.take(i as int))
                + stored_column(c@)));
        }
        i = i + 1;
    }
    assert(cs.take(i as int) =~= cs);
    out
}

/// A column definition read at `pos`, and where it ends; what keeps it from being
/// read.
pub open spec fn column_at(b: Seq<u8>, pos: int) -> Result<(ColumnView, int), Seq<char>> {
    let p = text_end(b, pos);
    let ty = type_of_tag(b[p], le16(b, p + 1) as u16);
    if !valid_utf8(text_at(b, pos)) {
        Err("bad catalog utf8"@)
    } else {
        match ty {
            Some(t) => Ok(
                (ColumnView { name: text_at(b, pos), ty: t, not_null: b[p + 3] != 0 }, p + 4),
            ),
            None => Err("bad catalog type tag"@),
        }
    }
}

pub open spec fn column_fits(b: Seq<u8>, pos: int) -> bool {
    text_fits(b, pos) && text_end(b, pos) + 4 <= b.len()
}

/// `n` column definitions read from `pos` on.
pub open spec fn columns_at(b: Seq<u8>, pos: int, n: nat) -> Result<
    (Seq<ColumnView>, int),
    Seq<char>,
>
    decreases n,
{
    if n == 0 {
        Ok((Seq::empty(), pos))
    } else {
        match columns_at(b, pos, (n - 1) as nat) {
            Ok((cs, p)) => match column_at(b, p) {
                Ok((c, q)) => Ok((cs.push(c), q)),
                Err(e) => Err(e),
            },
            Err(e) => Err(e),
        }
    }
}

/// As many column definitions as are read lie inside `b`.
pub open spec fn columns_fit(b: Seq<u8>, pos: int, n: nat) -> bool
    decreases n,
{
    n > 0 ==> columns_fit(b, pos, (n - 1) as nat) && match columns_at(b, pos, (n - 1) as nat) {
        Ok((_, p)) => column_fits(b, p),
        Err(_) => true,
    }
}

/// A whole table definition is stored.
pub open spec fn table_fits(b: Seq<u8>) -> bool {
    let p = text_end(b, 2);
    &&& b.len() >= 2
    &&& text_fits(b, 2)
    &&& valid_utf8(text_at(b, 2)) ==> p + 2 <= b.len() && columns_fit(
        b,
        p + 2,
        le16(b, p) as nat,
    )
}

/// A table definition, or what keeps it from being read.
pub open spec fn table_at(b: Seq<u8>) -> Result<(u16, Seq<u8>, Seq<ColumnView>), Seq<char>> {
    let p = text_end(b, 2);
    if !valid_utf8(text_at(b, 2)) {
        Err("bad catalog utf8"@)
    } else {
        match columns_at(b, p + 2, le16(b, p) as nat) {
            Ok((cs, _)) => Ok((le16(b, 0) as u16, text_at(b, 2), cs)),
            Err(e) => Err(e),
        }
    }
}

proof fn lemma_columns_err(b: Seq<u8>, pos: int, i: nat, n: nat)
    requires
        i <= n,
        columns_at(b, pos, i) is Err,
    ensures
        columns_at(b, pos, n) == columns_at(b, pos, i),
    decreases n,
{
    if i < n {
        lemma_columns_err(b, pos, i, (n - 1) as nat);
    }
}

proof fn lemma_columns_fit(b: Seq<u8>, pos: int, i: nat, n: nat)
    requires
        i <= n,
        columns_fit(b, pos, n),
    ensures
        columns_fit(b, pos, i),
    decreases n,
{
    if i < n {
        lemma_columns_fit(b, pos, i, (n - 1) as nat);
    }
}

pub fn parse_catalog(b: &[u8]) -> (r: Result<(u16, String, Schema), DbError>)
    requires
        table_fits(b@),
    ensures
        match r {
            Ok((tid, name, schema)) => table_at(b@) == Ok::<_, Seq<char>>(
                (tid, encode_utf8(name@), columns(schema.columns@)),
            ),
            Err(e) => table_at(b@) is Err && says(e, table_at(b@)->Err_0),
        },
{
    let total: usize = b.len();
    let mut pos: usize = 2;
    let tid: u16 = rd_u16(b, 0);
    let name: String = match get_str(b, &mut pos) {
        Ok(s) => s,
        Err(e) => {
            return Err(e);
        },
    };
    let ncols: usize = rd_u16(b, pos) as usize;
    let ghost start = pos + 2;
    pos = pos + 2;
    let mut cols: Vec<ColumnDef> = Vec::new();
    let mut i: usize = 0;
    assert(columns(cols@) =~= Seq::empty());
    while i < ncols
        invariant
            i <= ncols,
            total == b@.len(),
            columns_fit(b@, start as int, ncols as nat),
            start == text_end(b@, 2) + 2,
            ncols == le16(b@, text_end(b@, 2)),
            tid == le16(b@, 0),
            valid_utf8(text_at(b@, 2)),
            pos <= total,
            columns_at(b@, start as int, i as nat) == Ok::<_, Seq<char>>(
                (columns(cols@), pos as int),
            ),
        decreases ncols - i,
    {
        let ghost at = pos as int;
        proof {
            lemma_columns_fit(b@, start as int, (i + 1) as nat, ncols as nat);
            assert(column_fits(b@, at));
            if column_at(b@, at) is Err {
                lemma_columns_err(b@, start as int, (i + 1) as nat, ncols as nat);
            }
        }
        let cname: String = match get_str(b, &mut pos) {
            Ok(s) => s,
            Err(e) => {
                return Err(e);
            },
        };
        let tag: u8 = b[pos];
        let param: u16 = rd_u16(b, pos + 1);
        let not_null: bool = b[pos + 3] != 0;
        pos = pos + 4;
        let ty: ColumnType = match type_from_tag(tag, param) {
            Ok(t) => t,
            Err(e) => {
                return Err(e);
            },
        };
        let ghost was = cols@;
        let c: ColumnDef = ColumnDef { name: cname, ty, not_null };
        cols.push(c);
        assert(columns(cols@) =~= columns(was).push(c@));
        i = i + 1;
    }
    Ok((tid, name, Schema { columns: cols }))
}

// ---- index entries ----

/// The key of an index entry: the value's key, then where the row is.
pub open spec fn entry_key(v: ValueView, rid: Rid) -> Seq<u8> {
    encoded(v) + rid_bytes(rid)
}

pub fn index_key(col_type: ColumnType, v: &Value, rid: Rid) -> (k: Vec<u8>)
    requires
        fits_type(col_type, v@),
    ensures
        k@ == entry_key(v@, rid),
{
    let mut k: Vec<u8> = encode_value(col_type, v);
    rid.encode_into(&mut k);
    k
}

pub open spec fn flipped(op: BinOp) -> BinOp {
    match op {
        BinOp::Lt => BinOp::Gt,
        BinOp::Le => BinOp::Ge,
        BinOp::Gt => BinOp::Lt,
        BinOp::Ge => BinOp::Le,
        _ => op,
    }
}

/// The operator with its operands exchanged.
pub fn flip_op(op: BinOp) -> (r: BinOp)
    ensures
        r == flipped(op),
{
    match op {
        BinOp::Lt => BinOp::Gt,
        BinOp::Le => BinOp::Ge,
        BinOp::Gt => BinOp::Lt,
        BinOp::Ge => BinOp::Le,
        _ => op,
    }
}

/// A key behind every entry of the value with key `enc`.
pub open spec fn past(enc: Seq<u8>) -> Seq<u8> {
    enc + seq![0xFFu8, 0xFF, 0xFF, 0xFF, 0xFF, 0xFF]
}

/// The first key of the range, and the key that ends it.
pub open spec fn bounds_of(op: BinOp, enc: Seq<u8>) -> (Seq<u8>, Option<Seq<u8>>) {
    match op {
        BinOp::Eq => (enc, Some(past(enc))),
        BinOp::Ge => (enc, None),
        BinOp::Gt => (past(enc), None),
        BinOp::Le => (Seq::empty(), Some(past(enc))),
        BinOp::Lt => (Seq::empty(), Some(enc)),
        _ => (Seq::empty(), None),
    }
}

pub open spec fn bound_view(b: Option<Vec<u8>>) -> Option<Seq<u8>> {
    match b {
        Some(v) => Some(v@),
        None => None,
    }
}

/// The range of index keys that `column op value` asks for.
pub fn index_bounds(op: BinOp, enc: &[u8]) -> (r: (Vec<u8>, Option<Vec<u8>>))
    ensures
        (r.0@, bound_view(r.1)) == bounds_of(op, enc@),
{
    let mut beyond: Vec<u8> = copy_bytes(enc);
    let mut i: usize = 0;
    while i < 6
        invariant
            i <= 6,
            beyond@ == enc@ + Seq::new(i as nat, |k: int| 0xFFu8),
        decreases 6 - i,
    {
        beyond.push(0xFF);
        i = i + 1;
        assert(beyond@ =~= enc@ + Seq::new(i as nat, |k: int| 0xFFu8));
    }
    assert(beyond@ =~= past(enc@));
    match op {
        BinOp::Eq => (copy_bytes(enc), Some(beyond)),
        BinOp::Ge => (copy_bytes(enc), None),
        BinOp::Gt => (beyond, None),
        BinOp::Le => (Vec::new(), Some(beyond)),
        BinOp::Lt => (Vec::new(), Some(copy_bytes(enc))),
        _ => (Vec::new(), None),
    }
}

pub open spec fn in_range(k: Seq<u8>, lo: Seq<u8>, hi: Option<Seq<u8>>) -> bool {
    &&& lex_le(lo, k)
    &&& hi matches Some(h) ==> lex_lt(k, h)
}

/// `a op b` in the order of values, null below everything.
pub open spec fn compares(op: BinOp, a: ValueView, b: ValueView) -> bool {
    match op {
        BinOp::Eq => a == b,
        BinOp::Lt => value_lt(a, b),
        BinOp::Le => value_lt(a, b) || a == b,
        BinOp::Gt => value_lt(b, a),
        BinOp::Ge => value_lt(b, a) || a == b,
        _ => true,
    }
}

/// The range for `column op w` holds the entry of a row exactly when the row's value
/// satisfies the comparison. The row address whose bytes are all ones is no address.
pub proof fn law_index_range_is_exact(
    ty: ColumnType,
    op: BinOp,
    v: ValueView,
    w: ValueView,
    rid: Rid,
)
    requires
        fits_type(ty, v),
        fits_type(ty, w),
        rid != (Rid { page: 0xFFFF_FFFF, slot: 0xFFFF }),
    ensures
        in_range(entry_key(v, rid), bounds_of(op, encoded(w)).0, bounds_of(op, encoded(w)).1)
            == compares(op, v, w),
{
    let r = rid_bytes(rid);
    let f = seq![0xFFu8, 0xFF, 0xFF, 0xFF, 0xFF, 0xFF];
    let e: Seq<u8> = Seq::empty();
    let k = entry_key(v, rid);
    let enc = encoded(w);
    assert(enc + e =~= enc);
    law_value_order(ty, v, w, r, f);
    law_value_order(ty, w, v, f, r);
    law_value_order(ty, v, w, r, e);
    law_value_order(ty, w, v, e, r);
    law_value_order(ty, v, w, e, e);
    law_value_order(ty, w, v, e, e);
    lemma_below_ones(rid);
    lemma_lex_irreflexive(e);
    lemma_lex_total(k, enc);
    lemma_lex_total(k, past(enc));
    assert(e.len() == 0 && r.len() == 6);
    assert(!lex_lt(r, e));
    assert(lex_lt(e, r));
    assert(lex_le(e, k));
    lemma_lex_total(encoded(v), enc);
    assert(encoded(v) + e =~= encoded(v));
    if lex_lt(k, enc) || lex_lt(enc, k) {
    } else {
        assert(k == enc);
        assert(v == w ==> k.len() == enc.len() + 6);
    }
    if value_lt(v, w) {
        assert(v != w) by {
            if v == w {
                lemma_lex_irreflexive(encoded(v));
            }
        }
    }
    if value_lt(v, w) && value_lt(w, v) {
        lemma_lex_transitive(encoded(v), enc, encoded(v));
        lemma_lex_irreflexive(encoded(v));
    }
    lemma_lex_irreflexive(k);
}

proof fn lemma_below_ones(rid: Rid)
    requires
        rid != (Rid { page: 0xFFFF_FFFF, slot: 0xFFFF }),
    ensures
        lex_lt(rid_bytes(rid), seq![0xFFu8, 0xFF, 0xFF, 0xFF, 0xFF, 0xFF]),
        !lex_lt(seq![0xFFu8, 0xFF, 0xFF, 0xFF, 0xFF, 0xFF], rid_bytes(rid)),
{
    let r = rid_bytes(rid);
    let f = seq![0xFFu8, 0xFF, 0xFF, 0xFF, 0xFF, 0xFF];
    lemma_lex_total(r, f);
    lemma_ones_are_greatest(r, f);
    if r == f {
        law_rid_roundtrip(r, 0, rid);
        assert(r.subrange(0, 6) =~= r);
        assert(le32(f, 0) == 0xFFFF_FFFF);
        assert(le16(f, 4) == 0xFFFF);
    }
}

proof fn lemma_ones_are_greatest(r: Seq<u8>, f: Seq<u8>)
    requires
        r.len() == f.len(),
        forall|i: int| 0 <= i < f.len() ==> #[trigger] f[i] == 0xFF,
    ensures
        !lex_lt(f, r),
    decreases r.len(),
{
    if r.len() > 0 {
        lemma_ones_are_greatest(r.drop_first(), f.drop_first());
    }
}

// ---- laws of the stored forms ----

/// An index definition reads back as it was stored.
pub proof fn law_index_roundtrip(
    name: Seq<u8>,
    tid: u16,
    col_index: u32,
    ty: ColumnType,
    root: u32,
)
    requires
        name.len() <= 0xFFFF,
    ensures
        ({
            let b = stored_index(name, tid, col_index, ty, root);
            let p = text_end(b, 0);
            &&& index_fits(b)
            &&& text_at(b, 0) == name
            &&& le16(b, p) == tid
            &&& le32(b, p + 2) == col_index
            &&& index_type(b) == Some(ty)
            &&& le32(b, p + 9) == root
        }),
{
    let b = stored_index(name, tid, col_index, ty, root);
    let n = name.len() as int;
    assert(b.len() == n + 15);
    assert(b.subrange(0, 2) =~= le16_bytes(n as u16));
    lemma_le16_bytes(b, 0, n as u16);
    assert(text_at(b, 0) =~= name);
    let p = n + 2;
    assert(b.subrange(p, p + 2) =~= le16_bytes(tid));
    lemma_le16_bytes(b, p, tid);
    assert(b.subrange(p + 2, p + 6) =~= le32_bytes(col_index));
    lemma_le32_bytes(b, p + 2, col_index);
    assert(b.subrange(p + 7, p + 9) =~= le16_bytes(tag_of(ty).1));
    lemma_le16_bytes(b, p + 7, tag_of(ty).1);
    assert(b.subrange(p + 9, p + 13) =~= le32_bytes(root));
    lemma_le32_bytes(b, p + 9, root);
    assert(b[p + 6] == tag_of(ty).0);
}

/// A column that can be stored.
pub open spec fn storable(c: ColumnView) -> bool {
    c.name.len() <= 0xFFFF && valid_utf8(c.name)
}

proof fn lemma_column_at(b: Seq<u8>, pos: int, c: ColumnView)
    requires
        0 <= pos,
        storable(c),
        pos + stored_column(c).len() <= b.len(),
        b.subrange(pos, pos + stored_column(c).len()) == stored_column(c),
    ensures
        column_fits(b, pos),
        column_at(b, pos) == Ok::<_, Seq<char>>((c, pos + stored_column(c).len())),
{
    let g = stored_column(c);
    let n = c.name.len() as int;
    assert(g.len() == n + 6);
    let d = b.subrange(pos, pos + g.len());
    assert(b.subrange(pos, pos + 2) =~= d.subrange(0, 2));
    assert(g.subrange(0, 2) =~= le16_bytes(n as u16));
    lemma_le16_bytes(b, pos, n as u16);
    assert(text_at(b, pos) =~= d.subrange(2, n + 2));
    assert(g.subrange(2, n + 2) =~= c.name);
    let p = pos + 2 + n;
    assert(b[p] == d[n + 2]);
    assert(b.subrange(p + 1, p + 3) =~= d.subrange(n + 3, n + 5));
    assert(g.subrange(n + 3, n + 5) =~= le16_bytes(tag_of(c.ty).1));
    lemma_le16_bytes(b, p + 1, tag_of(c.ty).1);
    assert(b[p + 3] == d[n + 5]);
}

proof fn lemma_columns_at(b: Seq<u8>, pos: int, cs: Seq<ColumnView>)
    requires
        0 <= pos,
        forall|i: int| 0 <= i < cs.len() ==> storable(#[trigger] cs[i]),
        pos + stored_columns(cs).len() <= b.len(),
        b.subrange(pos, pos + stored_columns(cs).len()) == stored_columns(cs),
    ensures
        columns_fit(b, pos, cs.len()),
        columns_at(b, pos, cs.len()) == Ok::<_, Seq<char>>((cs, pos + stored_columns(cs).len())),
    decreases cs.len(),
{
    if cs.len() == 0 {
        assert(cs =~= Seq::empty());
    } else {
        let init = cs.drop_last();
        let a = stored_columns(init);
        let z = stored_column(cs.last());
        let g = b.subrange(pos, pos + stored_columns(cs).len());
        assert(b.subrange(pos, pos + a.len()) =~= g.subrange(0, a.len() as int));
        assert((a + z).subrange(0, a.len() as int) =~= a);
        assert forall|i: int| 0 <= i < init.len() implies storable(#[trigger] init[i]) by {
            assert(init[i] == cs[i]);
        }
        lemma_columns_at(b, pos, init);
        let p = pos + a.len();
        assert(b.subrange(p, p + z.len()) =~= g.subrange(a.len() as int, g.len() as int));
        assert((a + z).subrange(a.len() as int, (a + z).len() as int) =~= z);
        lemma_column_at(b, p, cs.last());
        assert(init.push(cs.last()) =~= cs);
    }
}

/// A table definition reads back as it was stored.
pub proof fn law_table_roundtrip(tid: u16, name: Seq<u8>, cs: Seq<ColumnView>)
    requires
        name.len() <= 0xFFFF,
        valid_utf8(name),
        cs.len() <= 0xFFFF,
        forall|i: int| 0 <= i < cs.len() ==> storable(#[trigger] cs[i]),
    ensures
        table_fits(stored_table(tid, name, cs)),
        table_at(stored_table(tid, name, cs)) == Ok::<_, Seq<char>>((tid, name, cs)),
{
    let b = stored_table(tid, name, cs);
    let n = name.len() as int;
    assert(b.subrange(0, 2) =~= le16_bytes(tid));
    lemma_le16_bytes(b, 0, tid);
    assert(b.subrange(2, 4) =~= le16_bytes(n as u16));
    lemma_le16_bytes(b, 2, n as u16);
    assert(text_at(b, 2) =~= name);
    let p = n + 4;
    assert(b.subrange(p, p + 2) =~= le16_bytes(cs.len() as u16));
    lemma_le16_bytes(b, p, cs.len() as u16);
    assert(b.subrange(p + 2, p + 2 + stored_columns(cs).len()) =~= stored_columns(cs));
    lemma_columns_at(b, p + 2, cs);
}

} // verus!
