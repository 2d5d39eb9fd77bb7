//! The database layer: statement log, catalog, planning and execution rules.

use vstd::prelude::*;

use crate::buffer::{buffer_error_text, BufferError};
use crate::heap::{heap_error_text, HeapError};

pub mod aggregates;
pub mod answers;
pub mod ast;
pub mod borrowtrack;
pub mod catalog;
pub mod change;
pub mod ddl;
pub mod define;
pub mod defined;
pub mod dml;
pub mod exact;
pub mod exec;
pub mod failures;
pub mod gather;
pub mod indexed;
pub mod joined;
pub mod joins;
pub mod keyed;
pub mod logged;
pub mod order;
pub mod plan;
pub mod query;
pub mod removal;
pub mod reopen;
pub mod resolved;
pub mod room;
pub mod route;
pub mod rows;
pub mod scanned;
pub mod script;
pub mod select;
pub mod session;
pub mod statement;
pub mod store;
pub mod wal;
pub mod whole;
pub mod written;

verus! {

/// What a statement can fail with.
#[derive(Debug)]
pub enum DbError {
    /// The statement could not be parsed.
    Parse(String),
    Exec(String),
    Heap(HeapError),
    Buffer(BufferError),
}

/// The text of an error, where `io` is what the file says of its own failure.
pub open spec fn db_error_text(e: DbError, io: Seq<char>) -> Seq<char> {
    match e {
        DbError::Parse(t) => t@,
        DbError::Exec(t) => t@,
        DbError::Heap(h) => heap_error_text(h, io),
        DbError::Buffer(b) => buffer_error_text(b, io),
    }
}

impl DbError {
    /// The text of the error, where `io` is what the file says of its own failure.
    pub fn text(&self, io: &str) -> (t: String)
        ensures
            t@ == db_error_text(*self, io@),
    {
        match self {
            DbError::Parse(t) => t.clone(),
            DbError::Exec(t) => t.clone(),
            DbError::Heap(h) => h.text(io),
            DbError::Buffer(b) => b.text(io),
        }
    }
}

/// The error says `m`.
pub open spec fn says(e: DbError, m: Seq<char>) -> bool {
    e matches DbError::Exec(t) && t@ == m
}

pub fn exec_err<T>(m: &str) -> (r: Result<T, DbError>)
    ensures
        r matches Err(e) && says(e, m@),
{
    Err(DbError::Exec(m.to_owned()))
}

} // verus!
