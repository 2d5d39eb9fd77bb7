//! A storage engine: slotted pages, normalized keys, page caches, heaps,
//! B-trees, transactions, and the checks and recovery rules that hold them
//! together.

use vstd::prelude::*;

pub mod btree;
pub mod buffer;
pub mod bytes;
pub mod cbuffer;
pub mod cheap;
pub mod ckv;
pub mod clock;
pub mod db;
pub mod dbcheck;
pub mod faultfs;
pub mod heap;
pub mod keys;
pub mod latch;
pub mod lockmgr;
pub mod mvcc;
pub mod page;
pub mod pager;
pub mod sets;
pub mod text;
pub mod types;
pub mod vfs;
