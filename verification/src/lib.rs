//! A relational storage engine in the small: a strict six-type value
//! vocabulary and, on top of it, a checksummed, copy-on-write B+tree keyed
//! by `i64`, cached by an LRU buffer pool.

pub mod btree;
pub mod buffer_pool;
pub mod caching;
pub mod codec;
pub mod database;
pub mod disk;
pub mod durability;
pub mod error;
pub mod formats;
pub mod guarantees;
pub mod lexis;
pub mod page;
pub mod pager;
pub mod row;

pub use crate::database::{Database, Progress};
pub use crate::disk::IoAction;
pub use crate::error::{FatalError, PermanentError, PinaxError};
pub use crate::page::PageSize;
pub use crate::row::Row;
