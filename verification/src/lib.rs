//! The on-disk data layer of a log-structured-merge storage engine: sorted
//! key-value entries packed into fixed-size blocks, blocks packed into a
//! sorted-string table, and the iteration protocol used to read entries back
//! in key order.

pub mod block;
pub mod table;

pub mod utils;
