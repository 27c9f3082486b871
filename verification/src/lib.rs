//! The on-disk structures and the compaction rules of a log-structured merge tree.

pub mod block;
pub mod buf;
pub mod compact;
pub mod double;
pub mod ids;
pub mod key;
pub mod lsm_storage;
pub mod table;
pub mod wal;
