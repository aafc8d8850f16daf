//! An append-friendly store of named entries, each holding a list of row
//! batches, kept in an ordered key-value store with nested transactions.

pub mod order;
pub mod store;

pub mod lsm;
pub mod error;
pub mod file;
pub mod batch;
pub mod text;
pub mod entry;
pub mod rows;
pub mod laws;
pub mod cli;
