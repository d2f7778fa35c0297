//! Storage-and-search core of a vector database segment: vectors and
//! structured payloads of points under versioned, idempotent operations, a
//! plain index answering filtered top-k similarity queries, and the
//! operation log that makes replay safe.
use vstd::prelude::*;

pub mod document;
pub mod filter;
pub mod json;
pub mod payload;
pub mod payload_storage;
pub mod plain_index;
pub mod segment;
pub mod types;
pub mod update_handler;
pub mod vector_storage;
pub mod wal;

verus! {

} // verus!
