//! Content resolution and caching for a file-backed blog engine.
//!
//! A query on a content class ([`query::StorageQuery`]) carries a 64-bit
//! fingerprint derived from a canonical encoding of its parts. The index
//! ([`index::LocalStorage`]) answers it from the units held in memory, or
//! names what must be read from disk first. Answers are kept in a
//! byte-budgeted cache ([`cache::PartitionedCache`]) split across classes,
//! which evicts its least-read entries first, and the coordinator
//! ([`storage::StorageImpl`]) never serves an answer older than the index.
use vstd::prelude::*;

pub mod encode;
pub mod value;
pub mod query;
pub mod cache;
pub mod page;
pub mod index;
pub mod storage;
pub mod post;
pub mod protection;
pub mod site;
pub mod routes;
pub mod config;
pub mod context;
pub mod lang;

verus! {

/// Scripts are served as they are stored.
pub fn minify_js(data: Vec<u8>) -> (r: Vec<u8>)
    ensures
        r@ == data@,
{
    data
}

} // verus!
