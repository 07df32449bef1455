//! A verified core for a redirect-based, write-ahead-logged file system:
//! metadata namespace, WAL framing and transaction rules, garbage
//! collection, staging, chunk caching and configuration parsing.

use vstd::prelude::*;

pub mod cache;
pub mod chunk_store;
pub mod clock;
pub mod config;
pub mod service;
pub mod encoding;
pub mod frame;
pub mod gc;
pub mod keyed;
pub mod lifecycle;
pub mod metadata;
pub mod namespace;
pub mod path_resolver;
pub mod recovery;
pub mod staging;
pub mod text;
pub mod wal;

verus! {

} // verus!
