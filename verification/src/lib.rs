//! Hyperion: an endpoint-first embedded database.
//!
//! The unit of storage is an endpoint, a pair of a dotted path and a scalar
//! value. Entities are rebuilt on demand from the endpoints under a prefix.

pub mod seq_laws;
pub mod text;
pub mod number;
pub mod path;
pub mod path_laws;
pub mod errors;
pub mod value;
pub mod session;
pub mod store;
pub mod memory;
pub mod entity;
pub mod kv;
pub mod codec;
pub mod index_key;
pub mod index_types;
pub mod prefix_index;
pub mod pretty;
pub mod postings;
pub mod wildcard_index;
pub mod index_worker;
pub mod index_system;
pub mod index_batcher;
pub mod persistent;
pub mod store_laws;
pub mod entity_laws;
pub mod database;
pub mod history;
pub mod ql;
