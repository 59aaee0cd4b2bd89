//! StructFS: a uniform read/write interface over paths.
//!
//! The library holds the data model (validated paths, the value tree,
//! records and formats), the in-memory and routing stores, and the
//! handle and HTTP broker state machines, each with its contract.

pub mod async_bridge;
pub mod bridge;
pub mod broker;
pub mod combinators;
pub mod conformance;
pub mod error;
pub mod format;
pub mod handles;
pub mod http_api;
pub mod http_client;
pub mod ident;
pub mod lazy_record;
pub mod ll;
pub mod memory_store;
pub mod mount_store;
pub mod overlay_store;
pub mod path;
pub mod path_order;
pub mod path_pattern;
pub mod path_trie;
pub mod record;
pub mod reference;
pub mod strmap;
pub mod text;
pub mod traits;
pub mod value;
