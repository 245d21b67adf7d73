//! A hierarchical store of JSON-like data that is partitioned into zones.
//!
//! The verified core: the mergeable node tree (`node`), how it is split into
//! zones (`delegate`), paths (`path`),
//! key ordering (`order`), leaf values and documents (`value`), client
//! commands (`command`), bound clients (`listener`), zone bookkeeping (`zone`), store file naming
//! (`store`), cluster replica bookkeeping (`cluster`), zone management
//! decisions (`manager`) and statistics counters (`stats`).

pub mod order;
pub mod value;
pub mod text;
pub mod path;
pub mod node;
pub mod node_laws;
pub mod delegate;
pub mod json_text;
pub mod command;
pub mod listener;
pub mod zone;
pub mod stats;
pub mod cluster;
pub mod store;
pub mod manager;
