//! In-memory metadata engine for a project tree: typed `type:value` tags on
//! files with derived reverse indices, a boolean/wildcard query language over
//! those tags, directed described relation edges with forward and reverse
//! adjacency, and a free-text comment store.
//!
//! Persistence, filesystem checks and the RPC surface are external
//! collaborators; this crate holds the indexing and query logic itself.

pub mod assoc;
pub mod bridge;
pub mod comments;
pub mod error;
pub mod facade;
pub mod laws;
pub mod lex;
pub mod query;
pub mod relations;
pub mod relmap;
pub mod split;
pub mod strset;
pub mod tags;
pub mod text;
