//! A personal note collection: notes are stored by content digest in a
//! deduplicating blob store, classified under a forest of hierarchical tags
//! derived from flat relational records, and projected onto read-only
//! filesystem semantics with a stable identity-to-handle mapping.

pub mod fsdriver;
pub mod handles;
pub mod hexcode;
pub mod resolve;
pub mod store;
pub mod tree;
pub mod types;
