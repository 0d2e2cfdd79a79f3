//! A cached, cursor-paginated query layer over a document collection of
//! "samples" with embedded "values".
//!
//! The crate provides the pieces that carry the design's invariants: a
//! TTL-and-capacity bounded query cache keyed by normalized argument tuples,
//! an opaque-cursor pagination codec over a fixed total order, a
//! status-window filter builder with an injected clock, an authorization
//! gate for mutations, and the mutation semantics (duplicate-key checked
//! creation, partial patches, audit stamping, embedded add/update/delete)
//! over an in-memory document store.

pub mod auth;
pub mod cache;
pub mod errors;
pub mod filters;
pub mod ids;
pub mod models;
pub mod numerals;
pub mod pagination;
pub mod schema;
pub mod store;
