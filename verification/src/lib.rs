//! A data-ownership framework for document-oriented stores.
//!
//! Application code declares, per collection, a primary-key ("index") field
//! and zero or more owned-by relationships.  From those declarations the
//! library builds a directed ownership graph, keeps it acyclic, and offers a
//! cascading `safe_delete` that removes a record together with everything the
//! record transitively owns, so that no orphaned documents remain.

pub mod codec;
pub mod delete;
pub mod graph;
pub mod laws;
pub mod model;
pub mod registry;
pub mod schemas;
pub mod store;
