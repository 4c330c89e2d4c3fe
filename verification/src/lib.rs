//! Relationship engine for a document store: a registry of links between
//! collections, a cascading delete that enforces on-delete policies, and a
//! population traversal that joins linked records into one document tree.
//!
//! The store itself is never called from here. Both traversals are resumable
//! machines: each step takes the store's answer to the previous request and
//! returns the next request, so a caller that owns the connection runs the loop.

pub mod document;
pub mod policy;
pub mod registry;
pub mod cascade;
pub mod cascade_laws;
pub mod erased;
pub mod populate;
pub mod populate_laws;
pub mod joined;

pub use crate::policy::OnDelete;
pub use crate::registry::{FkField, FkFieldMap, Tumongo};
