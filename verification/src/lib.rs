//! A minimal suspense runtime: reactive cells, sequence-tagged asynchronous
//! resources, nested suspense boundaries, and the server-stream / hydration
//! coordinator that splices resolved fragments into identity-tagged
//! placeholders.

pub mod cell;
pub mod hydrate;
pub mod phase;
pub mod resource;
pub mod runtime;
pub mod stream;
pub mod tree;
