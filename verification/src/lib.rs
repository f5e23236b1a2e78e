//! An in-memory model of a small directed multigraph of "spans" together
//! with the machinery to explore it interactively: identity-stable upsert
//! of nodes, edge insertion that rejects unknown endpoints, depth-limited
//! bidirectional neighborhood layering, a deterministic spatial projection
//! of those layers, and the selection/filter state machine that drives a
//! terminal front end.

pub mod classify;
pub mod columns;
pub mod layers;
pub mod loader;
pub mod project;
pub mod session;
pub mod store;
pub mod text;
