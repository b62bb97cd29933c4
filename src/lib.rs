//! Sparse-set component storage for an entity/component architecture.
//!
//! A [`Pool`] keeps every instance of one component type, keyed by entity
//! handle, with a sparse index layer over two densely packed layers.
//! An [`EntityStore`] keeps one pool per registered component type.

pub mod pool;
pub mod store;

pub use pool::{Component, EntityId, Pool};
pub use store::{EntityStore, PoolMap, PoolRemoval, PoolRemover};
