//! Entity identity and lifecycle management: identifiers, dense storage
//! indices with recycling, and a deferred log of structural changes.

pub mod codec;
pub mod collaborators;
pub mod entity;
pub mod index_pool;
pub mod laws;
pub mod manager;
