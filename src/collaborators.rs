//! Interfaces of the parts of a world that the manager drives but does not own.

use crate::entity::IndexedEntity;
use vstd::prelude::*;

verus! {

/// Attribute storage addressed by dense index.
pub trait ComponentManager: Sized {
    /// Strips every attribute stored for the entity.
    fn remove_all(&mut self, entity: &IndexedEntity<Self>);
}

/// Populates the initial attributes of a freshly created entity.
pub trait EntityBuilder<T> {
    fn build(self, entity: &IndexedEntity<T>, components: &mut T);
}

/// Dependent subsystems told when entities become visible or go away.
pub trait SystemManager<T, M> {
    fn activated(&mut self, entity: &IndexedEntity<T>, components: &T, services: &mut M);

    fn deactivated(&mut self, entity: &IndexedEntity<T>, components: &T, services: &mut M);
}

} // verus!
