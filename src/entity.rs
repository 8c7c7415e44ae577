//! Entity identifiers and their binding to dense storage indices.

use std::marker::PhantomData;
use vstd::prelude::*;

verus! {

/// Identifier value carried by an [`Entity`].
pub type Id = u64;

/// An opaque entity handle. The value `0` is reserved as "nil".
#[derive(Copy, Clone, Debug, PartialEq, Eq, Hash, Structural)]
pub struct Entity(pub(crate) Id);

impl Entity {
    /// The identifier value of this handle.
    pub closed spec fn spec_id(self) -> Id {
        self.0
    }

    /// The nil handle.
    pub closed spec fn spec_nil() -> Entity {
        Entity(0)
    }

    /// Two handles are equal exactly when their identifiers are.
    pub proof fn lemma_eq_by_id(a: Entity, b: Entity)
        ensures
            (a == b) <==> (a.spec_id() == b.spec_id()),
    {
    }

    /// The reserved handle that no manager ever issues.
    pub fn nil() -> (r: Entity)
        ensures
            r.spec_id() == 0,
            r == Entity::spec_nil(),
    {
        Entity(0)
    }

    /// Returns the entity's unique identifier.
    pub fn id(&self) -> (r: Id)
        ensures
            r == self.spec_id(),
    {
        self.0
    }

    /// Builds a handle with a given identifier; only a manager issues them.
    pub(crate) fn with_id(id: Id) -> (r: Entity)
        ensures
            r.spec_id() == id,
    {
        Entity(id)
    }
}

impl Default for Entity {
    fn default() -> (r: Entity)
        ensures
            r.spec_id() == 0,
            r == Entity::spec_nil(),
    {
        Entity::nil()
    }
}

/// An entity bound to its dense storage index, tagged with the attribute-table
/// type `T` whose index space it belongs to. Only the manager mints these, and
/// no public operation duplicates one.
#[derive(Debug)]
pub struct IndexedEntity<T> {
    index: usize,
    entity: Entity,
    universe: PhantomData<T>,
}

impl<T> IndexedEntity<T> {
    /// The dense index of this binding.
    pub closed spec fn spec_index(&self) -> usize {
        self.index
    }

    /// The entity of this binding.
    pub closed spec fn spec_entity(&self) -> Entity {
        self.entity
    }

    /// Mints a binding; reserved to the manager.
    pub(crate) fn mint(index: usize, entity: Entity) -> (r: IndexedEntity<T>)
        ensures
            r.spec_index() == index,
            r.spec_entity() == entity,
    {
        IndexedEntity { index, entity, universe: PhantomData }
    }

    /// Copies a binding; reserved to the manager.
    pub(crate) fn duplicate(&self) -> (r: IndexedEntity<T>)
        ensures
            r.spec_index() == self.spec_index(),
            r.spec_entity() == self.spec_entity(),
    {
        IndexedEntity { index: self.index, entity: self.entity, universe: PhantomData }
    }

    /// The dense storage index of this entity.
    pub fn index(&self) -> (r: usize)
        ensures
            r == self.spec_index(),
    {
        self.index
    }

    /// The entity that this binding is for.
    pub fn entity(&self) -> (r: Entity)
        ensures
            r == self.spec_entity(),
    {
        self.entity
    }
}

} // verus!
