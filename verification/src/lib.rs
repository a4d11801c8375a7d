//! An entity-component-system runtime.
//!
//! Game or simulation objects ("entities") are bare identifiers; plain data
//! fragments ("components") are attached to them through per-type storage
//! lists, and per-tick logic ("systems") runs only over the entities whose
//! component shape matches a declared aspect.  The world orchestrates entity
//! creation and removal through a deferred event queue, so that systems are
//! notified at well-defined flush points rather than mid-mutation.

use vstd::prelude::*;

pub mod aspect;
pub mod component;
pub mod entity;
pub mod manager;
pub mod serial;
pub mod system;
pub mod world;

pub use aspect::Aspect;
pub use component::{Component, ComponentList, EntityBuilder, EntityModifier};
pub use entity::{Entity, EntityIter, FilteredEntityIter, IndexedEntity};
pub use serial::SaveData;
pub use system::{Process, System};
pub use world::{
    ComponentManager, DataHelper, EntityCall, SaveError, ServiceManager, SystemManager, World,
};


verus! {

/// A read-only view of a freshly allocated entity, handed to an
/// `EntityBuilder` so that it can write the entity's initial components.
pub struct BuildData<'a, T: ComponentManager>(&'a IndexedEntity<T>);

/// A read-only view of a live entity, handed to an `EntityModifier` so that
/// it can change the entity's components in place.
pub struct ModifyData<'a, T: ComponentManager>(&'a IndexedEntity<T>);

/// A read-only view of a live entity, handed to systems with lifecycle
/// notifications and to entity walks.
pub struct EntityData<'a, T: ComponentManager>(&'a IndexedEntity<T>);

impl<'a, T: ComponentManager> BuildData<'a, T> {
    /// The indexed entity this view stands for.
    pub closed spec fn target(&self) -> IndexedEntity<T> {
        *self.0
    }

    pub(crate) fn make(e: &'a IndexedEntity<T>) -> (r: BuildData<'a, T>)
        ensures
            r.target() == *e,
    {
        BuildData(e)
    }

    /// The indexed entity being built.
    pub fn entity(&self) -> (r: &IndexedEntity<T>)
        ensures
            *r == self.target(),
    {
        self.0
    }
}

impl<'a, T: ComponentManager> ModifyData<'a, T> {
    /// The indexed entity this view stands for.
    pub closed spec fn target(&self) -> IndexedEntity<T> {
        *self.0
    }

    pub(crate) fn make(e: &'a IndexedEntity<T>) -> (r: ModifyData<'a, T>)
        ensures
            r.target() == *e,
    {
        ModifyData(e)
    }
}

impl<'a, T: ComponentManager> EntityData<'a, T> {
    /// The indexed entity this view stands for.
    pub closed spec fn target(&self) -> IndexedEntity<T> {
        *self.0
    }

    pub(crate) fn make(e: &'a IndexedEntity<T>) -> (r: EntityData<'a, T>)
        ensures
            r.target() == *e,
    {
        EntityData(e)
    }
}

/// The capability shared by the entity views that may address component
/// storage: each resolves to one indexed entity.
pub trait EditData<T: ComponentManager> {
    /// The indexed entity the view resolves to.
    spec fn edited(&self) -> IndexedEntity<T>;

    /// Borrows the indexed entity the view resolves to.
    fn edit_entity(&self) -> (r: &IndexedEntity<T>)
        ensures
            *r == self.edited(),
    ;
}

impl<'a, T: ComponentManager> EditData<T> for ModifyData<'a, T> {
    open spec fn edited(&self) -> IndexedEntity<T> {
        self.target()
    }

    fn edit_entity(&self) -> (r: &IndexedEntity<T>)
        ensures
            *r == self.edited(),
    {
        self.0
    }
}

impl<'a, T: ComponentManager> EditData<T> for EntityData<'a, T> {
    open spec fn edited(&self) -> IndexedEntity<T> {
        self.target()
    }

    fn edit_entity(&self) -> (r: &IndexedEntity<T>)
        ensures
            *r == self.edited(),
    {
        self.0
    }
}

impl<T: ComponentManager> EditData<T> for IndexedEntity<T> {
    open spec fn edited(&self) -> IndexedEntity<T> {
        *self
    }

    fn edit_entity(&self) -> (r: &IndexedEntity<T>)
        ensures
            *r == self.edited(),
    {
        self
    }
}

} // verus!
