//! The single-interest system wrapper: one aspect, one interest set.

use vstd::prelude::*;

use crate::aspect::Aspect;
use crate::entity::{EntityIter, IndexedEntity};
use crate::system::{holds_id, InterestSet, Process, System};
use crate::world::DataHelper;
use crate::{EditData, EntityData};

verus! {

/// A system that processes a pre-filtered walk over the entities it is
/// interested in.
pub trait EntityProcess: System {
    /// One processing step over the system's current interest set.
    fn process(
        &mut self,
        entities: EntityIter<Self::Components>,
        data: &mut DataHelper<Self::Components, Self::Services>,
    )
        ensures
            old(data).wf() ==> final(data).wf(),
    ;
}

/// Wraps a system with one aspect and one interest set, run through the
/// activation state machine: an entity enters the set exactly while its
/// component shape matches the aspect, and the inner system's lifecycle
/// hooks fire on each transition.
pub struct EntitySystem<T: EntityProcess> {
    pub inner: T,
    interested: InterestSet<T::Components>,
    aspect: Aspect<T::Components>,
}

impl<T: EntityProcess> EntitySystem<T> {
    /// The interest set, in the order entities entered it.
    pub closed spec fn interest(&self) -> Seq<IndexedEntity<T::Components>> {
        self.interested.list()
    }

    /// The aspect the wrapper filters entities with.
    pub closed spec fn aspect_spec(&self) -> Aspect<T::Components> {
        self.aspect
    }

    /// The wrapped system, as a specification value.
    pub closed spec fn inner_spec(&self) -> T {
        self.inner
    }

    /// Whether the entity with this identity is in the interest set.
    pub open spec fn is_interested(&self, id: u64) -> bool {
        holds_id(self.interest(), id)
    }

    /// No entity is in the interest set twice.
    pub open spec fn wf(&self) -> bool {
        crate::system::distinct_ids(self.interest())
    }

    /// Whether the entity with this identity is currently in the interest
    /// set.
    pub fn interested_in(&self, id: u64) -> (r: bool)
        ensures
            r == self.is_interested(id),
    {
        self.interested.contains(id)
    }

    /// Wraps `inner`, interested in the entities matching `aspect`.
    pub fn new(inner: T, aspect: Aspect<T::Components>) -> (r: EntitySystem<T>)
        ensures
            r.wf(),
            r.interest() =~= Seq::<IndexedEntity<T::Components>>::empty(),
            r.aspect_spec() == aspect,
            r.inner_spec() == inner,
    {
        EntitySystem { interested: InterestSet::empty(), aspect, inner }
    }
}

impl<T: EntityProcess> System for EntitySystem<T> {
    type Components = T::Components;

    type Services = T::Services;

    /// A freshly built entity enters the interest set exactly when it
    /// matches the aspect, in which case the inner system hears
    /// `activated`.
    fn activated(
        &mut self,
        e: &EntityData<'_, T::Components>,
        c: &T::Components,
        s: &mut T::Services,
    )
        ensures
            final(self).aspect_spec() == old(self).aspect_spec(),
            old(self).wf() ==> final(self).wf(),
            final(self).is_interested(e.target().ident()@) == (old(self).is_interested(
                e.target().ident()@,
            ) || old(self).aspect_spec().matches(*c, e.target().dense_index())),
            forall|id: u64|
                id != e.target().ident()@ ==> final(self).is_interested(id) == old(self).is_interested(id),
    {
        if self.aspect.check(e, c) {
            self.interested.insert(e.edit_entity());
            self.inner.activated(e, c, s);
        }
    }

    /// Interest-set convergence: whatever the set held before, after a
    /// reactivation notification the entity is in the set exactly when its
    /// component shape matches the aspect right now, and the inner system
    /// hears the transition it took.
    fn reactivated(
        &mut self,
        e: &EntityData<'_, T::Components>,
        c: &T::Components,
        s: &mut T::Services,
    )
        ensures
            final(self).aspect_spec() == old(self).aspect_spec(),
            old(self).wf() ==> final(self).wf(),
            final(self).is_interested(e.target().ident()@) == old(self).aspect_spec().matches(
                *c,
                e.target().dense_index(),
            ),
            forall|id: u64|
                id != e.target().ident()@ ==> final(self).is_interested(id) == old(self).is_interested(id),
    {
        let eid = e.edit_entity().entity().id();
        if self.interested.contains(eid) {
            if self.aspect.check(e, c) {
                self.inner.reactivated(e, c, s);
            } else {
                self.interested.remove(eid);
                self.inner.deactivated(e, c, s);
            }
        } else {
            if self.aspect.check(e, c) {
                self.interested.insert(e.edit_entity());
                self.inner.activated(e, c, s);
            }
        }
    }

    /// A removed entity leaves the interest set; the inner system hears
    /// `deactivated` exactly when the entity was in it.
    fn deactivated(
        &mut self,
        e: &EntityData<'_, T::Components>,
        c: &T::Components,
        s: &mut T::Services,
    )
        ensures
            final(self).aspect_spec() == old(self).aspect_spec(),
            old(self).wf() ==> final(self).wf(),
            !final(self).is_interested(e.target().ident()@),
            forall|id: u64|
                id != e.target().ident()@ ==> final(self).is_interested(id) == old(self).is_interested(id),
    {
        let eid = e.edit_entity().entity().id();
        if self.interested.contains(eid) {
            self.interested.remove(eid);
            self.inner.deactivated(e, c, s);
        }
    }

    fn is_active(&self) -> bool {
        self.inner.is_active()
    }
}

impl<T: EntityProcess> Process for EntitySystem<T> {
    /// Hands the inner system a walk over the interest set, in the order
    /// entities entered it.
    fn process(&mut self, data: &mut DataHelper<T::Components, T::Services>)
        ensures
            final(self).interest() == old(self).interest(),
            final(self).aspect_spec() == old(self).aspect_spec(),
    {
        let items = self.interested.collect();
        self.inner.process(EntityIter::from_items(items), data);
    }
}

} // verus!
