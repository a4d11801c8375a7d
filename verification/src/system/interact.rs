//! The dual-interest system wrapper: two independent aspects and interest
//! sets, for pairwise interaction between two kinds of entity.

use vstd::prelude::*;

use crate::aspect::Aspect;
use crate::entity::{EntityIter, IndexedEntity};
use crate::system::{holds_id, InterestSet, Process, System};
use crate::world::DataHelper;
use crate::{EditData, EntityData};

verus! {

/// A system that processes two pre-filtered walks, one per interest set,
/// enabling pairwise interaction logic without re-deriving membership.
pub trait InteractProcess: System {
    /// One processing step over the two current interest sets.
    fn process(
        &mut self,
        first: EntityIter<Self::Components>,
        second: EntityIter<Self::Components>,
        data: &mut DataHelper<Self::Components, Self::Services>,
    )
        ensures
            old(data).wf() ==> final(data).wf(),
    ;
}

/// Wraps a system with two aspects and two interest sets; both activation
/// state machines run independently on every notification, so the inner
/// system may hear a hook once per set an entity enters or leaves.
pub struct InteractSystem<T: InteractProcess> {
    pub inner: T,
    interested_a: InterestSet<T::Components>,
    interested_b: InterestSet<T::Components>,
    aspect_a: Aspect<T::Components>,
    aspect_b: Aspect<T::Components>,
}

impl<T: InteractProcess> InteractSystem<T> {
    /// The first interest set, in the order entities entered it.
    pub closed spec fn interest_a(&self) -> Seq<IndexedEntity<T::Components>> {
        self.interested_a.list()
    }

    /// The second interest set, in the order entities entered it.
    pub closed spec fn interest_b(&self) -> Seq<IndexedEntity<T::Components>> {
        self.interested_b.list()
    }

    /// The aspect guarding the first interest set.
    pub closed spec fn aspect_a_spec(&self) -> Aspect<T::Components> {
        self.aspect_a
    }

    /// The aspect guarding the second interest set.
    pub closed spec fn aspect_b_spec(&self) -> Aspect<T::Components> {
        self.aspect_b
    }

    /// The wrapped system, as a specification value.
    pub closed spec fn inner_spec(&self) -> T {
        self.inner
    }

    /// Whether the entity with this identity is in the first set.
    pub open spec fn in_a(&self, id: u64) -> bool {
        holds_id(self.interest_a(), id)
    }

    /// Whether the entity with this identity is in the second set.
    pub open spec fn in_b(&self, id: u64) -> bool {
        holds_id(self.interest_b(), id)
    }

    /// No entity is in either interest set twice.
    pub open spec fn wf(&self) -> bool {
        &&& crate::system::distinct_ids(self.interest_a())
        &&& crate::system::distinct_ids(self.interest_b())
    }

    /// Whether the entity with this identity is in the first interest set.
    pub fn first_has(&self, id: u64) -> (r: bool)
        ensures
            r == self.in_a(id),
    {
        self.interested_a.contains(id)
    }

    /// Whether the entity with this identity is in the second interest
    /// set.
    pub fn second_has(&self, id: u64) -> (r: bool)
        ensures
            r == self.in_b(id),
    {
        self.interested_b.contains(id)
    }

    /// Wraps `inner`, with `aspect_a` guarding the first interest set and
    /// `aspect_b` the second.
    pub fn new(inner: T, aspect_a: Aspect<T::Components>, aspect_b: Aspect<T::Components>) -> (r:
        InteractSystem<T>)
        ensures
            r.wf(),
            r.interest_a() =~= Seq::<IndexedEntity<T::Components>>::empty(),
            r.interest_b() =~= Seq::<IndexedEntity<T::Components>>::empty(),
            r.aspect_a_spec() == aspect_a,
            r.aspect_b_spec() == aspect_b,
            r.inner_spec() == inner,
    {
        InteractSystem {
            interested_a: InterestSet::empty(),
            interested_b: InterestSet::empty(),
            aspect_a,
            aspect_b,
            inner,
        }
    }
}

impl<T: InteractProcess> System for InteractSystem<T> {
    type Components = T::Components;

    type Services = T::Services;

    /// A freshly built entity enters each set whose aspect it matches; the
    /// inner system hears `activated` once per set entered.
    fn activated(
        &mut self,
        e: &EntityData<'_, T::Components>,
        c: &T::Components,
        s: &mut T::Services,
    )
        ensures
            final(self).aspect_a_spec() == old(self).aspect_a_spec(),
            final(self).aspect_b_spec() == old(self).aspect_b_spec(),
            old(self).wf() ==> final(self).wf(),
            final(self).in_a(e.target().ident()@) == (old(self).in_a(e.target().ident()@) || old(self).aspect_a_spec().matches(*c, e.target().dense_index())),
            final(self).in_b(e.target().ident()@) == (old(self).in_b(e.target().ident()@) || old(self).aspect_b_spec().matches(*c, e.target().dense_index())),
            forall|id: u64|
                id != e.target().ident()@ ==> final(self).in_a(id) == old(self).in_a(id) && final(self).in_b(id) == old(self).in_b(id),
    {
        if self.aspect_a.check(e, c) {
            self.interested_a.insert(e.edit_entity());
            self.inner.activated(e, c, s);
        }
        if self.aspect_b.check(e, c) {
            self.interested_b.insert(e.edit_entity());
            self.inner.activated(e, c, s);
        }
    }

    /// Interest-set convergence for both sets at once: after a reactivation
    /// notification the entity is in each set exactly when its component
    /// shape matches that set's aspect right now.
    fn reactivated(
        &mut self,
        e: &EntityData<'_, T::Components>,
        c: &T::Components,
        s: &mut T::Services,
    )
        ensures
            final(self).aspect_a_spec() == old(self).aspect_a_spec(),
            final(self).aspect_b_spec() == old(self).aspect_b_spec(),
            old(self).wf() ==> final(self).wf(),
            final(self).in_a(e.target().ident()@) == old(self).aspect_a_spec().matches(
                *c,
                e.target().dense_index(),
            ),
            final(self).in_b(e.target().ident()@) == old(self).aspect_b_spec().matches(
                *c,
                e.target().dense_index(),
            ),
            forall|id: u64|
                id != e.target().ident()@ ==> final(self).in_a(id) == old(self).in_a(id) && final(self).in_b(id) == old(self).in_b(id),
    {
        let eid = e.edit_entity().entity().id();
        if self.interested_a.contains(eid) {
            if self.aspect_a.check(e, c) {
                self.inner.reactivated(e, c, s);
            } else {
                self.interested_a.remove(eid);
                self.inner.deactivated(e, c, s);
            }
        } else {
            if self.aspect_a.check(e, c) {
                self.interested_a.insert(e.edit_entity());
                self.inner.activated(e, c, s);
            }
        }
        if self.interested_b.contains(eid) {
            if self.aspect_b.check(e, c) {
                self.inner.reactivated(e, c, s);
            } else {
                self.interested_b.remove(eid);
                self.inner.deactivated(e, c, s);
            }
        } else {
            if self.aspect_b.check(e, c) {
                self.interested_b.insert(e.edit_entity());
                self.inner.activated(e, c, s);
            }
        }
    }

    /// A removed entity leaves both interest sets; the inner system hears
    /// `deactivated` once per set it was in.
    fn deactivated(
        &mut self,
        e: &EntityData<'_, T::Components>,
        c: &T::Components,
        s: &mut T::Services,
    )
        ensures
            final(self).aspect_a_spec() == old(self).aspect_a_spec(),
            final(self).aspect_b_spec() == old(self).aspect_b_spec(),
            old(self).wf() ==> final(self).wf(),
            !final(self).in_a(e.target().ident()@),
            !final(self).in_b(e.target().ident()@),
            forall|id: u64|
                id != e.target().ident()@ ==> final(self).in_a(id) == old(self).in_a(id) && final(self).in_b(id) == old(self).in_b(id),
    {
        let eid = e.edit_entity().entity().id();
        if self.interested_a.contains(eid) {
            self.interested_a.remove(eid);
            self.inner.deactivated(e, c, s);
        }
        if self.interested_b.contains(eid) {
            self.interested_b.remove(eid);
            self.inner.deactivated(e, c, s);
        }
    }

    fn is_active(&self) -> bool {
        self.inner.is_active()
    }
}

impl<T: InteractProcess> Process for InteractSystem<T> {
    /// Hands the inner system one walk per interest set, each in the order
    /// entities entered it.
    fn process(&mut self, data: &mut DataHelper<T::Components, T::Services>)
        ensures
            final(self).interest_a() == old(self).interest_a(),
            final(self).interest_b() == old(self).interest_b(),
            final(self).aspect_a_spec() == old(self).aspect_a_spec(),
            final(self).aspect_b_spec() == old(self).aspect_b_spec(),
    {
        let first = self.interested_a.collect();
        let second = self.interested_b.collect();
        self.inner.process(
            EntityIter::from_items(first),
            EntityIter::from_items(second),
            data,
        );
    }
}

} // verus!
