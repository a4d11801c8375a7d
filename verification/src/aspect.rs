//! Aspects: predicates over the component shape of an entity.

use core::marker::PhantomData;
use vstd::prelude::*;

use crate::world::ComponentManager;
use crate::{EditData, EntityData};

verus! {

/// An immutable predicate closed over two component-type sets: every type in
/// `all` must be present on the entity, and no type in `none` may be.  An
/// aspect with both sets empty matches every entity.  Aspects are built once
/// at system-registration time and re-evaluated fresh on every check, since
/// component presence changes between checks.
pub struct Aspect<C: ComponentManager> {
    all: Vec<u64>,
    none: Vec<u64>,
    marker: PhantomData<C>,
}

impl<C: ComponentManager> Aspect<C> {
    /// The component types that must all be present.
    pub closed spec fn all_types(&self) -> Seq<u64> {
        self.all@
    }

    /// The component types none of which may be present.
    pub closed spec fn none_types(&self) -> Seq<u64> {
        self.none@
    }

    /// Whether the entity at `index` matches: every `all` type present and
    /// no `none` type present.
    pub open spec fn matches(&self, components: C, index: usize) -> bool {
        &&& forall|t: u64| self.all_types().contains(t) ==> components.spec_has(t, index)
        &&& forall|t: u64| self.none_types().contains(t) ==> !components.spec_has(t, index)
    }

    /// Builds an aspect from its required and forbidden component-type
    /// sets.
    pub fn new(all: Vec<u64>, none: Vec<u64>) -> (r: Aspect<C>)
        ensures
            r.all_types() == all@,
            r.none_types() == none@,
    {
        Aspect { all, none, marker: PhantomData }
    }

    /// The aspect that matches every entity.
    pub fn any() -> (r: Aspect<C>)
        ensures
            r.all_types() =~= Seq::<u64>::empty(),
            r.none_types() =~= Seq::<u64>::empty(),
    {
        Aspect { all: Vec::new(), none: Vec::new(), marker: PhantomData }
    }

    /// A copy of this aspect, sharing its two type sets.
    pub fn duplicate(&self) -> (r: Aspect<C>)
        ensures
            r.all_types() == self.all_types(),
            r.none_types() == self.none_types(),
    {
        let mut all: Vec<u64> = Vec::new();
        let mut none: Vec<u64> = Vec::new();
        let mut i: usize = 0;
        while i < self.all.len()
            invariant
                i <= self.all@.len(),
                all@ =~= self.all@.take(i as int),
            decreases self.all@.len() - i,
        {
            all.push(self.all[i]);
            proof {
                assert(all@ =~= self.all@.take(i + 1));
            }
            i += 1;
        }
        let mut j: usize = 0;
        while j < self.none.len()
            invariant
                j <= self.none@.len(),
                none@ =~= self.none@.take(j as int),
            decreases self.none@.len() - j,
        {
            none.push(self.none[j]);
            proof {
                assert(none@ =~= self.none@.take(j + 1));
            }
            j += 1;
        }
        proof {
            assert(all@ =~= self.all@);
            assert(none@ =~= self.none@);
        }
        Aspect { all, none, marker: PhantomData }
    }

    /// Evaluates the aspect against one entity, short-circuiting on the
    /// first required type absent, then on the first forbidden type
    /// present.
    pub fn check(&self, entity: &EntityData<'_, C>, components: &C) -> (r: bool)
        ensures
            r == self.matches(*components, entity.target().dense_index()),
    {
        let index = entity.edit_entity().index();
        let mut i: usize = 0;
        while i < self.all.len()
            invariant
                i <= self.all@.len(),
                index == entity.target().dense_index(),
                forall|k: int| 0 <= k < i ==> components.spec_has(#[trigger] self.all@[k], index),
            decreases self.all@.len() - i,
        {
            if !components.has_component(self.all[i], index) {
                proof {
                    assert(self.all_types().contains(self.all@[i as int]));
                }
                return false;
            }
            i += 1;
        }
        let mut j: usize = 0;
        while j < self.none.len()
            invariant
                j <= self.none@.len(),
                index == entity.target().dense_index(),
                forall|k: int| 0 <= k < i ==> components.spec_has(#[trigger] self.all@[k], index),
                i == self.all@.len(),
                forall|k: int|
                    0 <= k < j ==> !components.spec_has(#[trigger] self.none@[k], index),
            decreases self.none@.len() - j,
        {
            if components.has_component(self.none[j], index) {
                proof {
                    assert(self.none_types().contains(self.none@[j as int]));
                }
                return false;
            }
            j += 1;
        }
        proof {
            assert forall|t: u64| self.all_types().contains(t) implies components.spec_has(
                t,
                index,
            ) by {
                let k = choose|k: int| 0 <= k < self.all@.len() && self.all@[k] == t;
                assert(components.spec_has(self.all@[k], index));
            }
            assert forall|t: u64| self.none_types().contains(t) implies !components.spec_has(
                t,
                index,
            ) by {
                let k = choose|k: int| 0 <= k < self.none@.len() && self.none@[k] == t;
                assert(!components.spec_has(self.none@[k], index));
            }
        }
        true
    }
}

} // verus!
