//! The system capability contracts and the reusable wrappers that keep
//! per-system interest sets in step with entity lifecycles.

use vstd::prelude::*;

use crate::world::{ComponentManager, DataHelper, ServiceManager};
use crate::EntityData;

pub mod entity;
pub mod interact;
pub mod interval;

verus! {

/// The capability contract every system implements: lifecycle notifications
/// carrying an entity view, read-only component storage, and mutable
/// services, plus the flag that tells the orchestrator whether to tick it.
/// The default notifications do nothing and the default system is active.
pub trait System: Sized {
    type Components: ComponentManager;
    type Services: ServiceManager;

    /// An entity was built and settled at a flush point.
    fn activated(
        &mut self,
        _e: &EntityData<'_, Self::Components>,
        _c: &Self::Components,
        _s: &mut Self::Services,
    ) {
    }

    /// An entity's components changed.
    fn reactivated(
        &mut self,
        _e: &EntityData<'_, Self::Components>,
        _c: &Self::Components,
        _s: &mut Self::Services,
    ) {
    }

    /// An entity is being removed; its components are still present.
    fn deactivated(
        &mut self,
        _e: &EntityData<'_, Self::Components>,
        _c: &Self::Components,
        _s: &mut Self::Services,
    ) {
    }

    /// Whether the orchestrator should tick this system.
    fn is_active(&self) -> bool {
        true
    }
}

/// The capability of being ticked: a processing step over the shared data.
/// Processing may create or remove entities through the data's own
/// primitives, which keep the data well formed.
pub trait Process: System {
    /// One processing step of the system.
    fn process(&mut self, data: &mut DataHelper<Self::Components, Self::Services>)
        ensures
            old(data).wf() ==> final(data).wf(),
    ;
}

/// Whether some entry of an interest list carries this identity.
pub open spec fn holds_id<C>(s: Seq<crate::entity::IndexedEntity<C>>, id: u64) -> bool {
    exists|k: int| 0 <= k < s.len() && (#[trigger] s[k]).ident()@ == id
}

/// Whether the entries of an interest list carry pairwise distinct
/// identities.
pub open spec fn distinct_ids<C>(s: Seq<crate::entity::IndexedEntity<C>>) -> bool {
    forall|k1: int, k2: int|
        #![trigger s[k1], s[k2]]
        0 <= k1 < k2 < s.len() ==> s[k1].ident()@ != s[k2].ident()@
}

/// An insertion-ordered collection of indexed entities keyed by identity;
/// the store behind every wrapper's interest set.
pub(crate) struct InterestSet<C> {
    items: Vec<crate::entity::IndexedEntity<C>>,
}

impl<C> InterestSet<C> {
    /// The entries, in the order they entered.
    pub closed spec fn list(&self) -> Seq<crate::entity::IndexedEntity<C>> {
        self.items@
    }

    /// No identity is held twice.
    pub open spec fn wf(&self) -> bool {
        distinct_ids(self.list())
    }

    pub(crate) fn empty() -> (r: InterestSet<C>)
        ensures
            r.list() =~= Seq::<crate::entity::IndexedEntity<C>>::empty(),
            r.wf(),
    {
        InterestSet { items: Vec::new() }
    }

    /// The position of the identity, if some entry carries it.
    pub(crate) fn position_of(&self, id: u64) -> (r: Option<usize>)
        ensures
            match r {
                Some(k) => k < self.list().len() && self.list()[k as int].ident()@ == id,
                None => !holds_id(self.list(), id),
            },
    {
        let mut k: usize = 0;
        while k < self.items.len()
            invariant
                k <= self.list().len(),
                forall|j: int| 0 <= j < k ==> (#[trigger] self.list()[j]).ident()@ != id,
            decreases self.list().len() - k,
        {
            if self.items[k].entity().id() == id {
                return Some(k);
            }
            k += 1;
        }
        None
    }

    /// Whether some entry carries this identity.
    pub(crate) fn contains(&self, id: u64) -> (r: bool)
        ensures
            r == holds_id(self.list(), id),
    {
        self.position_of(id).is_some()
    }

    /// Adds the entity unless its identity is already held.
    pub(crate) fn insert(&mut self, ie: &crate::entity::IndexedEntity<C>)
        ensures
            holds_id(final(self).list(), ie.ident()@),
            forall|id: u64|
                id != ie.ident()@ ==> holds_id(final(self).list(), id) == holds_id(
                    old(self).list(),
                    id,
                ),
            old(self).wf() ==> final(self).wf(),
    {
        match self.position_of(ie.entity().id()) {
            Some(_) => {
            },
            None => {
                self.items.push(ie.__clone());
                proof {
                    let s0 = old(self).list();
                    let s1 = self.list();
                    assert(s1 =~= s0.push(*ie));
                    assert(s1[s0.len() as int].ident()@ == ie.ident()@);
                    assert forall|id: u64|
                        id != ie.ident()@ implies holds_id(s1, id) == holds_id(s0, id) by {
                        if holds_id(s1, id) {
                            let k = choose|k: int| 0 <= k < s1.len() && s1[k].ident()@ == id;
                            assert(k < s0.len() && s0[k].ident()@ == id);
                        }
                        if holds_id(s0, id) {
                            let k = choose|k: int| 0 <= k < s0.len() && s0[k].ident()@ == id;
                            assert(s1[k].ident()@ == id);
                        }
                    }
                }
            },
        }
    }

    /// Drops every entry carrying this identity.
    pub(crate) fn remove(&mut self, id: u64)
        ensures
            !holds_id(final(self).list(), id),
            forall|id2: u64|
                id2 != id ==> holds_id(final(self).list(), id2) == holds_id(old(self).list(), id2),
            old(self).wf() ==> final(self).wf(),
    {
        let ghost s0 = self.items@;
        let mut kept: Vec<crate::entity::IndexedEntity<C>> = Vec::new();
        let mut k: usize = 0;
        while k < self.items.len()
            invariant
                self.items@ == s0,
                k <= s0.len(),
                !holds_id(kept@, id),
                forall|id2: u64|
                    id2 != id ==> holds_id(kept@, id2) == holds_id(s0.take(k as int), id2),
                distinct_ids(s0) ==> distinct_ids(kept@),
                forall|j: int|
                    0 <= j < kept@.len() ==> exists|j2: int|
                        0 <= j2 < s0.len() && (#[trigger] kept@[j]) == s0[j2],
            decreases s0.len() - k,
        {
            let ghost kept0 = kept@;
            let keep_it = self.items[k].entity().id() != id;
            if keep_it {
                kept.push(self.items[k].__clone());
            }
            proof {
                let stepped = s0.take(k + 1);
                assert(stepped =~= s0.take(k as int).push(s0[k as int]));
                assert forall|id2: u64|
                    id2 != id implies holds_id(kept@, id2) == holds_id(stepped, id2) by {
                    if holds_id(kept@, id2) {
                        let j = choose|j: int| 0 <= j < kept@.len() && kept@[j].ident()@ == id2;
                        if j < kept0.len() {
                            assert(holds_id(kept0, id2));
                            let w = choose|w: int|
                                0 <= w < s0.take(k as int).len() && s0.take(k as int)[w].ident()@
                                    == id2;
                            assert(stepped[w].ident()@ == id2);
                        } else {
                            assert(kept@[j] == s0[k as int]);
                            assert(stepped[k as int].ident()@ == id2);
                        }
                    }
                    if holds_id(stepped, id2) {
                        let w = choose|w: int| 0 <= w < stepped.len() && stepped[w].ident()@ == id2;
                        if w < k {
                            assert(s0.take(k as int)[w].ident()@ == id2);
                            assert(holds_id(s0.take(k as int), id2));
                            assert(holds_id(kept0, id2));
                            let j = choose|j: int|
                                0 <= j < kept0.len() && kept0[j].ident()@ == id2;
                            assert(kept@[j].ident()@ == id2);
                        } else {
                            assert(stepped[w] == s0[k as int]);
                            if keep_it {
                                assert(kept@[kept0.len() as int].ident()@ == id2);
                            }
                        }
                    }
                }
                if distinct_ids(s0) && keep_it {
                    assert forall|k1: int, k2: int|
                        0 <= k1 < k2 < kept@.len() implies kept@[k1].ident()@
                        != kept@[k2].ident()@ by {
                        if k2 == kept@.len() - 1 && kept@.len() == kept0.len() + 1 {
                            let j1 = choose|j2: int|
                                0 <= j2 < s0.len() && (#[trigger] kept@[k1]) == s0[j2];
                            assert(kept@[k2] == s0[k as int]);
                            let cur = s0[k as int].ident()@;
                            let pref = s0.take(k as int);
                            if kept@[k1].ident()@ == kept@[k2].ident()@ {
                                assert(holds_id(kept0, cur));
                                let w = choose|w: int|
                                    0 <= w < kept0.len() && kept0[w].ident()@ == cur;
                                assert(holds_id(pref, cur));
                                let v = choose|v: int| 0 <= v < pref.len() && pref[v].ident()@
                                    == cur;
                                assert(s0[v].ident()@ == cur && v < k);
                            }
                        }
                    }
                }
            }
            k += 1;
        }
        proof {
            assert(s0.take(s0.len() as int) =~= s0);
        }
        self.items = kept;
    }

    /// A copy of the entries, in order.
    pub(crate) fn collect(&self) -> (r: Vec<crate::entity::IndexedEntity<C>>)
        ensures
            r@ == self.list(),
    {
        let mut items: Vec<crate::entity::IndexedEntity<C>> = Vec::new();
        let mut k: usize = 0;
        while k < self.items.len()
            invariant
                k <= self.list().len(),
                items@ =~= self.list().take(k as int),
            decreases self.list().len() - k,
        {
            items.push(self.items[k].__clone());
            proof {
                assert(items@ =~= self.list().take(k + 1));
            }
            k += 1;
        }
        proof {
            assert(self.list().take(self.list().len() as int) =~= self.list());
        }
        items
    }
}

} // verus!
