//! Entity identifiers, the recycling index pool, and the entity manager.

use core::marker::PhantomData;
use std::collections::HashMap;
use vstd::prelude::*;

use crate::aspect::Aspect;
use crate::serial::{
    begins_with, lemma_slots_enc_parses, lemma_uslots_enc_vals, read_uslots, slots_dec_len,
    slots_dec_ok, slots_enc, u64_le, u64_of_le, uslot_vals, write_slots, SaveData,
};
use crate::world::ComponentManager;
use crate::EntityData;

verus! {

broadcast use vstd::std_specs::hash::group_hash_axioms;

/// The numeric identity of an entity.  Identities are issued by the entity
/// manager, grow monotonically, and are never reused; `0` is reserved for the
/// nil sentinel.
pub type Id = u64;

/// An opaque, copyable entity identifier.  It carries no data; all component
/// data is reached through the dense index that the entity manager assigns.
#[derive(Copy, Clone, Debug, Eq, Hash, PartialEq, Structural)]
pub struct Entity(Id);

impl View for Entity {
    type V = Id;

    closed spec fn view(&self) -> Id {
        self.0
    }
}

impl Entity {
    /// The reserved nil entity, with identity `0`.  No live entity ever
    /// carries this identity.
    pub fn nil() -> (r: Entity)
        ensures
            r@ == 0,
    {
        Entity(0)
    }

    /// Returns the entity's unique identifier.
    pub fn id(&self) -> (r: Id)
        ensures
            r == self@,
    {
        self.0
    }
}

impl Default for Entity {
    fn default() -> (r: Entity)
        ensures
            r@ == 0,
    {
        Entity::nil()
    }
}

/// An entity together with the dense index the pool assigned to it.  The
/// phantom parameter ties the index to one component-storage configuration,
/// so indices from unrelated worlds cannot be mixed at the type level.
/// Indexed entities are owned by the entity manager; everything else only
/// borrows or copies read-only views of them.
pub struct IndexedEntity<T>(usize, Entity, PhantomData<T>);

impl<T> IndexedEntity<T> {
    /// The dense index: the key used for every component storage lookup.
    pub closed spec fn dense_index(&self) -> usize {
        self.0
    }

    /// The entity identity this index belongs to.
    pub closed spec fn ident(&self) -> Entity {
        self.1
    }

    pub(crate) fn make(index: usize, entity: Entity) -> (r: IndexedEntity<T>)
        ensures
            r.dense_index() == index,
            r.ident() == entity,
    {
        IndexedEntity(index, entity, PhantomData)
    }

    /// The dense index assigned by the index pool.
    pub fn index(&self) -> (r: usize)
        ensures
            r == self.dense_index(),
    {
        self.0
    }

    /// The entity identity behind this index.
    pub fn entity(&self) -> (r: &Entity)
        ensures
            *r == self.ident(),
    {
        &self.1
    }

    pub fn __clone(&self) -> (r: IndexedEntity<T>)
        ensures
            r == *self,
    {
        IndexedEntity(self.0, self.1, self.2)
    }
}

/// A restartable walk over the live entities of a manager, in increasing
/// identity order, taken at call time rather than lazily.
pub enum EntityIter<T: ComponentManager> {
    Items { items: Vec<IndexedEntity<T>>, pos: usize },
}

impl<T: ComponentManager> EntityIter<T> {
    /// Every entity the walk will visit, in order.
    pub closed spec fn items_view(&self) -> Seq<IndexedEntity<T>> {
        match self {
            EntityIter::Items { items, .. } => items@,
        }
    }

    /// How many entities have already been handed out.
    pub closed spec fn position(&self) -> usize {
        match self {
            EntityIter::Items { pos, .. } => *pos,
        }
    }

    pub(crate) fn from_items(items: Vec<IndexedEntity<T>>) -> (r: EntityIter<T>)
        ensures
            r.items_view() == items@,
            r.position() == 0,
    {
        EntityIter::Items { items, pos: 0 }
    }

    /// Hands out the next entity of the walk, or nothing once every entity
    /// has been seen.
    pub fn next(&mut self) -> (r: Option<IndexedEntity<T>>)
        ensures
            final(self).items_view() == old(self).items_view(),
            old(self).position() < old(self).items_view().len() ==> {
                &&& r == Some(old(self).items_view()[old(self).position() as int])
                &&& final(self).position() == old(self).position() + 1
            },
            old(self).position() >= old(self).items_view().len() ==> {
                &&& r is None
                &&& final(self).position() == old(self).position()
            },
    {
        match self {
            EntityIter::Items { items, pos } => {
                if *pos < items.len() {
                    let item = items[*pos].__clone();
                    *pos += 1;
                    Some(item)
                } else {
                    None
                }
            },
        }
    }
}

/// A walk over live entities that yields only those matching an aspect,
/// re-checked against the component storage at each step.
pub struct FilteredEntityIter<'a, T: ComponentManager> {
    inner: EntityIter<T>,
    aspect: Aspect<T>,
    components: &'a T,
}

impl<T: ComponentManager> EntityIter<T> {
    /// Restricts the walk to the entities matching `aspect` against the
    /// given component storage.
    pub fn filter<'a>(self, aspect: Aspect<T>, components: &'a T) -> (r: FilteredEntityIter<
        'a,
        T,
    >)
        ensures
            r.items_view() == self.items_view(),
            r.position() == self.position(),
            r.aspect_spec() == aspect,
            r.source() == *components,
    {
        FilteredEntityIter { inner: self, aspect, components }
    }
}

impl<'a, T: ComponentManager> FilteredEntityIter<'a, T> {
    /// Every entity the underlying walk would visit, in order.
    pub closed spec fn items_view(&self) -> Seq<IndexedEntity<T>> {
        self.inner.items_view()
    }

    /// How far the underlying walk has come.
    pub closed spec fn position(&self) -> usize {
        self.inner.position()
    }

    /// The aspect the walk filters with.
    pub closed spec fn aspect_spec(&self) -> Aspect<T> {
        self.aspect
    }

    /// The component storage the aspect is checked against.
    pub closed spec fn source(&self) -> T {
        *self.components
    }

    /// Hands out the next matching entity: skips past every entity that
    /// fails the aspect, and answers nothing once only failing entities
    /// remain.
    pub fn next(&mut self) -> (r: Option<IndexedEntity<T>>)
        ensures
            final(self).items_view() == old(self).items_view(),
            final(self).aspect_spec() == old(self).aspect_spec(),
            final(self).source() == old(self).source(),
            match r {
                Some(ie) => {
                    let k = final(self).position() - 1;
                    &&& old(self).position() <= k < old(self).items_view().len()
                    &&& ie == old(self).items_view()[k as int]
                    &&& old(self).aspect_spec().matches(old(self).source(), ie.dense_index())
                    &&& forall|j: int|
                        old(self).position() <= j < k ==> !old(self).aspect_spec().matches(
                            old(self).source(),
                            (#[trigger] old(self).items_view()[j]).dense_index(),
                        )
                },
                None => {
                    &&& final(self).position() >= old(self).items_view().len()
                    &&& forall|j: int|
                        old(self).position() <= j < old(self).items_view().len() ==> !old(
                            self,
                        ).aspect_spec().matches(
                            old(self).source(),
                            (#[trigger] old(self).items_view()[j]).dense_index(),
                        )
                },
            },
    {
        let ghost items = self.inner.items_view();
        let ghost p0 = self.inner.position();
        loop
            invariant
                self.inner.items_view() == items,
                self.aspect == old(self).aspect_spec(),
                self.components == old(self).components,
                p0 == old(self).position(),
                items == old(self).items_view(),
                p0 <= self.inner.position(),
                self.inner.position() <= items.len() || self.inner.position() == p0,
                forall|j: int|
                    p0 <= j < self.inner.position() && j < items.len() ==> !self.aspect.matches(
                        *self.components,
                        (#[trigger] items[j]).dense_index(),
                    ),
            decreases items.len() - self.inner.position(),
        {
            match self.inner.next() {
                Some(ie) => {
                    let ed = EntityData::make(&ie);
                    if self.aspect.check(&ed, self.components) {
                        return Some(ie);
                    }
                },
                None => {
                    return None;
                },
            }
        }
    }
}

/// Issues entity identities, maps each live entity to its dense index, and
/// recycles indices through the pool when entities are removed.  Identities
/// are never reused; indices are.
pub struct EntityManager<T: ComponentManager> {
    indices: IndexPool,
    entities: HashMap<u64, IndexedEntity<T>>,
    next_id: u64,
}

impl<T: ComponentManager> EntityManager<T> {
    /// The live entities: a map from identity to indexed entity.
    pub closed spec fn table(&self) -> Map<u64, IndexedEntity<T>> {
        self.entities@
    }

    /// The index pool the manager draws dense indices from.
    pub closed spec fn pool(&self) -> IndexPool {
        self.indices
    }

    /// The identity counter: the identity most recently issued.
    pub closed spec fn counter(&self) -> u64 {
        self.next_id
    }

    /// Whether the entity with this identity is live.
    pub open spec fn valid_view(&self, id: u64) -> bool {
        self.table().contains_key(id)
    }

    /// The dense index of a live entity.
    pub open spec fn index_of(&self, id: u64) -> usize {
        self.table()[id].dense_index()
    }

    /// The manager's invariant: identities are positive and bounded by the
    /// counter, each mapping entry agrees with its key, every assigned index
    /// is live in the pool, no two live entities share an index, and the
    /// number of live entities matches the pool's live count.
    pub open spec fn wf(&self) -> bool {
        &&& self.pool().wf()
        &&& self.table().dom().finite()
        &&& forall|id: u64| #[trigger]
            self.table().contains_key(id) ==> 1 <= id <= self.counter()
        &&& forall|id: u64| #[trigger]
            self.table().contains_key(id) ==> self.table()[id].ident()@ == id
        &&& forall|id: u64| #[trigger]
            self.table().contains_key(id) ==> self.pool().is_live(self.table()[id].dense_index())
        &&& forall|a: u64, b: u64|
            self.table().contains_key(a) && self.table().contains_key(b) && a != b
                ==> #[trigger] self.table()[a].dense_index() != #[trigger] self.table()[b].dense_index()
        &&& self.table().dom().len() == self.pool().live_count()
    }

    /// Whether another entity can be created without the identity counter or
    /// the index pool's high-water mark overflowing.
    pub open spec fn can_create(&self) -> bool {
        self.counter() < u64::MAX && self.pool().can_acquire()
    }

    /// Returns a new manager with no live entities.
    pub fn new() -> (r: EntityManager<T>)
        ensures
            r.wf(),
            r.table() =~= Map::<u64, IndexedEntity<T>>::empty(),
            r.counter() == 0,
            r.pool().recycled_view() =~= Seq::<usize>::empty(),
            r.pool().mark() == 0,
    {
        let r = EntityManager {
            indices: IndexPool::new(),
            entities: HashMap::new(),
            next_id: 0,
        };
        proof {
            assert(r.table().dom() =~= Set::<u64>::empty());
        }
        r
    }

    /// A walk over the live entities, in increasing identity order.
    pub fn iter(&self) -> (r: EntityIter<T>)
        requires
            self.wf(),
        ensures
            r.position() == 0,
            self.lists_live(r.items_view()),
    {
        EntityIter::from_items(self.live_list())
    }

    /// The live entities as a vector, in increasing identity order.
    pub(crate) fn live_list(&self) -> (r: Vec<IndexedEntity<T>>)
        requires
            self.wf(),
        ensures
            self.lists_live(r@),
    {
        let mut items: Vec<IndexedEntity<T>> = Vec::new();
        let mut id: u64 = 0;
        while id < self.next_id
            invariant
                self.wf(),
                id <= self.next_id,
                forall|k: int|
                    #![trigger items@[k]]
                    0 <= k < items@.len() ==> {
                        &&& self.table().contains_key(items@[k].ident()@)
                        &&& items@[k] == self.table()[items@[k].ident()@]
                        &&& 1 <= items@[k].ident()@ <= id
                    },
                forall|k1: int, k2: int|
                    0 <= k1 < k2 < items@.len() ==> items@[k1].ident()@ < items@[k2].ident()@,
                forall|e: u64|
                    #[trigger] self.table().contains_key(e) && e <= id ==> exists|k: int|
                        0 <= k < items@.len() && items@[k].ident()@ == e,
            decreases self.next_id - id,
        {
            let lookup: u64 = id + 1;
            let ghost prev = items@;
            match self.entities.get(&lookup) {
                Some(ie) => {
                    items.push(ie.__clone());
                },
                None => {},
            }
            proof {
                if self.table().contains_key(lookup) {
                    assert(items@ =~= prev.push(self.table()[lookup]));
                    assert(forall|k: int| 0 <= k < prev.len() ==> items@[k] == prev[k]);
                    assert(items@[prev.len() as int].ident()@ == lookup);
                } else {
                    assert(items@ =~= prev);
                }
                assert forall|k1: int, k2: int|
                    0 <= k1 < k2 < items@.len() implies items@[k1].ident()@
                    < items@[k2].ident()@ by {
                    if k2 < prev.len() {
                        assert(items@[k1] == prev[k1] && items@[k2] == prev[k2]);
                    } else {
                        assert(items@[k1] == prev[k1]);
                        assert(prev[k1].ident()@ <= id);
                        assert(items@[k2].ident()@ == lookup);
                    }
                }
                assert forall|e: u64|
                    #[trigger] self.table().contains_key(e) && e <= lookup implies exists|k: int|
                    0 <= k < items@.len() && items@[k].ident()@ == e by {
                    if e == lookup && self.table().contains_key(lookup) {
                        assert(items@[prev.len() as int].ident()@ == e);
                    } else {
                        assert(e <= id);
                        let k = choose|k: int| 0 <= k < prev.len() && prev[k].ident()@ == e;
                        assert(items@[k].ident()@ == e);
                    }
                }
            }
            id = lookup;
        }
        items
    }

    /// What `iter` promises of the sequence it walks: exactly the live
    /// entities, each carrying its mapping entry, in increasing identity
    /// order.
    pub open spec fn lists_live(&self, s: Seq<IndexedEntity<T>>) -> bool {
        &&& forall|k: int|
            #![trigger s[k]]
            0 <= k < s.len() ==> {
                &&& self.table().contains_key(s[k].ident()@)
                &&& s[k] == self.table()[s[k].ident()@]
            }
        &&& forall|k1: int, k2: int| 0 <= k1 < k2 < s.len() ==> s[k1].ident()@ < s[k2].ident()@
        &&& forall|id: u64| #[trigger]
            self.table().contains_key(id) ==> exists|k: int| 0 <= k < s.len() && s[k].ident()@
                == id
    }

    /// The number of live entities.
    pub fn count(&self) -> (r: usize)
        requires
            self.wf(),
        ensures
            r == self.table().dom().len(),
    {
        self.indices.count()
    }

    /// The indexed entity behind a live identity.  Callers establish
    /// validity first (or hold an entity from a live walk); asking for a
    /// removed entity is a caller contract violation.
    pub fn indexed(&self, entity: &Entity) -> (r: &IndexedEntity<T>)
        requires
            self.wf(),
            self.valid_view(entity@),
        ensures
            *r == self.table()[entity@],
    {
        self.entities.get(&entity.id()).unwrap()
    }

    /// Creates a new entity: issues the next identity and assigns it the
    /// first available index.
    pub fn create(&mut self) -> (r: Entity)
        requires
            old(self).wf(),
            old(self).can_create(),
        ensures
            final(self).wf(),
            r@ == old(self).counter() + 1,
            final(self).counter() == r@,
            !old(self).valid_view(r@),
            final(self).valid_view(r@),
            forall|id: u64|
                id != r@ ==> final(self).table().contains_key(id) == old(
                    self,
                ).table().contains_key(id),
            forall|id: u64|
                id != r@ && old(self).table().contains_key(id) ==> final(self).table()[id] == old(
                    self,
                ).table()[id],
            final(self).table()[r@].ident() == r,
            final(self).index_of(r@) == old(self).pool().next_choice(),
            !old(self).pool().is_live(final(self).index_of(r@)),
            forall|i: usize|
                i != final(self).index_of(r@) ==> final(self).pool().is_live(i) == old(
                    self,
                ).pool().is_live(i),
    {
        self.next_id += 1;
        let ret = Entity(self.next_id);
        let idx = self.indices.get_index();
        self.entities.insert(ret.id(), IndexedEntity::make(idx, ret));
        proof {
            assert(self.table().dom() =~= old(self).table().dom().insert(ret@));
            assert(!old(self).table().dom().contains(ret@));
        }
        ret
    }

    /// Returns true if an entity is live (not removed from the manager).
    pub fn is_valid(&self, entity: &Entity) -> (r: bool)
        ensures
            r == self.valid_view(entity@),
    {
        self.entities.contains_key(&entity.id())
    }

    /// Removes an entity from the manager and returns its index to the
    /// pool.  A no-op if the entity is no longer live.
    pub fn remove(&mut self, entity: &Entity)
        requires
            old(self).wf(),
        ensures
            final(self).wf(),
            final(self).counter() == old(self).counter(),
            !final(self).valid_view(entity@),
            final(self).table() == old(self).table().remove(entity@),
            old(self).valid_view(entity@) ==> {
                &&& !final(self).pool().is_live(old(self).index_of(entity@))
                &&& forall|i: usize|
                    i != old(self).index_of(entity@) ==> final(self).pool().is_live(i) == old(
                        self,
                    ).pool().is_live(i)
            },
            !old(self).valid_view(entity@) ==> final(self).pool() == old(self).pool(),
    {
        match self.entities.remove(&entity.id()) {
            Some(e) => {
                proof {
                    assert(self.table().dom() =~= old(self).table().dom().remove(entity@));
                }
                self.indices.return_id(e.index());
            },
            None => {
                proof {
                    assert(self.table() =~= old(self).table().remove(entity@));
                }
            },
        }
    }
}

/// A stack of recycled dense indices plus a high-water mark.  An index below
/// the mark is either live (held by exactly one entity) or waiting on the
/// recycle stack, never both; allocation prefers recycled indices (newest
/// first) over growing the mark.
pub struct IndexPool {
    recycled: Vec<usize>,
    next_index: usize,
}

impl IndexPool {
    /// The indices currently waiting for reuse, oldest first.
    pub closed spec fn recycled_view(&self) -> Seq<usize> {
        self.recycled@
    }

    /// The high-water mark: every index ever handed out is below it.
    pub closed spec fn mark(&self) -> usize {
        self.next_index
    }

    /// An index is live when it has been handed out and not released.
    pub open spec fn is_live(&self, i: usize) -> bool {
        i < self.mark() && !self.recycled_view().contains(i)
    }

    /// How many indices are currently live.
    pub open spec fn live_count(&self) -> int {
        self.mark() - self.recycled_view().len()
    }

    /// Every recycled index is below the mark, and none is recycled twice.
    pub open spec fn wf(&self) -> bool {
        &&& self.recycled_view().no_duplicates()
        &&& forall|k: int|
            0 <= k < self.recycled_view().len() ==> self.recycled_view()[k] < self.mark()
    }

    /// The index that the next `get_index` call will hand out.
    pub open spec fn next_choice(&self) -> usize {
        if self.recycled_view().len() > 0 {
            self.recycled_view().last()
        } else {
            self.mark()
        }
    }

    /// Whether another index can be handed out without the mark overflowing.
    pub open spec fn can_acquire(&self) -> bool {
        self.recycled_view().len() > 0 || self.mark() < usize::MAX
    }

    pub fn new() -> (r: IndexPool)
        ensures
            r.recycled_view() =~= Seq::<usize>::empty(),
            r.mark() == 0,
            r.wf(),
    {
        IndexPool { recycled: Vec::new(), next_index: 0 }
    }

    /// The number of live indices: the high-water mark less the recycled.
    pub fn count(&self) -> (r: usize)
        requires
            self.wf(),
        ensures
            r == self.live_count(),
    {
        proof {
            lemma_distinct_bounded_len(self.recycled_view(), self.mark());
        }
        self.next_index - self.recycled.len()
    }

    /// Whether an index is currently live: below the mark and not waiting
    /// on the recycle stack.
    pub fn check_live(&self, i: usize) -> (r: bool)
        ensures
            r == self.is_live(i),
    {
        if i >= self.next_index {
            return false;
        }
        let mut k: usize = 0;
        while k < self.recycled.len()
            invariant
                k <= self.recycled_view().len(),
                forall|j: int| 0 <= j < k ==> (#[trigger] self.recycled_view()[j]) != i,
            decreases self.recycled_view().len() - k,
        {
            if self.recycled[k] == i {
                return false;
            }
            k += 1;
        }
        true
    }

    /// Hands out an index that is live nowhere else: the most recently
    /// recycled index if one waits, else the previous high-water mark.
    pub fn get_index(&mut self) -> (r: usize)
        requires
            old(self).wf(),
            old(self).can_acquire(),
        ensures
            final(self).wf(),
            r == old(self).next_choice(),
            !old(self).is_live(r),
            final(self).is_live(r),
            forall|i: usize| i != r ==> final(self).is_live(i) == old(self).is_live(i),
            final(self).live_count() == old(self).live_count() + 1,
            final(self).mark() == if old(self).recycled_view().len() > 0 {
                old(self).mark()
            } else {
                (old(self).mark() + 1) as usize
            },
            final(self).recycled_view() == if old(self).recycled_view().len() > 0 {
                old(self).recycled_view().drop_last()
            } else {
                old(self).recycled_view()
            },
    {
        match self.recycled.pop() {
            Some(id) => {
                proof {
                    let s0 = old(self).recycled_view();
                    let s1 = self.recycled@;
                    assert(s0.last() == id);
                    assert forall|x: usize| x != id && #[trigger] s0.contains(x) implies s1.contains(
                        x,
                    ) by {
                        let k = choose|k: int| 0 <= k < s0.len() && s0[k] == x;
                        assert(k < s0.len() - 1);
                        assert(s1[k] == x);
                    }
                    assert forall|x: usize| #[trigger] s1.contains(x) implies s0.contains(x) by {
                        let k = choose|k: int| 0 <= k < s1.len() && s1[k] == x;
                        assert(s0[k] == x);
                    }
                    assert(!s1.contains(id)) by {
                        if s1.contains(id) {
                            let k = choose|k: int| 0 <= k < s1.len() && s1[k] == id;
                            assert(s0[k] == id);
                            assert(s0[s0.len() - 1] == id);
                        }
                    }
                }
                id
            },
            None => {
                self.next_index += 1;
                self.next_index - 1
            },
        }
    }

    /// Returns a live index to the recycle stack.  The caller guarantees the
    /// index is live: releasing an index twice would let two entities share
    /// it later, which is a caller contract violation, not a recoverable
    /// state.
    pub fn return_id(&mut self, id: usize)
        requires
            old(self).wf(),
            old(self).is_live(id),
        ensures
            final(self).wf(),
            final(self).recycled_view() == old(self).recycled_view().push(id),
            final(self).mark() == old(self).mark(),
            !final(self).is_live(id),
            forall|i: usize| i != id ==> final(self).is_live(i) == old(self).is_live(i),
            final(self).live_count() == old(self).live_count() - 1,
    {
        proof {
            assert(old(self).recycled_view().push(id).no_duplicates());
        }
        self.recycled.push(id);
        proof {
            let s0 = old(self).recycled_view();
            let s1 = self.recycled@;
            assert forall|x: usize| #[trigger] s1.contains(x) implies (s0.contains(x) || x
                == id) by {
                let k = choose|k: int| 0 <= k < s1.len() && s1[k] == x;
                if k < s0.len() {
                    assert(s0[k] == x);
                }
            }
            assert forall|x: usize| s0.contains(x) implies s1.contains(x) by {
                let k = choose|k: int| 0 <= k < s0.len() && s0[k] == x;
                assert(s1[k] == x);
            }
            assert(s1.contains(id)) by {
                assert(s1[s0.len() as int] == id);
            }
        }
    }
}

/// A sequence of distinct values all below a bound can be no longer than the
/// bound: each value names a different slot below it.
pub proof fn lemma_distinct_bounded_len(s: Seq<usize>, bound: usize)
    requires
        s.no_duplicates(),
        forall|k: int| 0 <= k < s.len() ==> s[k] < bound,
    ensures
        s.len() <= bound,
{
    let ints = s.map_values(|x: usize| x as int);
    assert(forall|k: int, j: int|
        0 <= k < s.len() && 0 <= j < s.len() && k != j ==> s[k] != s[j] ==> ints[k] != ints[j]);
    assert(ints.no_duplicates()) by {
        assert(forall|k: int, j: int|
            0 <= k < ints.len() && 0 <= j < ints.len() && k != j ==> ints[k] != ints[j]);
    }
    ints.unique_seq_to_set();
    assert(ints.to_set().subset_of(vstd::set_lib::set_int_range(0, bound as int))) by {
        assert(forall|x: int| ints.to_set().contains(x) ==> 0 <= x < bound);
    }
    vstd::set_lib::lemma_int_range(0, bound as int);
    vstd::set_lib::lemma_len_subset(
        ints.to_set(),
        vstd::set_lib::set_int_range(0, bound as int),
    );
}


/// A plain list wrapped as all-present slots, for the shared slot codec.
pub open spec fn some_slots(s: Seq<usize>) -> Seq<Option<usize>> {
    Seq::new(s.len(), |k: int| Some(s[k]))
}

/// Whether every slot is present.
pub open spec fn all_present(s: Seq<Option<usize>>) -> bool {
    forall|j: int| 0 <= j < s.len() ==> (#[trigger] s[j]) is Some
}

/// The values of an all-present slot list.
pub open spec fn present_vals(s: Seq<Option<usize>>) -> Seq<usize> {
    s.map_values(|o: Option<usize>| o->0)
}

/// How many slots are present.
pub open spec fn count_present(s: Seq<Option<usize>>) -> int
    decreases s.len(),
{
    if s.len() == 0 {
        0
    } else {
        (if s[0] is Some {
            1int
        } else {
            0int
        }) + count_present(s.drop_first())
    }
}

/// Counting distributes over taking one more slot.
pub proof fn lemma_count_present_step(s: Seq<Option<usize>>, i: int)
    requires
        0 <= i < s.len(),
    ensures
        count_present(s.take(i + 1)) == count_present(s.take(i)) + (if s[i] is Some {
            1int
        } else {
            0int
        }),
    decreases i,
{
    let a = s.take(i + 1);
    let b = s.take(i);
    if i == 0 {
        assert(a =~= seq![s[0]]);
        assert(b =~= Seq::<Option<usize>>::empty());
        assert(a.drop_first() =~= Seq::<Option<usize>>::empty());
    } else {
        let sd = s.drop_first();
        lemma_count_present_step(sd, i - 1);
        assert(a.drop_first() =~= sd.take(i));
        assert(b.drop_first() =~= sd.take(i - 1));
        assert(a[0] == s[0] && b[0] == s[0]);
        assert(sd[i - 1] == s[i]);
    }
}

/// The recycled indices held in an index pool's wire image.
pub open spec fn pool_rec_of(data: Seq<u8>) -> Seq<usize> {
    present_vals(uslot_vals(data.skip(8), u64_of_le(data) as int))
}

/// The high-water mark held in an index pool's wire image.
pub open spec fn pool_mark_of(data: Seq<u8>) -> usize {
    u64_of_le(
        data.skip(8 + slots_dec_len::<usize>(data.skip(8), u64_of_le(data) as int)),
    ) as usize
}

impl SaveData for Entity {
    open spec fn savable(&self) -> bool {
        true
    }

    open spec fn enc(&self) -> Seq<u8> {
        u64_le(self@)
    }

    open spec fn same(a: &Entity, b: &Entity) -> bool {
        a@ == b@
    }

    open spec fn dec_ok(data: Seq<u8>) -> bool {
        u64::dec_ok(data)
    }

    open spec fn dec_len(data: Seq<u8>) -> int {
        8
    }

    proof fn lemma_enc_parses(&self, rest: Seq<u8>)
    {
    }

    proof fn lemma_dec_len_bounds(data: Seq<u8>)
    {
    }

    fn write_data(&self, out: &mut Vec<u8>)
    {
        self.id().write_data(out);
    }

    fn read_data(data: &Vec<u8>, pos: &mut usize) -> (r: Option<Entity>)
    {
        let ghost tail = data@.skip(*old(pos) as int);
        match u64::read_data(data, pos) {
            Some(v) => {
                proof {
                    assert forall|x: Entity|
                        x.savable() && begins_with(tail, (#[trigger] x.enc())) implies v
                        == x@ by {
                        crate::serial::lemma_u64_of_le_prefix(tail, x.enc());
                        crate::serial::lemma_u64_le_round_trip(x@);
                    }
                }
                Some(Entity(v))
            },
            None => None,
        }
    }
}

impl<T: ComponentManager> SaveData for IndexedEntity<T> {
    open spec fn savable(&self) -> bool {
        true
    }

    open spec fn enc(&self) -> Seq<u8> {
        u64_le(self.dense_index() as u64) + u64_le(self.ident()@)
    }

    open spec fn same(a: &IndexedEntity<T>, b: &IndexedEntity<T>) -> bool {
        a.dense_index() == b.dense_index() && a.ident() == b.ident()
    }

    open spec fn dec_ok(data: Seq<u8>) -> bool {
        usize::dec_ok(data) && u64::dec_ok(data.skip(8))
    }

    open spec fn dec_len(data: Seq<u8>) -> int {
        16
    }

    proof fn lemma_enc_parses(&self, rest: Seq<u8>)
    {
        let a = u64_le(self.dense_index() as u64);
        let b = u64_le(self.ident()@);
        let whole = self.enc() + rest;
        assert(whole =~= a + (b + rest));
        assert(forall|k: int| 0 <= k < 8 ==> whole[k] == a[k]);
        crate::serial::lemma_u64_le_round_trip(self.dense_index() as u64);
        assert(u64_of_le(whole) == u64_of_le(a));
        assert(whole.skip(8) =~= b + rest);
    }

    proof fn lemma_dec_len_bounds(data: Seq<u8>)
    {
    }

    fn write_data(&self, out: &mut Vec<u8>)
    {
        self.index().write_data(out);
        self.entity().id().write_data(out);
        proof {
            assert(final(out)@ =~= old(out)@ + self.enc());
        }
    }

    fn read_data(data: &Vec<u8>, pos: &mut usize) -> (r: Option<IndexedEntity<T>>)
    {
        let start = *pos;
        let ghost tail = data@.skip(start as int);
        let ix = match usize::read_data(data, pos) {
            Some(ix) => ix,
            None => {
                return None;
            },
        };
        proof {
            assert(data@.skip(*pos as int) =~= tail.skip(8));
        }
        let id = match u64::read_data(data, pos) {
            Some(id) => id,
            None => {
                *pos = start;
                return None;
            },
        };
        let r = IndexedEntity(ix, Entity(id), PhantomData);
        proof {
            assert forall|x: IndexedEntity<T>|
                x.savable() && begins_with(tail, (#[trigger] x.enc())) implies Self::same(
                &r,
                &x,
            ) by {
                let a = u64_le(x.dense_index() as u64);
                let b = u64_le(x.ident()@);
                assert(x.enc() == a + b);
                assert(tail.take(16) == x.enc());
                assert(begins_with(tail, a)) by {
                    assert(forall|k: int| 0 <= k < 8 ==> tail[k] == x.enc()[k]);
                    assert(tail.take(8) =~= a);
                }
                crate::serial::lemma_u64_of_le_prefix(tail, a);
                crate::serial::lemma_u64_le_round_trip(x.dense_index() as u64);
                assert(ix == x.dense_index());
                assert(begins_with(tail.skip(8), b)) by {
                    assert(forall|k: int| 0 <= k < 8 ==> tail.skip(8)[k] == x.enc()[8 + k]);
                    assert(tail.skip(8).take(8) =~= b);
                }
                crate::serial::lemma_u64_of_le_prefix(tail.skip(8), b);
                crate::serial::lemma_u64_le_round_trip(x.ident()@);
                assert(id == x.ident()@);
            }
        }
        Some(r)
    }
}

/// A well-formed pool's image parses, spans exactly the image, and carries
/// exactly the pool's recycled list and mark.
proof fn lemma_pool_image(x: IndexPool, rest: Seq<u8>)
    requires
        x.wf(),
    ensures
        <IndexPool as SaveData>::dec_ok(x.enc() + rest),
        <IndexPool as SaveData>::dec_len(x.enc() + rest) == x.enc().len(),
        pool_rec_of(x.enc() + rest) == x.recycled_view(),
        pool_mark_of(x.enc() + rest) == x.mark(),
{
    let rec = x.recycled_view();
    lemma_distinct_bounded_len(rec, x.mark());
    let ss = some_slots(rec);
    let a = u64_le(rec.len() as u64);
    let simg = slots_enc::<usize>(ss);
    let c = u64_le(x.mark() as u64);
    let whole = x.enc() + rest;
    assert(whole =~= a + (simg + (c + rest)));
    assert(forall|k: int| 0 <= k < 8 ==> whole[k] == a[k]);
    crate::serial::lemma_u64_le_round_trip(rec.len() as u64);
    assert(u64_of_le(whole) == rec.len() as u64);
    assert(whole.skip(8) =~= simg + (c + rest));
    lemma_slots_enc_parses::<usize>(ss, c + rest);
    lemma_uslots_enc_vals(ss, c + rest);
    assert(uslot_vals(whole.skip(8), ss.len() as int) =~= ss);
    let slen = slots_dec_len::<usize>(whole.skip(8), rec.len() as int);
    assert(slen == simg.len());
    assert(whole.skip(8 + slen) =~= c + rest);
    assert(forall|k: int| 0 <= k < 8 ==> whole.skip(8 + slen)[k] == c[k]);
    crate::serial::lemma_u64_le_round_trip(x.mark() as u64);
    assert(u64_of_le(whole.skip(8 + slen)) == x.mark() as u64);
    assert(u64_of_le(whole) as int == rec.len() as int);
    assert(uslot_vals(whole.skip(8), u64_of_le(whole) as int) =~= ss);
    assert(pool_rec_of(whole) =~= rec) by {
        assert(forall|k: int| 0 <= k < rec.len() ==> present_vals(ss)[k] == rec[k]);
    }
    assert(slots_dec_len::<usize>(whole.skip(8), u64_of_le(whole) as int) == slen);
    assert(pool_mark_of(whole) == x.mark());
    assert(<IndexPool as SaveData>::dec_len(whole) == x.enc().len());
}

impl SaveData for IndexPool {
    open spec fn savable(&self) -> bool {
        self.wf()
    }

    open spec fn enc(&self) -> Seq<u8> {
        u64_le(self.recycled_view().len() as u64) + slots_enc::<usize>(
            some_slots(self.recycled_view()),
        ) + u64_le(self.mark() as u64)
    }

    open spec fn same(a: &IndexPool, b: &IndexPool) -> bool {
        a.recycled_view() == b.recycled_view() && a.mark() == b.mark()
    }

    open spec fn dec_ok(data: Seq<u8>) -> bool {
        &&& u64::dec_ok(data)
        &&& slots_dec_ok::<usize>(data.skip(8), u64_of_le(data) as int)
        &&& ({
            let n = u64_of_le(data) as int;
            let slen = slots_dec_len::<usize>(data.skip(8), n);
            &&& usize::dec_ok(data.skip(8 + slen))
            &&& all_present(uslot_vals(data.skip(8), n))
            &&& pool_rec_of(data).no_duplicates()
            &&& forall|j: int|
                0 <= j < pool_rec_of(data).len() ==> pool_rec_of(data)[j] < pool_mark_of(data)
        })
    }

    open spec fn dec_len(data: Seq<u8>) -> int {
        8 + slots_dec_len::<usize>(data.skip(8), u64_of_le(data) as int) + 8
    }

    proof fn lemma_enc_parses(&self, rest: Seq<u8>)
    {
        lemma_pool_image(*self, rest);
    }

    proof fn lemma_dec_len_bounds(data: Seq<u8>)
    {
        if Self::dec_ok(data) {
            let n = u64_of_le(data) as int;
            crate::serial::lemma_slots_dec_bounds::<usize>(data.skip(8), n);
        }
    }

    fn write_data(&self, out: &mut Vec<u8>)
    {
        let n: u64 = self.recycled.len() as u64;
        n.write_data(out);
        let mut slots: Vec<Option<usize>> = Vec::new();
        let mut k: usize = 0;
        while k < self.recycled.len()
            invariant
                k <= self.recycled_view().len(),
                slots@ =~= some_slots(self.recycled_view()).take(k as int),
            decreases self.recycled_view().len() - k,
        {
            slots.push(Some(self.recycled[k]));
            proof {
                assert(slots@ =~= some_slots(self.recycled_view()).take(k + 1));
            }
            k += 1;
        }
        proof {
            assert(slots@ =~= some_slots(self.recycled_view()));
        }
        write_slots(&slots, out);
        let m: usize = self.next_index;
        m.write_data(out);
        proof {
            assert(final(out)@ =~= old(out)@ + self.enc());
        }
    }

    #[verifier::loop_isolation(false)]
    fn read_data(data: &Vec<u8>, pos: &mut usize) -> (r: Option<IndexPool>)
        ensures
            r matches Some(p) ==> {
                &&& p.recycled_view() == pool_rec_of(data@.skip(*old(pos) as int))
                &&& p.mark() == pool_mark_of(data@.skip(*old(pos) as int))
            },
    {
        let start = *pos;
        let ghost t0 = data@.skip(start as int);
        let n = match u64::read_data(data, pos) {
            Some(n) => n,
            None => {
                return None;
            },
        };
        proof {
            assert(data@.skip(*pos as int) =~= t0.skip(8));
        }
        let slots = match read_uslots(data, pos, n) {
            Some(s) => s,
            None => {
                *pos = start;
                return None;
            },
        };
        let ghost vals = uslot_vals(t0.skip(8), n as int);
        let ghost slen = slots_dec_len::<usize>(t0.skip(8), n as int);
        proof {
            assert(u64_of_le(t0) == n);
            assert(slots@ =~= vals);
            crate::serial::lemma_slots_dec_bounds::<usize>(t0.skip(8), n as int);
            assert(*pos == start + 8 + slen);
            assert(data@.skip(*pos as int) =~= t0.skip(8 + slen));
        }
        let m = match usize::read_data(data, pos) {
            Some(m) => m,
            None => {
                *pos = start;
                return None;
            },
        };
        let ghost pend = *pos as int;
        proof {
            assert(m as u64 == u64_of_le(t0.skip(8 + slen)));
            assert(usize::dec_ok(t0.skip(8 + slen)));
            assert(pool_mark_of(t0) == m);
        }
        let mut rec: Vec<usize> = Vec::new();
        let mut k: usize = 0;
        while k < slots.len()
            invariant
                *pos as int == pend,
                pend <= data@.len(),
                k <= slots@.len(),
                slots@ == vals,
                forall|j: int| 0 <= j < k ==> (#[trigger] vals[j]) is Some,
                rec@ =~= present_vals(vals.take(k as int)),
            decreases slots@.len() - k,
        {
            match &slots[k] {
                Some(v) => {
                    rec.push(*v);
                    proof {
                        assert(rec@ =~= present_vals(vals.take(k + 1)));
                    }
                },
                None => {
                    proof {
                        assert(!all_present(vals));
                    }
                    *pos = start;
                    return None;
                },
            }
            k += 1;
        }
        proof {
            assert(vals.take(vals.len() as int) =~= vals);
            assert(rec@ =~= present_vals(vals));
            assert(all_present(vals));
            assert(rec@ == pool_rec_of(t0));
        }
        let mut i: usize = 0;
        while i < rec.len()
            invariant
                *pos as int == pend,
                pend <= data@.len(),
                i <= rec@.len(),
                rec@ == pool_rec_of(t0),
                forall|j1: int, j2: int|
                    #![trigger rec@[j1], rec@[j2]]
                    0 <= j1 < j2 < i ==> rec@[j1] != rec@[j2],
                forall|j: int| 0 <= j < i ==> (#[trigger] rec@[j]) < m,
            decreases rec@.len() - i,
        {
            if rec[i] >= m {
                *pos = start;
                return None;
            }
            let mut j: usize = 0;
            while j < i
                invariant
                    *pos as int == pend,
                    j <= i < rec@.len(),
                    forall|j2: int| 0 <= j2 < j ==> (#[trigger] rec@[j2]) != rec@[i as int],
                decreases i - j,
            {
                if rec[j] == rec[i] {
                    *pos = start;
                    return None;
                }
                j += 1;
            }
            i += 1;
        }
        proof {
            assert(rec@.no_duplicates());
        }
        let r = IndexPool { recycled: rec, next_index: m };
        proof {
            assert(r.recycled_view() == pool_rec_of(t0));
            assert(r.mark() == pool_mark_of(t0));
            assert(Self::dec_ok(t0));
            assert(*pos as int == start + Self::dec_len(t0));
            assert forall|x: IndexPool|
                x.savable() && begins_with(t0, (#[trigger] x.enc())) implies Self::same(
                &r,
                &x,
            ) by {
                assert(t0 =~= x.enc() + t0.skip(x.enc().len() as int));
                lemma_pool_image(x, t0.skip(x.enc().len() as int));
                assert(pool_rec_of(t0) == x.recycled_view());
                assert(pool_mark_of(t0) == x.mark());
            }
        }
        Some(r)
    }
}


/// The per-identity index slots a manager's wire image carries: one slot
/// per identity ever issued, present exactly for the live ones.
pub open spec fn id_slots<T: ComponentManager>(m: EntityManager<T>) -> Seq<Option<usize>> {
    Seq::new(
        m.counter() as nat,
        |k: int|
            if m.table().contains_key((k + 1) as u64) {
                Some(m.table()[(k + 1) as u64].dense_index())
            } else {
                None
            },
    )
}

/// What makes a slot list a valid entity table against a pool: every
/// present index live, no index held twice, and exactly as many live
/// entities as the pool says.
pub open spec fn em_slots_ok(vals: Seq<Option<usize>>, rec: Seq<usize>, mark: usize) -> bool {
    &&& forall|j: int|
        0 <= j < vals.len() ==> ((#[trigger] vals[j]) matches Some(ix) ==> ix < mark
            && !rec.contains(ix))
    &&& forall|j1: int, j2: int|
        #![trigger vals[j1], vals[j2]]
        0 <= j1 < j2 < vals.len() && vals[j1] is Some && vals[j2] is Some ==> vals[j1]->0
            != vals[j2]->0
    &&& count_present(vals) == mark - rec.len()
}

/// The present slots of a well-formed manager's table are as many as its
/// live entities.
proof fn lemma_count_id_slots<T: ComponentManager>(m: EntityManager<T>, k: int)
    requires
        m.wf(),
        0 <= k <= m.counter(),
    ensures
        count_present(id_slots(m).take(k)) == m.table().dom().intersect(
            Set::new(|id: u64| 1 <= id <= k),
        ).len(),
    decreases k,
{
    let s = id_slots(m);
    let ids = |bound: int| Set::new(|id: u64| 1 <= id <= bound);
    if k == 0 {
        assert(s.take(0) =~= Seq::<Option<usize>>::empty());
        assert(m.table().dom().intersect(ids(0)) =~= Set::<u64>::empty());
    } else {
        lemma_count_id_slots(m, k - 1);
        lemma_count_present_step(s, k - 1);
        vstd::set_lib::lemma_len_subset(
            m.table().dom().intersect(ids(k - 1)),
            m.table().dom(),
        );
        if m.table().contains_key(k as u64) {
            assert(s[k - 1] is Some);
            assert(m.table().dom().intersect(ids(k)) =~= m.table().dom().intersect(
                ids(k - 1),
            ).insert(k as u64));
            assert(!m.table().dom().intersect(ids(k - 1)).contains(k as u64));
        } else {
            assert(s[k - 1] is None);
            assert(m.table().dom().intersect(ids(k)) =~= m.table().dom().intersect(ids(k - 1)));
        }
    }
}

/// A well-formed manager's image parses, spans exactly the image, and
/// carries exactly its counter, pool, and per-identity index slots.
proof fn lemma_em_image<T: ComponentManager>(x: EntityManager<T>, rest: Seq<u8>)
    requires
        x.wf(),
    ensures
        <EntityManager<T> as SaveData>::dec_ok(x.enc() + rest),
        <EntityManager<T> as SaveData>::dec_len(x.enc() + rest) == x.enc().len(),
        u64_of_le(x.enc() + rest) == x.counter(),
        pool_rec_of((x.enc() + rest).skip(8)) == x.pool().recycled_view(),
        pool_mark_of((x.enc() + rest).skip(8)) == x.pool().mark(),
        uslot_vals(
            (x.enc() + rest).skip(8 + <IndexPool as SaveData>::dec_len((x.enc() + rest).skip(8))),
            u64_of_le(x.enc() + rest) as int,
        ) =~= id_slots(x),
{
    let a = u64_le(x.counter());
    let pimg = x.pool().enc();
    let simg = slots_enc::<usize>(id_slots(x));
    let whole = x.enc() + rest;
    assert(whole =~= a + (pimg + (simg + rest)));
    assert(forall|k: int| 0 <= k < 8 ==> whole[k] == a[k]);
    crate::serial::lemma_u64_le_round_trip(x.counter());
    assert(u64_of_le(whole) == x.counter());
    assert(whole.skip(8) =~= pimg + (simg + rest));
    lemma_pool_image(x.pool(), simg + rest);
    let pl = <IndexPool as SaveData>::dec_len(whole.skip(8));
    assert(pl == pimg.len());
    assert(whole.skip(8 + pl) =~= simg + rest);
    lemma_slots_enc_parses::<usize>(id_slots(x), rest);
    lemma_uslots_enc_vals(id_slots(x), rest);
    assert(id_slots(x).len() == x.counter());
    assert(uslot_vals(whole.skip(8 + pl), u64_of_le(whole) as int) =~= id_slots(x));
    assert(em_slots_ok(
        id_slots(x),
        x.pool().recycled_view(),
        x.pool().mark(),
    )) by {
        let vals = id_slots(x);
        assert forall|j: int|
            0 <= j < vals.len() implies ((#[trigger] vals[j]) matches Some(ix) ==> ix
            < x.pool().mark() && !x.pool().recycled_view().contains(ix)) by {
            if vals[j] is Some {
                assert(x.table().contains_key((j + 1) as u64));
                assert(x.pool().is_live(x.table()[(j + 1) as u64].dense_index()));
            }
        }
        assert forall|j1: int, j2: int|
            #![trigger vals[j1], vals[j2]]
            0 <= j1 < j2 < vals.len() && vals[j1] is Some && vals[j2] is Some implies vals[j1]->0
            != vals[j2]->0 by {
            assert(x.table().contains_key((j1 + 1) as u64));
            assert(x.table().contains_key((j2 + 1) as u64));
        }
        lemma_count_id_slots(x, x.counter() as int);
        assert(vals.take(x.counter() as int) =~= vals);
        assert(x.table().dom().intersect(Set::new(|id: u64| 1 <= id <= x.counter()))
            =~= x.table().dom());
    }
    assert(<EntityManager<T> as SaveData>::dec_len(whole) == x.enc().len());
}

impl<T: ComponentManager> SaveData for EntityManager<T> {
    open spec fn savable(&self) -> bool {
        self.wf()
    }

    open spec fn enc(&self) -> Seq<u8> {
        u64_le(self.counter()) + self.pool().enc() + slots_enc::<usize>(id_slots(*self))
    }

    /// What the wire carries of a manager: the counter, the pool, and which
    /// identity holds which dense index; entries outside the issued range
    /// cannot appear on the wire, and only the left value is known to keep
    /// every entry's identity consistent with its key.
    open spec fn same(a: &EntityManager<T>, b: &EntityManager<T>) -> bool {
        &&& a.counter() == b.counter()
        &&& <IndexPool as SaveData>::same(&a.pool(), &b.pool())
        &&& forall|id: u64| #[trigger] a.table().contains_key(id) ==> 1 <= id <= a.counter()
        &&& forall|id: u64| #[trigger]
            a.table().contains_key(id) ==> a.table()[id].ident()@ == id
        &&& forall|id: u64|
            1 <= id <= a.counter() ==> (#[trigger] a.table().contains_key(id)
                == b.table().contains_key(id))
        &&& forall|id: u64|
            1 <= id <= a.counter() && #[trigger] a.table().contains_key(id)
                ==> a.table()[id].dense_index() == b.table()[id].dense_index()
    }

    open spec fn dec_ok(data: Seq<u8>) -> bool {
        &&& u64::dec_ok(data)
        &&& <IndexPool as SaveData>::dec_ok(data.skip(8))
        &&& ({
            let c = u64_of_le(data) as int;
            let pl = <IndexPool as SaveData>::dec_len(data.skip(8));
            let sdata = data.skip(8 + pl);
            &&& slots_dec_ok::<usize>(sdata, c)
            &&& em_slots_ok(
                uslot_vals(sdata, c),
                pool_rec_of(data.skip(8)),
                pool_mark_of(data.skip(8)),
            )
        })
    }

    open spec fn dec_len(data: Seq<u8>) -> int {
        8 + <IndexPool as SaveData>::dec_len(data.skip(8)) + slots_dec_len::<usize>(
            data.skip(8 + <IndexPool as SaveData>::dec_len(data.skip(8))),
            u64_of_le(data) as int,
        )
    }

    proof fn lemma_enc_parses(&self, rest: Seq<u8>)
    {
        lemma_em_image(*self, rest);
    }

    proof fn lemma_dec_len_bounds(data: Seq<u8>)
    {
        if Self::dec_ok(data) {
            <IndexPool as SaveData>::lemma_dec_len_bounds(data.skip(8));
            let pl = <IndexPool as SaveData>::dec_len(data.skip(8));
            crate::serial::lemma_slots_dec_bounds::<usize>(
                data.skip(8 + pl),
                u64_of_le(data) as int,
            );
        }
    }

    #[verifier::loop_isolation(false)]
    fn write_data(&self, out: &mut Vec<u8>)
    {
        self.next_id.write_data(out);
        self.indices.write_data(out);
        let mut slots: Vec<Option<usize>> = Vec::new();
        let mut k: u64 = 0;
        proof {
            assert(slots@ =~= id_slots(*self).take(0));
        }
        while k < self.next_id
            invariant
                k <= self.counter(),
                slots@ =~= id_slots(*self).take(k as int),
            decreases self.counter() - k,
        {
            let id: u64 = k + 1;
            match self.entities.get(&id) {
                Some(ie) => {
                    slots.push(Some(ie.index()));
                },
                None => {
                    slots.push(None);
                },
            }
            proof {
                assert(slots@ =~= id_slots(*self).take(k + 1));
            }
            k += 1;
        }
        proof {
            assert(slots@ =~= id_slots(*self));
        }
        write_slots(&slots, out);
        proof {
            assert(final(out)@ =~= old(out)@ + self.enc());
        }
    }

    #[verifier::loop_isolation(false)]
    #[verifier::rlimit(100)]
    fn read_data(data: &Vec<u8>, pos: &mut usize) -> (r: Option<EntityManager<T>>)
    {
        let start = *pos;
        let ghost t0 = data@.skip(start as int);
        let c = match u64::read_data(data, pos) {
            Some(c) => c,
            None => {
                return None;
            },
        };
        proof {
            assert(u64_of_le(t0) == c);
            assert(data@.skip(*pos as int) =~= t0.skip(8));
        }
        let pool = match IndexPool::read_data(data, pos) {
            Some(p) => p,
            None => {
                *pos = start;
                return None;
            },
        };
        let ghost pl = <IndexPool as SaveData>::dec_len(t0.skip(8));
        proof {
            assert(<IndexPool as SaveData>::dec_ok(t0.skip(8)));
            <IndexPool as SaveData>::lemma_dec_len_bounds(t0.skip(8));
            assert(*pos == start + 8 + pl);
            assert(data@.skip(*pos as int) =~= t0.skip(8 + pl));
        }
        let slots = match read_uslots(data, pos, c) {
            Some(s) => s,
            None => {
                *pos = start;
                return None;
            },
        };
        let ghost vals = uslot_vals(t0.skip(8 + pl), c as int);
        proof {
            assert(slots@.len() == c);
            assert(slots@ =~= vals);
            crate::serial::lemma_slots_dec_bounds::<usize>(t0.skip(8 + pl), c as int);
        }
        let ghost pend = *pos as int;
        let mut count: u64 = 0;
        let mut k: usize = 0;
        while k < slots.len()
            invariant
                *pos as int == pend,
                k <= slots@.len(),
                count <= k,
                count as int == count_present(vals.take(k as int)),
                forall|j1: int, j2: int|
                    #![trigger vals[j1], vals[j2]]
                    0 <= j1 < j2 < k && vals[j1] is Some && vals[j2] is Some ==> vals[j1]->0
                        != vals[j2]->0,
                forall|j: int|
                    0 <= j < k ==> ((#[trigger] vals[j]) matches Some(ix) ==> pool.is_live(ix)),
            decreases slots@.len() - k,
        {
            proof {
                lemma_count_present_step(vals, k as int);
            }
            match &slots[k] {
                Some(ix) => {
                    if !pool.check_live(*ix) {
                        *pos = start;
                        return None;
                    }
                    let mut j: usize = 0;
                    while j < k
                        invariant
                            *pos as int == pend,
                            j <= k < slots@.len(),
                            slots@ == vals,
                            vals[k as int] is Some,
                            forall|j2: int|
                                0 <= j2 < j ==> ((#[trigger] vals[j2]) matches Some(ix2) ==> ix2
                                    != vals[k as int]->0),
                        decreases k - j,
                    {
                        match &slots[j] {
                            Some(ix2) => {
                                if *ix2 == *ix {
                                    *pos = start;
                                    return None;
                                }
                            },
                            None => {
                            },
                        }
                        j += 1;
                    }
                    count += 1;
                },
                None => {
                },
            }
            k += 1;
        }
        proof {
            assert(vals.take(vals.len() as int) =~= vals);
        }
        let live = pool.count();
        if count != live as u64 {
            proof {
                assert(count_present(vals) != pool.mark() - pool.recycled_view().len());
            }
            *pos = start;
            return None;
        }
        let mut entities: HashMap<u64, IndexedEntity<T>> = HashMap::new();
        let mut k2: usize = 0;
        proof {
            assert(entities@.dom() =~= Set::<u64>::empty());
        }
        while k2 < slots.len()
            invariant
                *pos as int == pend,
                k2 <= slots@.len(),
                entities@.dom().finite(),
                entities@.dom().len() == count_present(vals.take(k2 as int)),
                forall|id: u64| #[trigger]
                    entities@.contains_key(id) <==> (1 <= id <= k2 && vals[id - 1] is Some),
                forall|id: u64| #[trigger]
                    entities@.contains_key(id) ==> {
                        &&& entities@[id].dense_index() == vals[id - 1]->0
                        &&& entities@[id].ident()@ == id
                    },
            decreases slots@.len() - k2,
        {
            proof {
                lemma_count_present_step(vals, k2 as int);
            }
            let id: u64 = (k2 as u64) + 1;
            let ghost epre = entities@;
            match &slots[k2] {
                Some(ix) => {
                    entities.insert(id, IndexedEntity(*ix, Entity(id), PhantomData));
                    proof {
                        assert(!epre.contains_key(id));
                        assert(entities@.dom() =~= epre.dom().insert(id));
                    }
                },
                None => {
                },
            }
            k2 += 1;
        }
        proof {
            assert(vals.take(vals.len() as int) =~= vals);
        }
        let r = EntityManager { indices: pool, entities, next_id: c };
        proof {
            assert(slots@.len() == c);
            assert(vals.len() == c);
            assert(r.wf()) by {
                assert(r.pool().wf());
                assert(r.table().dom().finite());
                assert(forall|id: u64| #[trigger]
                    r.table().contains_key(id) ==> 1 <= id <= r.counter());
                assert(forall|id: u64| #[trigger]
                    r.table().contains_key(id) ==> r.table()[id].ident()@ == id);
                assert forall|id: u64| #[trigger]
                    r.table().contains_key(id) implies r.pool().is_live(
                    r.table()[id].dense_index(),
                ) by {
                    assert(vals[id - 1] matches Some(ix) ==> pool.is_live(ix));
                }
                assert(r.table().dom().len() == count_present(vals));
                assert(count as int == count_present(vals));
                assert(live == pool.live_count());
                assert(count_present(vals) == pool.mark() - pool.recycled_view().len());
                assert forall|a: u64, b: u64|
                    r.table().contains_key(a) && r.table().contains_key(b) && a
                        != b implies #[trigger] r.table()[a].dense_index()
                    != #[trigger] r.table()[b].dense_index() by {
                    assert(vals[a - 1] is Some && vals[b - 1] is Some);
                }
            }
            assert(Self::dec_ok(t0)) by {
                assert(em_slots_ok(vals, pool_rec_of(t0.skip(8)), pool_mark_of(t0.skip(8)))) by {
                    assert(pool.recycled_view() == pool_rec_of(t0.skip(8)));
                    assert(pool.mark() == pool_mark_of(t0.skip(8)));
                    assert forall|j: int|
                        0 <= j < vals.len() implies ((#[trigger] vals[j]) matches Some(ix) ==> ix
                        < pool_mark_of(t0.skip(8)) && !pool_rec_of(t0.skip(8)).contains(
                        ix,
                    )) by {
                        if vals[j] is Some {
                            assert(pool.is_live(vals[j]->0));
                        }
                    }
                }
            }
            assert(*pos as int == start + Self::dec_len(t0));
            assert forall|x: EntityManager<T>|
                x.savable() && begins_with(t0, (#[trigger] x.enc())) implies Self::same(
                &r,
                &x,
            ) by {
                assert(t0 =~= x.enc() + t0.skip(x.enc().len() as int));
                lemma_em_image(x, t0.skip(x.enc().len() as int));
                assert(vals =~= id_slots(x));
                assert(c == x.counter());
                assert forall|id: u64|
                    1 <= id <= c implies (#[trigger] r.table().contains_key(id)
                    == x.table().contains_key(id)) by {
                    assert(id_slots(x)[id - 1] == (if x.table().contains_key(id) {
                        Some(x.table()[id].dense_index())
                    } else {
                        None::<usize>
                    }));
                }
            }
        }
        Some(r)
    }
}

/// Index recycling never aliases: any two distinct live entities hold
/// distinct dense indices, however indices have been acquired and released
/// before.
pub proof fn lemma_live_indices_distinct<T: ComponentManager>(m: EntityManager<T>, a: u64, b: u64)
    requires
        m.wf(),
        m.valid_view(a),
        m.valid_view(b),
        a != b,
    ensures
        m.index_of(a) != m.index_of(b),
{
}

/// Entity identities never repeat: every identity ever issued is bounded by
/// the identity counter of any later state, the counter never decreases,
/// and `create` issues exactly the counter plus one — so an identity issued
/// after `earlier` differs from every identity that was live in it, even
/// though dense indices are reused.
pub proof fn lemma_identity_never_repeats<T: ComponentManager>(
    earlier: EntityManager<T>,
    later: EntityManager<T>,
    live_id: u64,
    issued: u64,
)
    requires
        earlier.wf(),
        earlier.valid_view(live_id),
        later.counter() >= earlier.counter(),
        issued > later.counter(),
    ensures
        issued != live_id,
{
}

} // verus!
