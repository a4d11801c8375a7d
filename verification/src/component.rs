//! Per-component-type storage, and the builder and modifier capabilities.

use std::collections::HashMap;
use vstd::prelude::*;

use crate::entity::IndexedEntity;
use crate::serial::{
    begins_with, lemma_slots_enc_parses, lemma_slots_enc_step, read_slots, slots_dec_len,
    slots_dec_ok, slots_enc, slots_same, slots_savable, slot_img, u64_le, u64_of_le, write_slots,
    SaveData,
};
use crate::world::ComponentManager;
use crate::{BuildData, EditData, ModifyData};

verus! {

broadcast use vstd::std_specs::hash::group_hash_axioms;

/// A plain data fragment that can be attached to entities.
pub trait Component: 'static {

}

impl<T: 'static> Component for T {

}

/// One component type's storage, keyed by dense entity index.  The variant
/// is chosen at construction and fixed for the storage's lifetime: hot
/// storage is array-backed and suits component types most entities carry;
/// cold storage is hash-backed and suits sparsely attached types.  Both
/// variants expose the identical operation set.
pub struct ComponentList<C: ComponentManager, T: Component>(
    InnerComponentList<T>,
    core::marker::PhantomData<C>,
);

enum InnerComponentList<T: Component> {
    Hot(Vec<Option<T>>),
    Cold(HashMap<usize, T>, usize),
}

/// Relies on std's `HashMap::get_mut`: the mutable entry for a key, present
/// exactly when the key is, leaving the rest of the map as it was.
#[verifier::external_body]
fn map_get_mut<'a, T>(m: &'a mut HashMap<usize, T>, k: usize) -> (r: Option<&'a mut T>)
    ensures
        match r {
            Some(p) => {
                &&& old(m)@.contains_key(k)
                &&& *p == old(m)@[k]
                &&& final(m)@ == old(m)@.insert(k, *final(p))
            },
            None => {
                &&& !old(m)@.contains_key(k)
                &&& final(m)@ == old(m)@
            },
        },
{
    m.get_mut(&k)
}

impl<C: ComponentManager, T: Component> ComponentList<C, T> {
    /// The stored components, as a map from dense index to value.
    pub closed spec fn contents(&self) -> Map<usize, T> {
        match self.0 {
            InnerComponentList::Hot(v) => Map::new(
                |i: usize| i < v@.len() && v@[i as int] is Some,
                |i: usize| v@[i as int]->0,
            ),
            InnerComponentList::Cold(m, _) => m@,
        }
    }

    /// Whether this list was built with the hot (array-backed) variant.
    pub closed spec fn is_hot(&self) -> bool {
        self.0 is Hot
    }

    /// Cold storage keeps every key below its scan bound.
    pub closed spec fn wf(&self) -> bool {
        match self.0 {
            InnerComponentList::Hot(_) => true,
            InnerComponentList::Cold(m, bound) => forall|k: usize| #[trigger]
                m@.contains_key(k) ==> k < bound,
        }
    }

    /// Builds an empty hot (array-backed) list.
    pub fn hot() -> (r: ComponentList<C, T>)
        ensures
            r.wf(),
            r.is_hot(),
            r.contents() =~= Map::<usize, T>::empty(),
    {
        ComponentList(InnerComponentList::Hot(Vec::new()), core::marker::PhantomData)
    }

    /// Builds an empty cold (hash-backed) list.
    pub fn cold() -> (r: ComponentList<C, T>)
        ensures
            r.wf(),
            !r.is_hot(),
            r.contents() =~= Map::<usize, T>::empty(),
    {
        let r = ComponentList(
            InnerComponentList::Cold(HashMap::new(), 0),
            core::marker::PhantomData,
        );
        proof {
            assert(r.contents() =~= Map::<usize, T>::empty());
        }
        r
    }

    /// Stores the entry for one index: inserts the value, returning the
    /// previous value if the index already had one.
    fn put(&mut self, index: usize, component: T) -> (r: Option<T>)
        requires
            old(self).wf(),
            index < usize::MAX,
        ensures
            final(self).wf(),
            final(self).is_hot() == old(self).is_hot(),
            final(self).contents() == old(self).contents().insert(index, component),
            r is Some <==> old(self).contents().contains_key(index),
            r matches Some(v) ==> v == old(self).contents()[index],
    {
        match &mut self.0 {
            InnerComponentList::Hot(v) => {
                let ghost pre = v@;
                while v.len() <= index
                    invariant
                        pre.len() <= v@.len(),
                        forall|k: int| 0 <= k < pre.len() ==> v@[k] == pre[k],
                        forall|k: int| pre.len() <= k < v@.len() ==> v@[k] is None,
                    decreases index + 1 - v@.len(),
                {
                    v.push(None);
                }
                let mut slot = Some(component);
                v.set_and_swap(index, &mut slot);
                proof {
                    assert(self.contents() =~= old(self).contents().insert(index, component));
                    assert(slot is Some <==> old(self).contents().contains_key(index));
                }
                slot
            },
            InnerComponentList::Cold(m, bound) => {
                if index >= *bound {
                    *bound = index + 1;
                }
                let r = m.insert(index, component);
                proof {
                    assert(final(self).contents() =~= old(self).contents().insert(
                        index,
                        component,
                    ));
                }
                r
            },
        }
    }

    /// Drops the entry for one index, returning the previous value if the
    /// index had one.
    fn take_out(&mut self, index: usize) -> (r: Option<T>)
        requires
            old(self).wf(),
        ensures
            final(self).wf(),
            final(self).is_hot() == old(self).is_hot(),
            final(self).contents() == old(self).contents().remove(index),
            r is Some <==> old(self).contents().contains_key(index),
            r matches Some(v) ==> v == old(self).contents()[index],
    {
        match &mut self.0 {
            InnerComponentList::Hot(v) => {
                if index < v.len() {
                    let mut slot = None;
                    v.set_and_swap(index, &mut slot);
                    proof {
                        assert(self.contents() =~= old(self).contents().remove(index));
                    }
                    slot
                } else {
                    proof {
                        assert(self.contents() =~= old(self).contents().remove(index));
                    }
                    None
                }
            },
            InnerComponentList::Cold(m, _) => {
                let r = m.remove(&index);
                proof {
                    assert(final(self).contents() =~= old(self).contents().remove(index));
                }
                r
            },
        }
    }

    /// Attaches a component during entity construction: insert-or-replace,
    /// returning the prior value if any.
    pub fn add(&mut self, entity: &BuildData<'_, C>, component: T) -> (r: Option<T>)
        requires
            old(self).wf(),
            entity.target().dense_index() < usize::MAX,
        ensures
            final(self).wf(),
            final(self).is_hot() == old(self).is_hot(),
            final(self).contents() == old(self).contents().insert(
                entity.target().dense_index(),
                component,
            ),
            r is Some <==> old(self).contents().contains_key(entity.target().dense_index()),
            r matches Some(v) ==> v == old(self).contents()[entity.target().dense_index()],
    {
        let index = entity.entity().index();
        self.put(index, component)
    }

    /// Attaches or replaces a component during entity modification,
    /// returning the prior value if any.
    pub fn insert(&mut self, entity: &ModifyData<'_, C>, component: T) -> (r: Option<T>)
        requires
            old(self).wf(),
            entity.target().dense_index() < usize::MAX,
        ensures
            final(self).wf(),
            final(self).is_hot() == old(self).is_hot(),
            final(self).contents() == old(self).contents().insert(
                entity.target().dense_index(),
                component,
            ),
            r is Some <==> old(self).contents().contains_key(entity.target().dense_index()),
            r matches Some(v) ==> v == old(self).contents()[entity.target().dense_index()],
    {
        let index = entity.edit_entity().index();
        self.put(index, component)
    }

    /// Detaches a component during entity modification, returning the prior
    /// value if any.
    pub fn remove(&mut self, entity: &ModifyData<'_, C>) -> (r: Option<T>)
        requires
            old(self).wf(),
        ensures
            final(self).wf(),
            final(self).is_hot() == old(self).is_hot(),
            final(self).contents() == old(self).contents().remove(entity.target().dense_index()),
            r is Some <==> old(self).contents().contains_key(entity.target().dense_index()),
            r matches Some(v) ==> v == old(self).contents()[entity.target().dense_index()],
    {
        let index = entity.edit_entity().index();
        self.take_out(index)
    }

    /// Insert-or-replace through any entity view, returning the prior value
    /// if any.
    pub fn set<U: EditData<C>>(&mut self, entity: &U, component: T) -> (r: Option<T>)
        requires
            old(self).wf(),
            entity.edited().dense_index() < usize::MAX,
        ensures
            final(self).wf(),
            final(self).is_hot() == old(self).is_hot(),
            final(self).contents() == old(self).contents().insert(
                entity.edited().dense_index(),
                component,
            ),
            r is Some <==> old(self).contents().contains_key(entity.edited().dense_index()),
            r matches Some(v) ==> v == old(self).contents()[entity.edited().dense_index()],
    {
        let index = entity.edit_entity().index();
        self.put(index, component)
    }

    /// A copy of the entity's component, or nothing when the entity lacks
    /// one.
    pub fn get<U: EditData<C>>(&self, entity: &U) -> (r: Option<T>) where T: Clone
        ensures
            r is Some <==> self.contents().contains_key(entity.edited().dense_index()),
            r matches Some(v) ==> vstd::pervasive::cloned::<T>(
                self.contents()[entity.edited().dense_index()],
                v,
            ),
    {
        let index = entity.edit_entity().index();
        match &self.0 {
            InnerComponentList::Hot(v) => {
                if index < v.len() {
                    match &v[index] {
                        Some(c) => Some(c.clone()),
                        None => None,
                    }
                } else {
                    None
                }
            },
            InnerComponentList::Cold(m, _) => {
                match m.get(&index) {
                    Some(c) => Some(c.clone()),
                    None => None,
                }
            },
        }
    }

    /// Whether a component is stored at this dense index; the form of
    /// `has` that component-bundle impls answer presence queries with.
    pub fn has_index(&self, index: usize) -> (r: bool)
        ensures
            r == self.contents().contains_key(index),
    {
        match &self.0 {
            InnerComponentList::Hot(v) => index < v.len() && v[index].is_some(),
            InnerComponentList::Cold(m, _) => m.contains_key(&index),
        }
    }

    /// Whether the entity carries this component.
    pub fn has<U: EditData<C>>(&self, entity: &U) -> (r: bool)
        ensures
            r == self.contents().contains_key(entity.edited().dense_index()),
    {
        let index = entity.edit_entity().index();
        match &self.0 {
            InnerComponentList::Hot(v) => index < v.len() && v[index].is_some(),
            InnerComponentList::Cold(m, _) => m.contains_key(&index),
        }
    }

    /// A mutable borrow of the entity's component, or nothing when the
    /// entity lacks one.
    pub fn borrow<U: EditData<C>>(&mut self, entity: &U) -> (r: Option<&mut T>)
        requires
            old(self).wf(),
        ensures
            final(self).wf(),
            final(self).is_hot() == old(self).is_hot(),
            r is Some <==> old(self).contents().contains_key(entity.edited().dense_index()),
            match r {
                Some(p) => {
                    &&& *p == old(self).contents()[entity.edited().dense_index()]
                    &&& final(self).contents() =~= old(self).contents().insert(
                        entity.edited().dense_index(),
                        *final(p),
                    )
                },
                None => final(self).contents() =~= old(self).contents(),
            },
    {
        let index = entity.edit_entity().index();
        match &mut self.0 {
            InnerComponentList::Hot(v) => {
                if index < v.len() {
                    let slot = &mut v[index];
                    slot.as_mut()
                } else {
                    None
                }
            },
            InnerComponentList::Cold(m, _) => map_get_mut(m, index),
        }
    }

    /// The entity's component.  Callers establish presence first, usually
    /// through an aspect check; asking for an absent component is a caller
    /// contract violation.
    pub fn index<U: EditData<C>>(&self, entity: &U) -> (r: &T)
        requires
            self.contents().contains_key(entity.edited().dense_index()),
        ensures
            *r == self.contents()[entity.edited().dense_index()],
    {
        let index = entity.edit_entity().index();
        match &self.0 {
            InnerComponentList::Hot(v) => v[index].as_ref().unwrap(),
            InnerComponentList::Cold(m, _) => m.get(&index).unwrap(),
        }
    }

    /// A mutable borrow of the entity's component, presence already
    /// established by the caller.
    pub fn index_mut<U: EditData<C>>(&mut self, entity: &U) -> (r: &mut T)
        requires
            old(self).wf(),
            old(self).contents().contains_key(entity.edited().dense_index()),
        ensures
            final(self).wf(),
            final(self).is_hot() == old(self).is_hot(),
            *r == old(self).contents()[entity.edited().dense_index()],
            final(self).contents() =~= old(self).contents().insert(
                entity.edited().dense_index(),
                *final(r),
            ),
    {
        let index = entity.edit_entity().index();
        match &mut self.0 {
            InnerComponentList::Hot(v) => {
                let slot = &mut v[index];
                slot.as_mut().unwrap()
            },
            InnerComponentList::Cold(m, _) => map_get_mut(m, index).unwrap(),
        }
    }

    /// Removes the entry for one entity unconditionally, ignoring absence.
    /// Used exclusively by entity teardown.
    pub fn clear(&mut self, entity: &IndexedEntity<C>)
        requires
            old(self).wf(),
        ensures
            final(self).wf(),
            final(self).is_hot() == old(self).is_hot(),
            final(self).contents() == old(self).contents().remove(entity.dense_index()),
    {
        let index = entity.index();
        let _ = self.take_out(index);
    }
}


impl<C: ComponentManager, T: Component> ComponentList<C, T> {
    /// The index range the storage scans when persisted: the backing
    /// array's length for hot storage, the retained key bound for cold.
    pub closed spec fn scan_bound(&self) -> usize {
        match self.0 {
            InnerComponentList::Hot(v) => v@.len() as usize,
            InnerComponentList::Cold(_, bound) => bound,
        }
    }

    /// The storage as one optional slot per index below the scan bound.
    pub closed spec fn slots_view(&self) -> Seq<Option<T>> {
        match self.0 {
            InnerComponentList::Hot(v) => v@,
            InnerComponentList::Cold(m, bound) => Seq::new(
                bound as nat,
                |k: int|
                    if m@.contains_key(k as usize) {
                        Some(m@[k as usize])
                    } else {
                        None
                    },
            ),
        }
    }
}

impl<C: ComponentManager, T: Component + SaveData> SaveData for ComponentList<C, T> {
    open spec fn savable(&self) -> bool {
        &&& self.wf()
        &&& slots_savable(self.slots_view())
        &&& self.slots_view().len() == self.scan_bound()
    }

    open spec fn enc(&self) -> Seq<u8> {
        seq![
            if self.is_hot() {
                1u8
            } else {
                2u8
            },
        ] + u64_le(self.scan_bound() as u64) + slots_enc::<T>(self.slots_view())
    }

    /// What the wire carries of a storage: its variant, its scan bound, and
    /// its slots below the bound; a value whose keys strayed beyond its own
    /// bound cannot appear on the wire.
    open spec fn same(a: &ComponentList<C, T>, b: &ComponentList<C, T>) -> bool {
        &&& a.is_hot() == b.is_hot()
        &&& a.scan_bound() == b.scan_bound()
        &&& slots_same(a.slots_view(), b.slots_view())
    }

    open spec fn dec_ok(data: Seq<u8>) -> bool {
        &&& data.len() >= 1
        &&& (data[0] == 1u8 || data[0] == 2u8)
        &&& u64::dec_ok(data.skip(1))
        &&& u64_of_le(data.skip(1)) <= usize::MAX as u64
        &&& slots_dec_ok::<T>(data.skip(9), u64_of_le(data.skip(1)) as int)
    }

    open spec fn dec_len(data: Seq<u8>) -> int {
        9 + slots_dec_len::<T>(data.skip(9), u64_of_le(data.skip(1)) as int)
    }

    proof fn lemma_enc_parses(&self, rest: Seq<u8>)
    {
        let d = seq![
            if self.is_hot() {
                1u8
            } else {
                2u8
            },
        ];
        let a = u64_le(self.scan_bound() as u64);
        let simg = slots_enc::<T>(self.slots_view());
        let whole = self.enc() + rest;
        assert(whole =~= d + (a + (simg + rest)));
        assert(whole[0] == d[0]);
        assert(whole.skip(1) =~= a + (simg + rest));
        assert(forall|k: int| 0 <= k < 8 ==> whole.skip(1)[k] == a[k]);
        crate::serial::lemma_u64_le_round_trip(self.scan_bound() as u64);
        assert(u64_of_le(whole.skip(1)) == self.scan_bound() as u64);
        assert(whole.skip(9) =~= simg + rest);
        lemma_slots_enc_parses::<T>(self.slots_view(), rest);
        assert(Self::dec_len(whole) == self.enc().len());
    }

    proof fn lemma_dec_len_bounds(data: Seq<u8>)
    {
        if Self::dec_ok(data) {
            crate::serial::lemma_slots_dec_bounds::<T>(
                data.skip(9),
                u64_of_le(data.skip(1)) as int,
            );
        }
    }

    #[verifier::loop_isolation(false)]
    fn write_data(&self, out: &mut Vec<u8>)
    {
        let ghost base = out@;
        match &self.0 {
            InnerComponentList::Hot(v) => {
                out.push(1u8);
                let n: u64 = v.len() as u64;
                n.write_data(out);
                write_slots(v, out);
                proof {
                    assert(final(out)@ =~= base + self.enc());
                }
            },
            InnerComponentList::Cold(m, bound) => {
                out.push(2u8);
                let n: u64 = *bound as u64;
                n.write_data(out);
                let ghost mid = out@;
                let ghost sv = self.slots_view();
                let mut i: usize = 0;
                proof {
                    assert(out@ =~= mid + slots_enc::<T>(sv.take(0)));
                }
                while i < *bound
                    invariant
                        i <= *bound,
                        out@ =~= mid + slots_enc::<T>(sv.take(i as int)),
                    decreases *bound - i,
                {
                    match m.get(&i) {
                        Some(v) => {
                            proof {
                                assert(sv[i as int] == Some(*v));
                                assert(sv[i as int] matches Some(q) ==> q.savable());
                            }
                            out.push(1u8);
                            v.write_data(out);
                            proof {
                                assert(slot_img(sv[i as int]) =~= seq![1u8] + v.enc());
                            }
                        },
                        None => {
                            out.push(0u8);
                            proof {
                                assert(slot_img(sv[i as int]) =~= seq![0u8]);
                            }
                        },
                    }
                    proof {
                        lemma_slots_enc_step(sv, i as int);
                        assert(out@ =~= mid + slots_enc::<T>(sv.take(i + 1)));
                    }
                    i += 1;
                }
                proof {
                    assert(sv.take(sv.len() as int) =~= sv);
                    assert(final(out)@ =~= base + self.enc());
                }
            },
        }
    }

    #[verifier::loop_isolation(false)]
    fn read_data(data: &Vec<u8>, pos: &mut usize) -> (r: Option<ComponentList<C, T>>)
    {
        let start = *pos;
        let ghost t0 = data@.skip(start as int);
        let disc = match u8::read_data(data, pos) {
            Some(d) => d,
            None => {
                return None;
            },
        };
        proof {
            assert(t0[0] == disc);
        }
        if disc != 1u8 && disc != 2u8 {
            *pos = start;
            return None;
        }
        proof {
            assert(data@.skip(*pos as int) =~= t0.skip(1));
        }
        let n = match u64::read_data(data, pos) {
            Some(n) => n,
            None => {
                *pos = start;
                return None;
            },
        };
        if n > usize::MAX as u64 {
            proof {
                assert(u64_of_le(t0.skip(1)) > usize::MAX as u64);
            }
            *pos = start;
            return None;
        }
        proof {
            assert(u64_of_le(t0.skip(1)) == n);
            assert(data@.skip(*pos as int) =~= t0.skip(9));
        }
        let slots = match read_slots::<T>(data, pos, n) {
            Some(s) => s,
            None => {
                *pos = start;
                return None;
            },
        };
        proof {
            crate::serial::lemma_slots_dec_bounds::<T>(t0.skip(9), n as int);
            assert(*pos as int == start + Self::dec_len(t0));
        }
        let ghost sl = slots@;
        proof {
            assert(Self::dec_ok(t0));
        }
        if disc == 1u8 {
            let r = ComponentList(InnerComponentList::Hot(slots), core::marker::PhantomData);
            proof {
                assert(r.slots_view() == sl);
                assert(r.scan_bound() == n);
                assert(r.is_hot());
                assert forall|x: ComponentList<C, T>|
                    x.savable() && begins_with(t0, (#[trigger] x.enc())) implies Self::same(
                    &r,
                    &x,
                ) by {
                    lemma_list_image_parts::<C, T>(x, t0);
                    assert(slots_same(sl, x.slots_view()));
                }
            }
            Some(r)
        } else {
            let mut m: HashMap<usize, T> = HashMap::new();
            let bound: usize = n as usize;
            let mut rem = slots;
            proof {
                assert(m@.dom() =~= Set::<usize>::empty());
            }
            while rem.len() > 0
                invariant
                    rem@.len() <= sl.len(),
                    rem@ =~= sl.take(rem@.len() as int),
                    forall|k: usize| #[trigger]
                        m@.contains_key(k) <==> (rem@.len() <= k < sl.len() && sl[k as int]
                            is Some),
                    forall|k: usize| #[trigger]
                        m@.contains_key(k) ==> m@[k] == sl[k as int]->0,
                decreases rem@.len(),
            {
                let k = rem.len() - 1;
                let ghost mpre = m@;
                match rem.pop() {
                    Some(slot) => {
                        match slot {
                            Some(v) => {
                                m.insert(k, v);
                            },
                            None => {
                            },
                        }
                    },
                    None => {
                    },
                }
                proof {
                    assert(rem@ =~= sl.take(k as int));
                }
            }
            let r = ComponentList(
                InnerComponentList::Cold(m, bound),
                core::marker::PhantomData,
            );
            proof {
                assert(rem@.len() == 0);
                assert(r.slots_view() =~= sl) by {
                    assert(forall|k: int|
                        0 <= k < sl.len() ==> (m@.contains_key(k as usize) <==> sl[k] is Some));
                }
                assert(r.scan_bound() == n);
                assert(!r.is_hot());
                assert(r.wf());
                assert forall|x: ComponentList<C, T>|
                    x.savable() && begins_with(t0, (#[trigger] x.enc())) implies Self::same(
                    &r,
                    &x,
                ) by {
                    lemma_list_image_parts::<C, T>(x, t0);
                    assert(slots_same(sl, x.slots_view()));
                    assert(slots_same(r.slots_view(), x.slots_view()));
                }
            }
            Some(r)
        }
    }
}

/// A savable storage whose image begins the stream fixes the stream's
/// discriminator, bound, and slot image prefix.
proof fn lemma_list_image_parts<C: ComponentManager, T: Component + SaveData>(
    x: ComponentList<C, T>,
    t0: Seq<u8>,
)
    requires
        x.savable(),
        begins_with(t0, x.enc()),
    ensures
        t0.len() >= 9,
        t0[0] == (if x.is_hot() {
            1u8
        } else {
            2u8
        }),
        u64_of_le(t0.skip(1)) == x.scan_bound() as u64,
        begins_with(t0.skip(9), slots_enc::<T>(x.slots_view())),
        slots_savable(x.slots_view()),
        x.slots_view().len() == x.scan_bound(),
{
    let d = seq![
        if x.is_hot() {
            1u8
        } else {
            2u8
        },
    ];
    let a = u64_le(x.scan_bound() as u64);
    let simg = slots_enc::<T>(x.slots_view());
    assert(x.enc() =~= d + (a + simg));
    assert(t0.take(x.enc().len() as int) == x.enc());
    assert(forall|k: int| 0 <= k < x.enc().len() ==> t0[k] == x.enc()[k]);
    assert(t0[0] == d[0]);
    assert(begins_with(t0.skip(1), a)) by {
        assert(forall|k: int| 0 <= k < 8 ==> t0.skip(1)[k] == a[k]);
        assert(t0.skip(1).take(8) =~= a);
    }
    crate::serial::lemma_u64_of_le_prefix(t0.skip(1), a);
    crate::serial::lemma_u64_le_round_trip(x.scan_bound() as u64);
    assert(begins_with(t0.skip(9), simg)) by {
        assert(forall|k: int| 0 <= k < simg.len() ==> t0.skip(9)[k] == x.enc()[9 + k]);
        assert(t0.skip(9).take(simg.len() as int) =~= simg);
    }
}

/// The capability of writing a freshly created entity's initial components;
/// single-use, and may be a no-op.
pub trait EntityBuilder<T: ComponentManager> {
    /// Writes the new entity's initial components.
    fn build(self, e: BuildData<'_, T>, c: &mut T);
}

impl<T: ComponentManager> EntityBuilder<T> for () {
    fn build(self, _e: BuildData<'_, T>, _c: &mut T) {
    }
}

/// The capability of changing a live entity's components in place;
/// single-use, and may be a no-op.
pub trait EntityModifier<T: ComponentManager> {
    /// Applies the component changes to the entity.
    fn modify(self, e: ModifyData<'_, T>, c: &mut T);
}

impl<T: ComponentManager> EntityModifier<T> for () {
    fn modify(self, _e: ModifyData<'_, T>, _c: &mut T) {
    }
}

} // verus!
