//! Group-by-key entity lists: an auxiliary manager that keeps named groups
//! of entities and prunes them when entities are deactivated.

use std::collections::HashMap;
use vstd::prelude::*;
use vstd::std_specs::hash::obeys_key_model;

use crate::entity::Entity;
use crate::manager::Manager;

verus! {

broadcast use vstd::std_specs::hash::group_hash_axioms;

/// A key a group manager may be addressed by.
pub trait GroupKey: core::hash::Hash + Eq + 'static {

}

impl<T: core::hash::Hash + Eq + 'static> GroupKey for T {

}

/// The entities of one group with every occurrence of one identity dropped,
/// order kept.
pub open spec fn retained(s: Seq<Entity>, id: u64) -> Seq<Entity>
    decreases s.len(),
{
    if s.len() == 0 {
        Seq::empty()
    } else {
        (if s[0]@ == id {
            Seq::empty()
        } else {
            seq![s[0]]
        }) + retained(s.drop_first(), id)
    }
}

/// Retention distributes over taking one more entity.
pub proof fn lemma_retained_step(s: Seq<Entity>, i: int, id: u64)
    requires
        0 <= i < s.len(),
    ensures
        retained(s.take(i + 1), id) =~= retained(s.take(i), id) + (if s[i]@ == id {
            Seq::empty()
        } else {
            seq![s[i]]
        }),
    decreases i,
{
    let a = s.take(i + 1);
    let b = s.take(i);
    if i == 0 {
        assert(a =~= seq![s[0]]);
        assert(b =~= Seq::<Entity>::empty());
        assert(a.drop_first() =~= Seq::<Entity>::empty());
    } else {
        let sd = s.drop_first();
        lemma_retained_step(sd, i - 1, id);
        assert(a.drop_first() =~= sd.take(i));
        assert(b.drop_first() =~= sd.take(i - 1));
        assert(a[0] == s[0] && b[0] == s[0]);
        assert(sd[i - 1] == s[i]);
    }
}

/// Keyed lists of entities.  Each key owns one group slot; deactivated
/// entities are pruned from every group.  Contracts about key addressing
/// are exact for key types obeying the hash-table key model, which all
/// primitive integer keys do.
pub struct GroupManager<Key: GroupKey> {
    table: HashMap<Key, usize>,
    slots: Vec<Vec<Entity>>,
}

impl<Key: GroupKey> GroupManager<Key> {
    /// Which slot each key owns.
    pub closed spec fn key_table(&self) -> Map<Key, usize> {
        self.table@
    }

    /// The group slots, in creation order.
    pub closed spec fn slot_seqs(&self) -> Seq<Seq<Entity>> {
        Seq::new(self.slots@.len(), |i: int| self.slots@[i]@)
    }

    /// The groups: a map from key to its entities, in insertion order.
    pub open spec fn groups_view(&self) -> Map<Key, Seq<Entity>> {
        Map::new(
            |k: Key| self.key_table().contains_key(k),
            |k: Key| self.slot_seqs()[self.key_table()[k] as int],
        )
    }

    /// Every key's slot exists.
    pub open spec fn wf(&self) -> bool {
        &&& forall|k: Key| #[trigger]
            self.key_table().contains_key(k) ==> self.key_table()[k] < self.slot_seqs().len()
        &&& forall|k1: Key, k2: Key|
            #![trigger self.key_table()[k1], self.key_table()[k2]]
            self.key_table().contains_key(k1) && self.key_table().contains_key(k2) && k1 != k2
                ==> self.key_table()[k1] != self.key_table()[k2]
    }

    /// Returns a manager with no groups.
    pub fn new() -> (r: GroupManager<Key>)
        ensures
            r.wf(),
            r.key_table() =~= Map::<Key, usize>::empty(),
    {
        let r = GroupManager { table: HashMap::new(), slots: Vec::new() };
        proof {
            assert(r.key_table().dom() =~= Set::<Key>::empty());
        }
        r
    }

    /// Creates an empty group under the key; a no-op if the key already
    /// has one.
    pub fn create(&mut self, key: Key)
        requires
            obeys_key_model::<Key>() ==> old(self).wf(),
        ensures
            obeys_key_model::<Key>() ==> final(self).wf(),
            obeys_key_model::<Key>() ==> final(self).groups_view() =~= (if old(self).key_table().contains_key(key) {
                old(self).groups_view()
            } else {
                old(self).groups_view().insert(key, Seq::<Entity>::empty())
            }),
    {
        if self.table.contains_key(&key) {
            return ;
        }
        let idx = self.slots.len();
        self.slots.push(Vec::new());
        self.table.insert(key, idx);
        proof {
            if obeys_key_model::<Key>() {
                assert forall|k: Key| #[trigger]
                    self.key_table().contains_key(k) implies self.key_table()[k]
                    < self.slot_seqs().len() by {
                    if k != key {
                        assert(old(self).key_table().contains_key(k));
                    }
                }
                assert forall|k1: Key, k2: Key|
                    #![trigger self.key_table()[k1], self.key_table()[k2]]
                    self.key_table().contains_key(k1) && self.key_table().contains_key(k2) && k1
                        != k2 implies self.key_table()[k1] != self.key_table()[k2] by {
                    if k1 != key && k2 != key {
                        assert(old(self).key_table().contains_key(k1));
                        assert(old(self).key_table().contains_key(k2));
                        assert(old(self).key_table()[k1] != old(self).key_table()[k2]);
                    } else if k1 == key {
                        assert(old(self).key_table().contains_key(k2));
                        assert(old(self).key_table()[k2] < old(self).slot_seqs().len());
                        assert(self.key_table()[k1] == old(self).slot_seqs().len());
                        assert(self.key_table()[k2] == old(self).key_table()[k2]);
                    } else {
                        assert(old(self).key_table().contains_key(k1));
                        assert(old(self).key_table()[k1] < old(self).slot_seqs().len());
                        assert(self.key_table()[k2] == old(self).slot_seqs().len());
                        assert(self.key_table()[k1] == old(self).key_table()[k1]);
                    }
                }
            }
        }
    }

    /// The group under the key, if one was created.
    pub fn get(&self, key: &Key) -> (r: Option<&Vec<Entity>>)
        requires
            obeys_key_model::<Key>() ==> self.wf(),
        ensures
            obeys_key_model::<Key>() ==> {
                &&& r is Some <==> self.key_table().contains_key(*key)
                &&& r matches Some(v) ==> v@ == self.groups_view()[*key]
            },
    {
        match self.table.get(key) {
            Some(idx) => {
                if *idx < self.slots.len() {
                    Some(&self.slots[*idx])
                } else {
                    None
                }
            },
            None => None,
        }
    }

    /// Removes the group under the key and hands its entities back, if one
    /// was created.
    pub fn delete(&mut self, key: &Key) -> (r: Option<Vec<Entity>>)
        requires
            obeys_key_model::<Key>() ==> old(self).wf(),
        ensures
            obeys_key_model::<Key>() ==> final(self).wf(),
            obeys_key_model::<Key>() ==> {
                &&& r is Some <==> old(self).key_table().contains_key(*key)
                &&& r matches Some(v) ==> v@ == old(self).groups_view()[*key]
                &&& final(self).key_table() == old(self).key_table().remove(*key)
                &&& forall|k: Key|
                    k != *key && old(self).key_table().contains_key(k) ==> final(self).groups_view()[k] == old(self).groups_view()[k]
            },
    {
        let r = match self.table.remove(key) {
            Some(idx) => {
                let mut taken: Vec<Entity> = Vec::new();
                if idx < self.slots.len() {
                    let slot = &mut self.slots[idx];
                    core::mem::swap(slot, &mut taken);
                    proof {
                        assert(forall|i: int|
                            0 <= i < self.slot_seqs().len() && i != idx ==> self.slot_seqs()[i]
                                == old(self).slot_seqs()[i]);
                    }
                }
                Some(taken)
            },
            None => None,
        };
        proof {
            if obeys_key_model::<Key>() {
                assert forall|k: Key| #[trigger]
                    self.key_table().contains_key(k) implies self.key_table()[k]
                    < self.slot_seqs().len() by {
                    assert(old(self).key_table().contains_key(k));
                }
                assert forall|k1: Key, k2: Key|
                    #![trigger self.key_table()[k1], self.key_table()[k2]]
                    self.key_table().contains_key(k1) && self.key_table().contains_key(k2) && k1
                        != k2 implies self.key_table()[k1] != self.key_table()[k2] by {
                    assert(old(self).key_table().contains_key(k1));
                    assert(old(self).key_table().contains_key(k2));
                    assert(old(self).key_table()[k1] != old(self).key_table()[k2]);
                    assert(self.key_table()[k1] == old(self).key_table()[k1]);
                    assert(self.key_table()[k2] == old(self).key_table()[k2]);
                }
                assert forall|k: Key|
                    k != *key && old(self).key_table().contains_key(k) implies final(self).groups_view()[k] == old(self).groups_view()[k] by {
                    assert(self.key_table()[k] == old(self).key_table()[k]);
                    if old(self).key_table().contains_key(*key) {
                        assert(old(self).key_table()[k] != old(self).key_table()[*key]);
                    }
                }
            }
        }
        r
    }
}

impl<Key: GroupKey> Manager for GroupManager<Key> {
    /// Prunes the deactivated entity from every group, keeping each
    /// group's remaining order.
    #[verifier::loop_isolation(false)]
    fn deactivated(&mut self, entity: &Entity)
        ensures
            final(self).key_table() == old(self).key_table(),
            final(self).slot_seqs().len() == old(self).slot_seqs().len(),
            forall|i: int|
                0 <= i < old(self).slot_seqs().len() ==> final(self).slot_seqs()[i] == retained(
                    old(self).slot_seqs()[i],
                    entity@,
                ),
            old(self).wf() ==> final(self).wf(),
    {
        let id = entity.id();
        let mut i: usize = 0;
        while i < self.slots.len()
            invariant
                i <= self.slot_seqs().len(),
                self.key_table() == old(self).key_table(),
                self.slot_seqs().len() == old(self).slot_seqs().len(),
                forall|j: int|
                    0 <= j < i ==> #[trigger] self.slot_seqs()[j] == retained(
                        old(self).slot_seqs()[j],
                        entity@,
                    ),
                forall|j: int|
                    i <= j < self.slot_seqs().len() ==> #[trigger] self.slot_seqs()[j] == old(self).slot_seqs()[j],
            decreases self.slot_seqs().len() - i,
        {
            let ghost s0 = self.slots@[i as int]@;
            proof {
                assert(self.slot_seqs()[i as int] == s0);
                assert(s0 == old(self).slot_seqs()[i as int]);
            }
            let mut kept: Vec<Entity> = Vec::new();
            let mut k: usize = 0;
            proof {
                assert(kept@ =~= retained(s0.take(0), id));
            }
            while k < self.slots[i].len()
                invariant
                    i < self.slots@.len(),
                    self.slots@[i as int]@ == s0,
                    k <= s0.len(),
                    kept@ =~= retained(s0.take(k as int), id),
                decreases s0.len() - k,
            {
                let e = self.slots[i][k];
                if e.id() != id {
                    kept.push(e);
                }
                proof {
                    lemma_retained_step(s0, k as int, id);
                }
                k += 1;
            }
            proof {
                assert(s0.take(s0.len() as int) =~= s0);
                assert(kept@ =~= retained(s0, id));
                assert(s0 == old(self).slot_seqs()[i as int]);
            }
            let ghost pre = self.slot_seqs();
            self.slots.set(i, kept);
            proof {
                assert(forall|j: int|
                    0 <= j < self.slot_seqs().len() && j != i ==> self.slot_seqs()[j] == pre[j]);
                assert(self.slot_seqs()[i as int] == retained(old(self).slot_seqs()[i as int], id));
                assert forall|j: int|
                    0 <= j < i + 1 implies #[trigger] self.slot_seqs()[j] == retained(
                    old(self).slot_seqs()[j],
                    entity@,
                ) by {
                    if j < i {
                        assert(self.slot_seqs()[j] == pre[j]);
                    }
                }
                assert forall|j: int|
                    i + 1 <= j < self.slot_seqs().len() implies #[trigger] self.slot_seqs()[j]
                    == old(self).slot_seqs()[j] by {
                    assert(self.slot_seqs()[j] == pre[j]);
                }
            }
            i += 1;
        }
    }
}

} // verus!
