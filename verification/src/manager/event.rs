//! Keyed transient state and first-in-first-out event queues.

use std::collections::HashMap;
use std::collections::VecDeque;
use vstd::prelude::*;
use vstd::std_specs::hash::obeys_key_model;

use crate::manager::Manager;

verus! {

broadcast use vstd::std_specs::hash::group_hash_axioms;

/// A key a state manager may be addressed by.
pub trait StateKey: core::hash::Hash + Eq + 'static {

}

impl<T: core::hash::Hash + Eq + 'static> StateKey for T {

}

/// A keyed store of transient per-event state.  Its contracts are exact for
/// key types whose equality and hashing obey the hash-table key model,
/// which all primitive integer keys do.
pub struct StateManager<Event: StateKey, State: 'static> {
    states: HashMap<Event, State>,
}

impl<E: StateKey, S: 'static> StateManager<E, S> {
    /// The stored states, as a map from key to state.
    pub closed spec fn table(&self) -> Map<E, S> {
        self.states@
    }

    /// Returns an empty store.
    pub fn new() -> (r: StateManager<E, S>)
        ensures
            r.table() =~= Map::<E, S>::empty(),
    {
        StateManager { states: HashMap::new() }
    }

    /// Stores the state for a key, returning the state it replaces, if
    /// any.
    pub fn set(&mut self, event: E, state: S) -> (r: Option<S>)
        ensures
            obeys_key_model::<E>() ==> {
                &&& final(self).table() == old(self).table().insert(event, state)
                &&& r is Some <==> old(self).table().contains_key(event)
                &&& r matches Some(v) ==> v == old(self).table()[event]
            },
    {
        self.states.insert(event, state)
    }

    /// The state stored for a key, if any.
    pub fn get(&self, event: &E) -> (r: Option<&S>)
        ensures
            obeys_key_model::<E>() ==> {
                &&& r is Some <==> self.table().contains_key(*event)
                &&& r matches Some(v) ==> *v == self.table()[*event]
            },
    {
        self.states.get(event)
    }

    /// Drops the state stored for a key, returning it, if any.
    pub fn clear(&mut self, event: &E) -> (r: Option<S>)
        ensures
            obeys_key_model::<E>() ==> {
                &&& final(self).table() == old(self).table().remove(*event)
                &&& r is Some <==> old(self).table().contains_key(*event)
                &&& r matches Some(v) ==> v == old(self).table()[*event]
            },
    {
        self.states.remove(event)
    }

    /// Drops every stored state.
    pub fn clear_all(&mut self)
        ensures
            final(self).table() =~= Map::<E, S>::empty(),
    {
        self.states.clear()
    }
}

impl<E: StateKey, S: 'static> Manager for StateManager<E, S> {

}

/// Relies on std's `VecDeque::front_mut`: the mutable entry at the front,
/// present exactly when the queue is not empty, leaving the rest as it
/// was.
#[verifier::external_body]
fn deque_front_mut<'a, T>(q: &'a mut VecDeque<T>) -> (r: Option<&'a mut T>)
    ensures
        match r {
            Some(p) => {
                &&& old(q)@.len() > 0
                &&& *p == old(q)@[0]
                &&& final(q)@ == old(q)@.update(0, *final(p))
            },
            None => {
                &&& old(q)@.len() == 0
                &&& final(q)@ == old(q)@
            },
        },
{
    q.front_mut()
}

/// A first-in-first-out queue of events, oldest at the front.
pub struct QueueManager<Event: 'static> {
    queue: VecDeque<Event>,
}

impl<E: 'static> QueueManager<E> {
    /// The queued events, oldest first.
    pub closed spec fn view_seq(&self) -> Seq<E> {
        self.queue@
    }

    /// Returns an empty queue.
    pub fn new() -> (r: QueueManager<E>)
        ensures
            r.view_seq() =~= Seq::<E>::empty(),
    {
        QueueManager { queue: VecDeque::new() }
    }

    /// Appends an event at the back.
    pub fn push(&mut self, event: E)
        ensures
            final(self).view_seq() == old(self).view_seq().push(event),
    {
        self.queue.push_back(event);
    }

    /// Takes the oldest event off the front, if any.
    pub fn pop(&mut self) -> (r: Option<E>)
        ensures
            old(self).view_seq().len() == 0 ==> r is None && final(self).view_seq() == old(self).view_seq(),
            old(self).view_seq().len() > 0 ==> r == Some(old(self).view_seq()[0]) && final(self).view_seq() == old(self).view_seq().drop_first(),
    {
        let r = self.queue.pop_front();
        proof {
            if old(self).view_seq().len() > 0 {
                assert(self.view_seq() =~= old(self).view_seq().drop_first());
            }
        }
        r
    }

    /// Borrows the oldest event without taking it, if any.
    pub fn peek(&self) -> (r: Option<&E>)
        ensures
            self.view_seq().len() == 0 ==> r is None,
            self.view_seq().len() > 0 ==> (r matches Some(v) && *v == self.view_seq()[0]),
    {
        if self.queue.len() == 0 {
            None
        } else {
            Some(&self.queue[0])
        }
    }

    /// Mutably borrows the oldest event without taking it, if any.
    pub fn modify(&mut self) -> (r: Option<&mut E>)
        ensures
            old(self).view_seq().len() == 0 ==> r is None && final(self).view_seq() == old(self).view_seq(),
            match r {
                Some(p) => {
                    &&& old(self).view_seq().len() > 0
                    &&& *p == old(self).view_seq()[0]
                    &&& final(self).view_seq() == old(self).view_seq().update(0, *final(p))
                },
                None => final(self).view_seq() == old(self).view_seq(),
            },
    {
        deque_front_mut(&mut self.queue)
    }

    /// Whether no event is queued.
    pub fn is_empty(&self) -> (r: bool)
        ensures
            r == (self.view_seq().len() == 0),
    {
        self.queue.len() == 0
    }
}

impl<E: 'static> Manager for QueueManager<E> {

}

} // verus!
