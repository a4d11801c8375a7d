//! The world: traits for the user-supplied component, service, and system
//! bundles, and the orchestrator that drives them.

use vstd::prelude::*;

use crate::component::{EntityBuilder, EntityModifier};
use crate::entity::{Entity, EntityIter, EntityManager, IndexedEntity};
use crate::serial::{begins_with, SaveData};
use crate::{BuildData, EntityData, ModifyData};

verus! {

/// The capability contract of a user-supplied component bundle: one struct
/// holding a `ComponentList` per component type, each list addressed by a
/// small numeric component-type tag.
///
/// `spec_has` is the bundle's ghost presence relation: which component types
/// are attached at which dense index.  `has_component` must answer exactly
/// that relation, and `__remove_all` must clear one index across every list
/// while leaving all others untouched; aspects and the world's flush rely on
/// these two contracts.
pub trait ComponentManager: Sized + 'static {
    /// Whether a component of type `ctype` is attached at dense index
    /// `index`.
    spec fn spec_has(&self, ctype: u64, index: usize) -> bool;

    /// Builds the bundle with every component list empty: no component of
    /// any type is attached at any index.
    fn __new() -> (r: Self)
        ensures
            forall|t: u64, i: usize| !r.spec_has(t, i),
    ;

    /// Clears every component type's entry for one entity; used exclusively
    /// by entity teardown at flush time.
    fn __remove_all(&mut self, entity: &IndexedEntity<Self>)
        ensures
            forall|t: u64| !final(self).spec_has(t, entity.dense_index()),
            forall|t: u64, i: usize|
                i != entity.dense_index() ==> final(self).spec_has(t, i) == old(self).spec_has(
                    t,
                    i,
                ),
    ;

    /// Answers the presence relation for one component type at one index.
    fn has_component(&self, ctype: u64, index: usize) -> (r: bool)
        ensures
            r == self.spec_has(ctype, index),
    ;
}

/// Marker for a user-supplied bundle of shared services that systems may
/// mutate during notifications and processing.
pub trait ServiceManager: 'static {

}

impl ServiceManager for () {

}

/// A deferred entity event, buffered on the world until the queue is
/// flushed.
#[derive(Copy, Clone)]
pub enum Event {
    /// The entity was freshly created and systems have yet to be told.
    BuildEntity(Entity),
    /// The entity is to be destroyed when the queue is flushed; it stays
    /// fully valid and queryable until then.
    RemoveEntity(Entity),
}

impl Event {
    /// The entity the event concerns.
    pub open spec fn subject(&self) -> Entity {
        match self {
            Event::BuildEntity(e) => *e,
            Event::RemoveEntity(e) => *e,
        }
    }
}

/// One step the world takes while notifying systems or tearing entities
/// down, recorded (in ghost state) in the order the steps happen.
pub enum Notice {
    /// `activated` was sent to the systems for this entity.
    Activated(u64),
    /// `reactivated` was sent to the systems for this entity.
    Reactivated(u64),
    /// `deactivated` was sent to the systems for this entity.
    Deactivated(u64),
    /// The entity's components were cleared and its identity released.
    Cleared(u64),
}

/// The notices one event produces at flush time: a build announces the
/// entity; a removal announces it and only then clears it, so systems see
/// its components still present.
pub open spec fn event_notices(ev: Event) -> Seq<Notice> {
    match ev {
        Event::BuildEntity(e) => seq![Notice::Activated(e@)],
        Event::RemoveEntity(e) => seq![Notice::Deactivated(e@), Notice::Cleared(e@)],
    }
}

/// The notices a whole queue produces, strictly in enqueue order.
pub open spec fn flush_notices(q: Seq<Event>) -> Seq<Notice>
    decreases q.len(),
{
    if q.len() == 0 {
        Seq::empty()
    } else {
        event_notices(q[0]) + flush_notices(q.drop_first())
    }
}

/// Whether the queue holds a removal of this identity.
pub open spec fn removes_id(q: Seq<Event>, id: u64) -> bool {
    exists|i: int| 0 <= i < q.len() && q[i] is RemoveEntity && (#[trigger] q[i]).subject()@ == id
}

/// Taking one more event extends the notice sequence by exactly that
/// event's notices.
pub proof fn lemma_flush_notices_step(q: Seq<Event>, i: int)
    requires
        0 <= i < q.len(),
    ensures
        flush_notices(q.take(i + 1)) =~= flush_notices(q.take(i)) + event_notices(q[i]),
    decreases i,
{
    let a = q.take(i + 1);
    let b = q.take(i);
    if i == 0 {
        assert(a =~= seq![q[0]]);
        assert(b =~= Seq::<Event>::empty());
        assert(a.len() == 1 && a[0] == q[0]);
        assert(flush_notices(a) == event_notices(a[0]) + flush_notices(a.drop_first()));
        assert(a.drop_first() =~= Seq::<Event>::empty());
        assert(flush_notices(a.drop_first()) == Seq::<Notice>::empty());
        assert(flush_notices(b) == Seq::<Notice>::empty());
    } else {
        let qd = q.drop_first();
        lemma_flush_notices_step(qd, i - 1);
        assert(a.drop_first() =~= qd.take(i));
        assert(b.drop_first() =~= qd.take(i - 1));
        assert(a[0] == q[0] && b[0] == q[0]);
        assert(flush_notices(a) =~= event_notices(q[0]) + flush_notices(qd.take(i)));
        assert(flush_notices(b) =~= event_notices(q[0]) + flush_notices(qd.take(i - 1)));
        assert(qd[i - 1] == q[i]);
        assert(flush_notices(qd.take(i)) =~= flush_notices(qd.take(i - 1)) + event_notices(q[i]));
    }
}

/// The notice sequence of a queue splits around any one event: what the
/// earlier events produce, that event's own notices, then the rest.
pub proof fn lemma_flush_notices_decompose(q: Seq<Event>, i: int)
    requires
        0 <= i < q.len(),
    ensures
        flush_notices(q) =~= flush_notices(q.take(i)) + event_notices(q[i]) + flush_notices(
            q.skip(i + 1),
        ),
    decreases i,
{
    if i == 0 {
        assert(q.take(0) =~= Seq::<Event>::empty());
        assert(q.skip(1) =~= q.drop_first());
    } else {
        let qd = q.drop_first();
        lemma_flush_notices_decompose(qd, i - 1);
        assert(qd.take(i - 1) =~= q.take(i).drop_first());
        assert(qd[i - 1] == q[i]);
        assert(qd.skip(i) =~= q.skip(i + 1));
        assert(flush_notices(q) =~= event_notices(q[0]) + flush_notices(qd));
        assert(flush_notices(q.take(i)) =~= event_notices(q[0]) + flush_notices(
            q.take(i).drop_first(),
        ));
    }
}

/// Deferred build/remove ordering: when an entity's build event stands
/// before its remove event in one queue, the flush notices hold its
/// `Activated` strictly before its `Deactivated`, and its components are
/// cleared only in the step after the `Deactivated` notice.
pub proof fn lemma_flush_order(q: Seq<Event>, b: int, r: int)
    requires
        0 <= b < r < q.len(),
        q[b] is BuildEntity,
        q[r] is RemoveEntity,
        q[b].subject() == q[r].subject(),
    ensures
        ({
            let n = flush_notices(q);
            let x = flush_notices(q.take(b)).len();
            let y = flush_notices(q.take(r)).len();
            &&& x < y
            &&& y + 1 < n.len()
            &&& n[x as int] == Notice::Activated(q[b].subject()@)
            &&& n[y as int] == Notice::Deactivated(q[r].subject()@)
            &&& n[y as int + 1] == Notice::Cleared(q[r].subject()@)
        }),
{
    let n = flush_notices(q);
    let x = flush_notices(q.take(b)).len() as int;
    let y = flush_notices(q.take(r)).len() as int;
    lemma_flush_notices_decompose(q, b);
    assert(n[x] == event_notices(q[b])[0]);
    lemma_flush_notices_decompose(q, r);
    assert(n[y] == event_notices(q[r])[0]);
    assert(n[y + 1] == event_notices(q[r])[1]);
    let p = q.take(r);
    lemma_flush_notices_decompose(p, b);
    assert(p.take(b) =~= q.take(b));
    assert(p[b] == q[b]);
    assert(flush_notices(p).len() >= flush_notices(q.take(b)).len() + 1);
}

/// Taking one more event extends the removed-identity predicate by exactly
/// that event's removal, if it is one.
pub proof fn lemma_removes_id_step(q: Seq<Event>, i: int, id: u64)
    requires
        0 <= i < q.len(),
    ensures
        removes_id(q.take(i + 1), id) <==> (removes_id(q.take(i), id) || (q[i] is RemoveEntity
            && q[i].subject()@ == id)),
{
    let a = q.take(i + 1);
    let b = q.take(i);
    if removes_id(a, id) {
        let w = choose|w: int| 0 <= w < a.len() && a[w] is RemoveEntity && a[w].subject()@ == id;
        if w < i {
            assert(b[w] is RemoveEntity && b[w].subject()@ == id);
        } else {
            assert(a[w] == q[i]);
        }
    }
    if removes_id(b, id) {
        let w = choose|w: int| 0 <= w < b.len() && b[w] is RemoveEntity && b[w].subject()@ == id;
        assert(a[w] is RemoveEntity && a[w].subject()@ == id);
    }
    if q[i] is RemoveEntity && q[i].subject()@ == id {
        assert(a[i] is RemoveEntity && a[i].subject()@ == id);
    }
}

/// Whether this identity survives a flush of the queue: it is live and no
/// removal of it is queued.
pub open spec fn survives<C: ComponentManager>(
    m: EntityManager<C>,
    q: Seq<Event>,
    id: u64,
) -> bool {
    m.valid_view(id) && !removes_id(q, id)
}

/// Whether a flush of the queue clears this dense index: some live identity
/// queued for removal owns it.
pub open spec fn removed_index<C: ComponentManager>(
    m: EntityManager<C>,
    q: Seq<Event>,
    x: usize,
) -> bool {
    exists|id: u64| m.valid_view(id) && removes_id(q, id) && (#[trigger] m.index_of(id)) == x
}

/// Taking one more event extends the cleared-index predicate by exactly the
/// index that event's removal owns, if it is a removal.
pub proof fn lemma_removed_index_step<C: ComponentManager>(
    m: EntityManager<C>,
    q: Seq<Event>,
    i: int,
    x: usize,
)
    requires
        0 <= i < q.len(),
    ensures
        removed_index(m, q.take(i + 1), x) <==> (removed_index(m, q.take(i), x) || (q[i]
            is RemoveEntity && m.valid_view(q[i].subject()@) && m.index_of(q[i].subject()@)
            == x)),
{
    if removed_index(m, q.take(i + 1), x) {
        let id = choose|id: u64|
            m.valid_view(id) && removes_id(q.take(i + 1), id) && (#[trigger] m.index_of(id)) == x;
        lemma_removes_id_step(q, i, id);
        if removes_id(q.take(i), id) {
            assert(removed_index(m, q.take(i), x));
        } else {
            assert(q[i].subject()@ == id);
        }
    }
    if removed_index(m, q.take(i), x) {
        let id = choose|id: u64|
            m.valid_view(id) && removes_id(q.take(i), id) && (#[trigger] m.index_of(id)) == x;
        lemma_removes_id_step(q, i, id);
        assert(m.valid_view(id) && removes_id(q.take(i + 1), id) && m.index_of(id) == x);
    }
    if q[i] is RemoveEntity && m.valid_view(q[i].subject()@) && m.index_of(q[i].subject()@) == x {
        let id = q[i].subject()@;
        lemma_removes_id_step(q, i, id);
        assert(m.valid_view(id) && removes_id(q.take(i + 1), id) && m.index_of(id) == x);
    }
}

/// The shared data every system may reach while processing: the component
/// bundle, the service bundle, the entity manager, and the deferred event
/// queue.
pub struct DataHelper<C: ComponentManager, M: ServiceManager> {
    pub components: C,
    pub services: M,
    entities: EntityManager<C>,
    event_queue: Vec<Event>,
}

/// The capability of running once against a live entity's data; used with
/// `with_entity_data`.
pub trait EntityCall<C: ComponentManager, R> {
    /// Runs against the entity's view and the component bundle.
    fn call(self, e: EntityData<'_, C>, c: &mut C) -> R;
}

impl<C: ComponentManager, M: ServiceManager> DataHelper<C, M> {
    /// The entity manager.
    pub closed spec fn manager(&self) -> EntityManager<C> {
        self.entities
    }

    /// The component bundle, as a specification value.
    pub closed spec fn components_spec(&self) -> C {
        self.components
    }

    /// The service bundle, as a specification value.
    pub closed spec fn services_spec(&self) -> M {
        self.services
    }

    /// The deferred events, oldest first.
    pub closed spec fn queue(&self) -> Seq<Event> {
        self.event_queue@
    }

    /// Whether a removal of this identity is already queued.
    pub open spec fn remove_queued(&self, id: u64) -> bool {
        removes_id(self.queue(), id)
    }

    /// The world's invariant: the entity manager is well formed, every
    /// queued event names a live entity, no entity is queued for removal
    /// twice, and an entity's build event always stands before its remove
    /// event.
    pub open spec fn wf(&self) -> bool {
        &&& self.manager().wf()
        &&& forall|i: int|
            0 <= i < self.queue().len() ==> self.manager().valid_view(
                (#[trigger] self.queue()[i]).subject()@,
            )
        &&& forall|i: int, j: int|
            #![trigger self.queue()[i], self.queue()[j]]
            0 <= i < j < self.queue().len() && self.queue()[i] is RemoveEntity
                && self.queue()[j] is RemoveEntity ==> self.queue()[i].subject()@
                != self.queue()[j].subject()@
        &&& forall|i: int, j: int|
            #![trigger self.queue()[i], self.queue()[j]]
            0 <= i < j < self.queue().len() && self.queue()[i] is BuildEntity
                && self.queue()[j] is BuildEntity ==> self.queue()[i].subject()@
                != self.queue()[j].subject()@
        &&& forall|i: int, j: int|
            #![trigger self.queue()[i], self.queue()[j]]
            0 <= i < self.queue().len() && 0 <= j < self.queue().len() && self.queue()[i]
                is BuildEntity && self.queue()[j] is RemoveEntity && self.queue()[i].subject()@
                == self.queue()[j].subject()@ ==> i < j
    }

    /// Runs `call` against the entity's data if the entity is live, handing
    /// back its result; answers nothing for a removed entity.
    pub fn with_entity_data<R, F: EntityCall<C, R>>(&mut self, entity: &Entity, call: F) -> (r:
        Option<R>)
        requires
            old(self).wf(),
        ensures
            final(self).wf(),
            r is Some <==> old(self).manager().valid_view(entity@),
            final(self).manager() == old(self).manager(),
            final(self).queue() == old(self).queue(),
            final(self).services_spec() == old(self).services_spec(),
    {
        if self.entities.is_valid(entity) {
            let ie = self.entities.indexed(entity).__clone();
            Some(call.call(EntityData::make(&ie), &mut self.components))
        } else {
            None
        }
    }

    /// Creates an entity and lets the builder write its initial components
    /// at once; systems hear of it only when the queue is flushed.
    pub fn create_entity<B: EntityBuilder<C>>(&mut self, builder: B) -> (r: Entity)
        requires
            old(self).wf(),
            old(self).manager().can_create(),
        ensures
            final(self).wf(),
            r@ == old(self).manager().counter() + 1,
            final(self).manager().counter() == r@,
            !old(self).manager().valid_view(r@),
            final(self).manager().valid_view(r@),
            forall|id: u64|
                id != r@ ==> final(self).manager().valid_view(id) == old(self).manager().valid_view(id),
            forall|id: u64|
                id != r@ && old(self).manager().valid_view(id) ==> final(self).manager().table()[id]
                    == old(self).manager().table()[id],
            final(self).queue() == old(self).queue().push(Event::BuildEntity(r)),
            final(self).services_spec() == old(self).services_spec(),
    {
        let entity = self.entities.create();
        let ie = self.entities.indexed(&entity).__clone();
        builder.build(BuildData::make(&ie), &mut self.components);
        self.event_queue.push(Event::BuildEntity(entity));
        proof {
            let q0 = old(self).queue();
            let q1 = self.queue();
            assert(q1 =~= q0.push(Event::BuildEntity(entity)));
            assert(forall|i: int| 0 <= i < q0.len() ==> q1[i] == q0[i]);
            assert(q1[q0.len() as int] == Event::BuildEntity(entity));
            assert(forall|i: int|
                0 <= i < q0.len() ==> (#[trigger] q0[i]).subject()@ <= old(self).manager().counter());
        }
        entity
    }

    /// Queues the entity for removal at the next flush; until then it stays
    /// fully valid and queryable.  Queueing the same entity's removal twice
    /// is a caller contract violation.
    pub fn remove_entity(&mut self, entity: Entity)
        requires
            old(self).wf(),
            old(self).manager().valid_view(entity@),
            !old(self).remove_queued(entity@),
        ensures
            final(self).wf(),
            final(self).manager() == old(self).manager(),
            final(self).queue() == old(self).queue().push(Event::RemoveEntity(entity)),
            final(self).services_spec() == old(self).services_spec(),
            final(self).components_spec() == old(self).components_spec(),
    {
        self.event_queue.push(Event::RemoveEntity(entity));
        proof {
            let q0 = old(self).queue();
            let q1 = self.queue();
            assert(q1 =~= q0.push(Event::RemoveEntity(entity)));
            assert(forall|i: int| 0 <= i < q0.len() ==> q1[i] == q0[i]);
            assert(q1[q0.len() as int] == Event::RemoveEntity(entity));
            assert forall|i: int, j: int|
                0 <= i < j < q1.len() && q1[i] is RemoveEntity && q1[j]
                    is RemoveEntity implies q1[i].subject()@ != q1[j].subject()@ by {
                if j == q0.len() {
                    if q1[i].subject()@ == entity@ {
                        assert(removes_id(q0, entity@));
                    }
                }
            }
        }
    }
}


/// Why world state could not be serialized.
#[derive(Copy, Clone, Debug, Eq, PartialEq, Structural)]
pub enum SaveError {
    /// The deferred event queue still holds events; flush before saving.
    PendingEvents,
}

impl<C: ComponentManager + SaveData, M: ServiceManager + SaveData> SaveData for DataHelper<C, M> {
    open spec fn savable(&self) -> bool {
        &&& self.wf()
        &&& self.queue().len() == 0
        &&& self.services_spec().savable()
        &&& self.components_spec().savable()
    }

    open spec fn enc(&self) -> Seq<u8> {
        self.services_spec().enc() + self.manager().enc() + self.components_spec().enc()
    }

    open spec fn same(a: &DataHelper<C, M>, b: &DataHelper<C, M>) -> bool {
        &&& M::same(&a.services_spec(), &b.services_spec())
        &&& <EntityManager<C> as SaveData>::same(&a.manager(), &b.manager())
        &&& C::same(&a.components_spec(), &b.components_spec())
    }

    open spec fn dec_ok(data: Seq<u8>) -> bool {
        &&& M::dec_ok(data)
        &&& <EntityManager<C> as SaveData>::dec_ok(data.skip(M::dec_len(data)))
        &&& C::dec_ok(
            data.skip(
                M::dec_len(data) + <EntityManager<C> as SaveData>::dec_len(
                    data.skip(M::dec_len(data)),
                ),
            ),
        )
    }

    open spec fn dec_len(data: Seq<u8>) -> int {
        let l1 = M::dec_len(data);
        let l2 = <EntityManager<C> as SaveData>::dec_len(data.skip(l1));
        l1 + l2 + C::dec_len(data.skip(l1 + l2))
    }

    proof fn lemma_enc_parses(&self, rest: Seq<u8>)
    {
        let a = self.services_spec().enc();
        let b = self.manager().enc();
        let c = self.components_spec().enc();
        let whole = self.enc() + rest;
        assert(whole =~= a + (b + (c + rest)));
        self.services_spec().lemma_enc_parses(b + (c + rest));
        assert(M::dec_len(whole) == a.len());
        assert(whole.skip(a.len() as int) =~= b + (c + rest));
        self.manager().lemma_enc_parses(c + rest);
        assert(whole.skip(a.len() as int).skip(b.len() as int) =~= c + rest);
        assert(whole.skip(a.len() as int + b.len() as int) =~= c + rest);
        self.components_spec().lemma_enc_parses(rest);
        assert(Self::dec_len(whole) == self.enc().len());
    }

    proof fn lemma_dec_len_bounds(data: Seq<u8>)
    {
        if Self::dec_ok(data) {
            M::lemma_dec_len_bounds(data);
            let l1 = M::dec_len(data);
            <EntityManager<C> as SaveData>::lemma_dec_len_bounds(data.skip(l1));
            let l2 = <EntityManager<C> as SaveData>::dec_len(data.skip(l1));
            C::lemma_dec_len_bounds(data.skip(l1 + l2));
        }
    }

    fn write_data(&self, out: &mut Vec<u8>)
    {
        self.services.write_data(out);
        self.entities.write_data(out);
        self.components.write_data(out);
        proof {
            assert(final(out)@ =~= old(out)@ + self.enc());
        }
    }

    #[verifier::rlimit(100)]
    fn read_data(data: &Vec<u8>, pos: &mut usize) -> (r: Option<DataHelper<C, M>>)
    {
        let start = *pos;
        let ghost t0 = data@.skip(start as int);
        let services = match M::read_data(data, pos) {
            Some(s) => s,
            None => {
                return None;
            },
        };
        proof {
            assert(M::dec_ok(t0));
            M::lemma_dec_len_bounds(t0);
            assert(data@.skip(*pos as int) =~= t0.skip(M::dec_len(t0)));
        }
        let entities = match EntityManager::<C>::read_data(data, pos) {
            Some(e) => e,
            None => {
                *pos = start;
                return None;
            },
        };
        let ghost l1 = M::dec_len(t0);
        let ghost l2 = <EntityManager<C> as SaveData>::dec_len(t0.skip(l1));
        proof {
            M::lemma_dec_len_bounds(t0);
            <EntityManager<C> as SaveData>::lemma_dec_len_bounds(t0.skip(l1));
            assert(*pos == start + l1 + l2);
            assert(data@.skip(*pos as int) =~= t0.skip(l1 + l2));
        }
        let components = match C::read_data(data, pos) {
            Some(c) => c,
            None => {
                *pos = start;
                return None;
            },
        };
        let r = DataHelper { components, services, entities, event_queue: Vec::new() };
        proof {
            assert(r.queue() =~= Seq::<Event>::empty());
            assert(r.wf());
            assert forall|x: DataHelper<C, M>|
                x.savable() && begins_with(t0, (#[trigger] x.enc())) implies Self::same(
                &r,
                &x,
            ) by {
                let a = x.services_spec().enc();
                let b = x.manager().enc();
                let c = x.components_spec().enc();
                assert(x.enc() =~= a + (b + (c + Seq::<u8>::empty())));
                assert(t0.take(x.enc().len() as int) == x.enc());
                assert(forall|k: int|
                    0 <= k < x.enc().len() ==> #[trigger] t0[k] == x.enc()[k]);
                assert(begins_with(t0, a)) by {
                    assert(forall|k: int| 0 <= k < a.len() ==> t0[k] == x.enc()[k]);
                    assert(t0.take(a.len() as int) =~= a);
                }
                x.services_spec().lemma_enc_parses(
                    b + (c + t0.skip(x.enc().len() as int)),
                );
                assert(t0 =~= a + (b + (c + t0.skip(x.enc().len() as int))));
                assert(l1 == a.len());
                assert(begins_with(t0.skip(l1), b)) by {
                    assert(forall|k: int| 0 <= k < b.len() ==> t0.skip(l1)[k] == x.enc()[l1 + k]);
                    assert(t0.skip(l1).take(b.len() as int) =~= b);
                }
                x.manager().lemma_enc_parses(c + t0.skip(x.enc().len() as int));
                assert(t0.skip(l1) =~= b + (c + t0.skip(x.enc().len() as int)));
                assert(l2 == b.len());
                assert(begins_with(t0.skip(l1 + l2), c)) by {
                    assert(forall|k: int|
                        0 <= k < c.len() ==> #[trigger] t0.skip(l1 + l2)[k] == x.enc()[l1 + l2
                            + k]);
                    assert(t0.skip(l1 + l2).take(c.len() as int) =~= c);
                }
            }
        }
        Some(r)
    }
}

impl<C: ComponentManager + SaveData, M: ServiceManager + SaveData> DataHelper<C, M> {
    /// Serializes the shared data: the service bundle, the full entity
    /// manager state, and every component list with its variant
    /// discriminator.  Refuses while the deferred event queue is
    /// non-empty: unflushed events are a reportable error at serialization
    /// time.
    pub fn save_bytes(&self) -> (r: Result<Vec<u8>, SaveError>)
        requires
            self.wf(),
            self.services_spec().savable(),
            self.components_spec().savable(),
        ensures
            r matches Ok(bytes) ==> self.queue().len() == 0 && bytes@ == self.enc(),
            r matches Err(e) ==> self.queue().len() > 0 && e == SaveError::PendingEvents,
            r is Ok <==> self.queue().len() == 0,
    {
        if self.event_queue.len() != 0 {
            Err(SaveError::PendingEvents)
        } else {
            let mut out: Vec<u8> = Vec::new();
            self.write_data(&mut out);
            proof {
                assert(out@ =~= self.enc());
            }
            Ok(out)
        }
    }
}

/// The capability contract of a user-supplied system bundle: one struct
/// holding the registered systems, notified in declaration order.  The
/// bundle may mutate the services during notifications, and anything at all
/// during `__update`, except that it must leave the shared data well
/// formed — which the data's own mutation primitives guarantee.
pub trait SystemManager: Sized {
    type Components: ComponentManager;
    type Services: ServiceManager;

    /// Builds the bundle with every registered system in its initial
    /// state.
    fn __new() -> Self;

    /// Tells every system, in declaration order, that an entity was built.
    fn __activated(
        &mut self,
        e: EntityData<'_, Self::Components>,
        c: &Self::Components,
        s: &mut Self::Services,
    );

    /// Tells every system, in declaration order, that an entity's
    /// components changed.
    fn __reactivated(
        &mut self,
        e: EntityData<'_, Self::Components>,
        c: &Self::Components,
        s: &mut Self::Services,
    );

    /// Tells every system, in declaration order, that an entity is being
    /// removed; its components are still present.
    fn __deactivated(
        &mut self,
        e: EntityData<'_, Self::Components>,
        c: &Self::Components,
        s: &mut Self::Services,
    );

    /// Drives every active system's processing step, in declaration order.
    fn __update(&mut self, data: &mut DataHelper<Self::Components, Self::Services>)
        ensures
            old(data).wf() ==> final(data).wf(),
    ;
}

/// The orchestrator: owns the system bundle and the shared data, runs the
/// deferred event queue, and drives the systems through logical ticks.
pub struct World<S: SystemManager> {
    pub systems: S,
    pub data: DataHelper<S::Components, S::Services>,
    notices: Ghost<Seq<Notice>>,
}

impl<S: SystemManager> World<S> {
    /// Every notification step the world has taken, oldest first.
    pub closed spec fn log(&self) -> Seq<Notice> {
        self.notices@
    }

    /// The shared data, as a specification value.
    pub closed spec fn state(&self) -> DataHelper<S::Components, S::Services> {
        self.data
    }

    /// The world is well formed when its shared data is.
    pub open spec fn wf(&self) -> bool {
        self.state().wf()
    }

    /// Builds a world with no entities and no components attached,
    /// services taken from their default.
    pub fn new() -> (r: World<S>) where S::Services: Default
        ensures
            r.wf(),
            r.state().manager().counter() == 0,
            r.state().manager().table() =~= Map::<u64, IndexedEntity<S::Components>>::empty(),
            forall|t: u64, i: usize| !r.state().components_spec().spec_has(t, i),
            r.state().queue() =~= Seq::<Event>::empty(),
            r.log() =~= Seq::<Notice>::empty(),
    {
        World {
            systems: S::__new(),
            data: DataHelper {
                components: <S::Components as ComponentManager>::__new(),
                services: <S::Services as Default>::default(),
                entities: EntityManager::new(),
                event_queue: Vec::new(),
            },
            notices: Ghost(Seq::empty()),
        }
    }

    /// Builds a world with no entities and no components attached, around
    /// an explicit service bundle, which is moved in unchanged.
    pub fn with_services(services: S::Services) -> (r: World<S>)
        ensures
            r.wf(),
            r.state().manager().counter() == 0,
            r.state().manager().table() =~= Map::<u64, IndexedEntity<S::Components>>::empty(),
            forall|t: u64, i: usize| !r.state().components_spec().spec_has(t, i),
            r.state().services_spec() == services,
            r.state().queue() =~= Seq::<Event>::empty(),
            r.log() =~= Seq::<Notice>::empty(),
    {
        World {
            systems: S::__new(),
            data: DataHelper {
                components: <S::Components as ComponentManager>::__new(),
                services,
                entities: EntityManager::new(),
                event_queue: Vec::new(),
            },
            notices: Ghost(Seq::empty()),
        }
    }

    /// A walk over the live entities, in increasing identity order.
    pub fn entities(&self) -> (r: EntityIter<S::Components>)
        requires
            self.wf(),
        ensures
            r.position() == 0,
            self.state().manager().lists_live(r.items_view()),
    {
        self.data.entities.iter()
    }

    /// Applies the modifier's component writes synchronously, then at once
    /// runs the reactivation leg of every system's state machine: changes
    /// take effect immediately, unlike creation and removal.
    pub fn modify_entity<M: EntityModifier<S::Components>>(&mut self, entity: Entity, modifier: M)
        requires
            old(self).wf(),
            old(self).state().manager().valid_view(entity@),
        ensures
            final(self).wf(),
            final(self).state().manager() == old(self).state().manager(),
            final(self).state().queue() == old(self).state().queue(),
            final(self).log() == old(self).log().push(Notice::Reactivated(entity@)),
    {
        let ie = self.data.entities.indexed(&entity).__clone();
        modifier.modify(ModifyData::make(&ie), &mut self.data.components);
        self.notices = Ghost(self.notices@.push(Notice::Reactivated(entity@)));
        self.systems.__reactivated(
            EntityData::make(&ie),
            &self.data.components,
            &mut self.data.services,
        );
    }

    /// Drains the event queue in first-in-first-out order.  Each build event
    /// fires `activated` across the systems; each remove event fires
    /// `deactivated` while the entity's components are still present, then
    /// clears every component type's entry for it, then releases its
    /// identity and recycles its index.
    pub fn flush_queue(&mut self)
        requires
            old(self).wf(),
        ensures
            final(self).wf(),
            ({
                let pre = old(self).state();
                let post = final(self).state();
                &&& post.queue() =~= Seq::<Event>::empty()
                &&& post.manager().counter() == pre.manager().counter()
                &&& forall|id: u64|
                    #[trigger] post.manager().valid_view(id) <==> survives(
                        pre.manager(),
                        pre.queue(),
                        id,
                    )
                &&& forall|id: u64|
                    #[trigger] post.manager().valid_view(id) ==> post.manager().table()[id]
                        == pre.manager().table()[id]
                &&& forall|t: u64, x: usize|
                    #[trigger] post.components_spec().spec_has(t, x) <==> (
                    pre.components_spec().spec_has(t, x) && !removed_index(
                        pre.manager(),
                        pre.queue(),
                        x,
                    ))
            }),
            old(self).state().queue().len() == 0 ==> {
                &&& final(self).state().manager() == old(self).state().manager()
                &&& final(self).state().components_spec() == old(self).state().components_spec()
            },
            final(self).log() =~= old(self).log() + flush_notices(old(self).state().queue()),
    {
        let mut events: Vec<Event> = Vec::new();
        core::mem::swap(&mut self.data.event_queue, &mut events);
        let ghost q0 = events@;
        let ghost m0 = old(self).data.manager();
        let ghost c0 = old(self).data.components;
        let ghost log0 = old(self).log();
        let mut i: usize = 0;
        while i < events.len()
            invariant
                events@ == q0,
                i <= q0.len(),
                self.data.queue() =~= Seq::<Event>::empty(),
                self.data.manager().wf(),
                self.data.manager().counter() == m0.counter(),
                forall|j: int|
                    0 <= j < q0.len() ==> m0.valid_view((#[trigger] q0[j]).subject()@),
                forall|a: int, b: int|
                    #![trigger q0[a], q0[b]]
                    0 <= a < b < q0.len() && q0[a] is RemoveEntity && q0[b] is RemoveEntity
                        ==> q0[a].subject()@ != q0[b].subject()@,
                forall|a: int, b: int|
                    #![trigger q0[a], q0[b]]
                    0 <= a < q0.len() && 0 <= b < q0.len() && q0[a] is BuildEntity && q0[b]
                        is RemoveEntity && q0[a].subject()@ == q0[b].subject()@ ==> a < b,
                forall|id: u64|
                    #[trigger] self.data.manager().valid_view(id) <==> survives(
                        m0,
                        q0.take(i as int),
                        id,
                    ),
                forall|id: u64|
                    #[trigger] self.data.manager().valid_view(id) ==> self.data.manager().table()[id]
                        == m0.table()[id],
                forall|t: u64, x: usize|
                    #[trigger] self.data.components.spec_has(t, x) <==> (c0.spec_has(t, x)
                        && !removed_index(m0, q0.take(i as int), x)),
                q0.len() == 0 ==> (self.data.manager() == m0 && self.data.components == c0),
                self.log() =~= log0 + flush_notices(q0.take(i as int)),
            decreases q0.len() - i,
        {
            let ghost qi = q0.take(i as int);
            let ev = events[i];
            proof {
                lemma_removes_id_step(q0, i as int, ev.subject()@);
                assert(q0[i as int] == ev);
                assert(!removes_id(qi, ev.subject()@)) by {
                    if removes_id(qi, ev.subject()@) {
                        let w = choose|w: int|
                            0 <= w < qi.len() && qi[w] is RemoveEntity && qi[w].subject()@
                                == ev.subject()@;
                        assert(q0[w] is RemoveEntity && q0[w].subject()@ == ev.subject()@);
                    }
                }
                assert(survives(m0, qi, ev.subject()@));
                assert(self.data.manager().valid_view(ev.subject()@));
            }
            match ev {
                Event::BuildEntity(entity) => {
                    let ie = self.data.entities.indexed(&entity).__clone();
                    self.notices = Ghost(self.notices@.push(Notice::Activated(entity@)));
                    self.systems.__activated(
                        EntityData::make(&ie),
                        &self.data.components,
                        &mut self.data.services,
                    );
                    proof {
                        lemma_flush_notices_step(q0, i as int);
                        assert forall|id: u64|
                            #[trigger] self.data.manager().valid_view(id) <==> survives(
                            m0,
                            q0.take(i + 1),
                            id,
                        ) by {
                            lemma_removes_id_step(q0, i as int, id);
                        }
                        assert forall|t: u64, x: usize|
                            #[trigger] self.data.components.spec_has(t, x) <==> (c0.spec_has(t, x)
                                && !removed_index(m0, q0.take(i + 1), x)) by {
                            lemma_removed_index_step(m0, q0, i as int, x);
                        }
                    }
                },
                Event::RemoveEntity(entity) => {
                    let ie = self.data.entities.indexed(&entity).__clone();
                    self.notices = Ghost(self.notices@.push(Notice::Deactivated(entity@)));
                    self.systems.__deactivated(
                        EntityData::make(&ie),
                        &self.data.components,
                        &mut self.data.services,
                    );
                    let ghost cpre = self.data.components;
                    self.data.components.__remove_all(&ie);
                    self.notices = Ghost(self.notices@.push(Notice::Cleared(entity@)));
                    let ghost mprev = self.data.manager();
                    self.data.entities.remove(&entity);
                    proof {
                        lemma_flush_notices_step(q0, i as int);
                        assert(ie.dense_index() == m0.index_of(entity@));
                        assert(self.data.manager().table() == mprev.table().remove(entity@));
                        assert forall|id: u64|
                            #[trigger] self.data.manager().valid_view(id) <==> survives(
                            m0,
                            q0.take(i + 1),
                            id,
                        ) by {
                            lemma_removes_id_step(q0, i as int, id);
                            assert(mprev.valid_view(id) <==> survives(m0, qi, id));
                            if id != entity@ {
                                assert(self.data.manager().valid_view(id) == mprev.valid_view(id));
                            } else {
                                assert(!self.data.manager().valid_view(id));
                            }
                        }
                        assert forall|id: u64|
                            #[trigger] self.data.manager().valid_view(id)
                                implies self.data.manager().table()[id] == m0.table()[id] by {
                            assert(id != entity@);
                            assert(mprev.valid_view(id));
                            assert(self.data.manager().table()[id] == mprev.table()[id]);
                        }
                        assert forall|t: u64, x: usize|
                            #[trigger] self.data.components.spec_has(t, x) <==> (c0.spec_has(t, x)
                                && !removed_index(m0, q0.take(i + 1), x)) by {
                            lemma_removed_index_step(m0, q0, i as int, x);
                            if x == ie.dense_index() {
                                assert(!self.data.components.spec_has(t, x));
                                assert(removed_index(m0, q0.take(i + 1), x));
                            } else {
                                assert(self.data.components.spec_has(t, x) == cpre.spec_has(t, x));
                                assert(m0.index_of(entity@) != x);
                            }
                        }
                    }
                },
            }
            i += 1;
        }
        proof {
            assert(q0.take(q0.len() as int) =~= q0);
        }
    }

    /// Flushes the queue, then re-runs the reactivation leg for every live
    /// entity against every system, in increasing identity order; used
    /// after bulk external state changes to resynchronize interest sets.
    pub fn refresh(&mut self)
        requires
            old(self).wf(),
        ensures
            final(self).wf(),
            ({
                let pre = old(self).state();
                let post = final(self).state();
                &&& post.queue() =~= Seq::<Event>::empty()
                &&& forall|id: u64|
                    #[trigger] post.manager().valid_view(id) <==> survives(
                        pre.manager(),
                        pre.queue(),
                        id,
                    )
            }),
            old(self).state().queue().len() == 0 ==> {
                &&& final(self).state().manager() == old(self).state().manager()
                &&& final(self).state().components_spec() == old(self).state().components_spec()
            },
            exists|walked: Seq<IndexedEntity<S::Components>>|
                final(self).state().manager().lists_live(walked) && final(self).log() =~= old(self).log() + flush_notices(old(self).state().queue()) + walked.map_values(
                    |ie: IndexedEntity<S::Components>| Notice::Reactivated(ie.ident()@),
                ),
    {
        self.flush_queue();
        let ghost mid_log = self.log();
        let ghost m1 = self.data.manager();
        let ghost c1 = self.data.components;
        let items = self.data.entities.live_list();
        let ghost walked = items@;
        proof {
            assert(walked.take(0) =~= Seq::<IndexedEntity<S::Components>>::empty());
            assert(mid_log + walked.take(0).map_values(
                |ie: IndexedEntity<S::Components>| Notice::Reactivated(ie.ident()@),
            ) =~= mid_log);
        }
        let mut k: usize = 0;
        while k < items.len()
            invariant
                items@ == walked,
                k <= walked.len(),
                self.wf(),
                self.data.manager() == m1,
                self.data.components == c1,
                m1.lists_live(walked),
                self.data.queue() =~= Seq::<Event>::empty(),
                self.log() =~= mid_log + walked.take(k as int).map_values(
                    |ie: IndexedEntity<S::Components>| Notice::Reactivated(ie.ident()@),
                ),
            decreases walked.len() - k,
        {
            let ie = (&items[k]).__clone();
            self.notices = Ghost(self.notices@.push(Notice::Reactivated(ie.ident()@)));
            self.systems.__reactivated(
                EntityData::make(&ie),
                &self.data.components,
                &mut self.data.services,
            );
            proof {
                assert(walked.take(k + 1) =~= walked.take(k as int).push(walked[k as int]));
                assert(walked.take(k + 1).map_values(
                    |ie: IndexedEntity<S::Components>| Notice::Reactivated(ie.ident()@),
                ) =~= walked.take(k as int).map_values(
                    |ie: IndexedEntity<S::Components>| Notice::Reactivated(ie.ident()@),
                ).push(Notice::Reactivated(walked[k as int].ident()@)));
            }
            k += 1;
        }
        proof {
            assert(walked.take(walked.len() as int) =~= walked);
        }
    }


    /// Serializes the world: writes the service bundle, the entity
    /// manager, and the component storage.  The caller flushes first;
    /// serializing while deferred events are pending is refused, as their
    /// presence at save time is a reportable error.
    pub fn save(&self) -> (r: Result<Vec<u8>, SaveError>) where
        S::Components: SaveData,
        S::Services: SaveData,

        requires
            self.wf(),
            self.state().services_spec().savable(),
            self.state().components_spec().savable(),
        ensures
            r matches Ok(bytes) ==> self.state().queue().len() == 0 && bytes@
                == self.state().enc(),
            r is Ok <==> self.state().queue().len() == 0,
    {
        self.data.save_bytes()
    }

    /// Rebuilds a world from serialized state: reconstructs the services,
    /// the entity manager, and every component list with its original
    /// variant, then refreshes so that every system's interest set is
    /// resynchronized before use.  Parsing what `save` wrote yields the
    /// saved services, entities, and components back — the round trip —
    /// though systems may adjust the services while hearing the refresh.
    pub fn load(data: &Vec<u8>) -> (r: Option<World<S>>) where
        S::Components: SaveData,
        S::Services: SaveData,

        ensures
            r is Some <==> <DataHelper<S::Components, S::Services> as SaveData>::dec_ok(data@),
            r matches Some(w) ==> {
                &&& w.wf()
                &&& w.state().queue() =~= Seq::<Event>::empty()
                &&& forall|x: DataHelper<S::Components, S::Services>|
                    x.savable() && begins_with(data@, (#[trigger] x.enc())) ==> {
                        &&& <EntityManager<S::Components> as SaveData>::same(
                            &w.state().manager(),
                            &x.manager(),
                        )
                        &&& <S::Components as SaveData>::same(
                            &w.state().components_spec(),
                            &x.components_spec(),
                        )
                    }
            },
    {
        let mut pos: usize = 0;
        proof {
            assert(data@.skip(0) =~= data@);
        }
        let d = match DataHelper::<S::Components, S::Services>::read_data(data, &mut pos) {
            Some(d) => d,
            None => {
                return None;
            },
        };
        let mut world = World { systems: S::__new(), data: d, notices: Ghost(Seq::empty()) };
        world.refresh();
        Some(world)
    }

    /// One logical tick: flush, drive every active system's processing in
    /// declaration order, then flush again, so entities created or removed
    /// during processing are settled before the next tick.
    pub fn update(&mut self)
        requires
            old(self).wf(),
        ensures
            final(self).wf(),
            final(self).state().queue() =~= Seq::<Event>::empty(),
            exists|settled: Seq<Event>|
                final(self).log() =~= old(self).log() + flush_notices(old(self).state().queue())
                    + flush_notices(settled),
    {
        self.flush_queue();
        self.systems.__update(&mut self.data);
        let ghost settled = self.data.queue();
        self.flush_queue();
        proof {
            assert(final(self).log() =~= old(self).log() + flush_notices(
                old(self).state().queue(),
            ) + flush_notices(settled));
        }
    }
}

} // verus!
