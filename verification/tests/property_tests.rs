use ecs::manager::event::{QueueManager, StateManager};
use ecs::manager::group::GroupManager;
use ecs::manager::Manager;
use ecs::system::entity::{EntityProcess, EntitySystem};
use ecs::system::interact::{InteractProcess, InteractSystem};
use ecs::system::interval::IntervalSystem;
use ecs::EntityCall;
use ecs::{
    Aspect, BuildData, ComponentList, ComponentManager, DataHelper, EntityBuilder, EntityIter,
    EntityModifier, IndexedEntity, ModifyData, Process, SaveData, ServiceManager, System,
    SystemManager, World,
};

const MARKER: u64 = 0;
const VALUE: u64 = 1;

pub struct Parts {
    pub marker: ComponentList<Parts, u8>,
    pub value: ComponentList<Parts, u32>,
}

impl ComponentManager for Parts {
    fn __new() -> Parts {
        Parts { marker: ComponentList::hot(), value: ComponentList::cold() }
    }

    fn __remove_all(&mut self, entity: &IndexedEntity<Parts>) {
        self.marker.clear(entity);
        self.value.clear(entity);
    }

    fn spec_has(&self, _ctype: u64, _index: usize) -> bool {
        false
    }

    fn has_component(&self, ctype: u64, index: usize) -> bool {
        match ctype {
            MARKER => self.marker.has_index(index),
            VALUE => self.value.has_index(index),
            _ => false,
        }
    }
}

impl SaveData for Parts {
    // The trait's ghost members; erased by verification and never run.
    fn enc(&self) -> vstd::prelude::Seq<u8> {
        unreachable!()
    }

    fn savable(&self) -> bool {
        unreachable!()
    }

    fn same(_: &Self, _: &Self) -> bool {
        unreachable!()
    }

    fn dec_ok(_: vstd::prelude::Seq<u8>) -> bool {
        unreachable!()
    }

    fn dec_len(_: vstd::prelude::Seq<u8>) -> vstd::prelude::int {
        unreachable!()
    }

    fn lemma_enc_parses(&self, _: vstd::prelude::Seq<u8>) {}

    fn lemma_dec_len_bounds(_: vstd::prelude::Seq<u8>) {}

    fn write_data(&self, out: &mut Vec<u8>) {
        self.marker.write_data(out);
        self.value.write_data(out);
    }

    fn read_data(data: &Vec<u8>, pos: &mut usize) -> Option<Parts> {
        let marker = ComponentList::read_data(data, pos)?;
        let value = ComponentList::read_data(data, pos)?;
        Some(Parts { marker, value })
    }
}

#[derive(Default)]
pub struct Trace {
    pub activated: Vec<(u64, bool)>,
    pub deactivated: Vec<(u64, bool)>,
    pub order: Vec<String>,
    pub processed: u32,
}

impl ServiceManager for Trace {}

impl SaveData for Trace {
    // The trait's ghost members; erased by verification and never run.
    fn enc(&self) -> vstd::prelude::Seq<u8> {
        unreachable!()
    }

    fn savable(&self) -> bool {
        unreachable!()
    }

    fn same(_: &Self, _: &Self) -> bool {
        unreachable!()
    }

    fn dec_ok(_: vstd::prelude::Seq<u8>) -> bool {
        unreachable!()
    }

    fn dec_len(_: vstd::prelude::Seq<u8>) -> vstd::prelude::int {
        unreachable!()
    }

    fn lemma_enc_parses(&self, _: vstd::prelude::Seq<u8>) {}

    fn lemma_dec_len_bounds(_: vstd::prelude::Seq<u8>) {}

    fn write_data(&self, out: &mut Vec<u8>) {
        self.processed.write_data(out);
    }

    fn read_data(data: &Vec<u8>, pos: &mut usize) -> Option<Trace> {
        let processed = u32::read_data(data, pos)?;
        Some(Trace { processed, ..Default::default() })
    }
}

pub type PartsData = DataHelper<Parts, Trace>;

/// Records every lifecycle hook it hears, together with whether the
/// entity's marker component was present at that moment.
pub struct Recorder;

impl System for Recorder {
    type Components = Parts;
    type Services = Trace;

    fn activated(&mut self, e: &ecs::EntityData<'_, Parts>, c: &Parts, s: &mut Trace) {
        let ie = ecs::EditData::edit_entity(e);
        s.activated.push((ie.entity().id(), c.marker.has(ie)));
        s.order.push(format!("activated {}", ie.entity().id()));
    }

    fn deactivated(&mut self, e: &ecs::EntityData<'_, Parts>, c: &Parts, s: &mut Trace) {
        let ie = ecs::EditData::edit_entity(e);
        s.deactivated.push((ie.entity().id(), c.marker.has(ie)));
        s.order.push(format!("deactivated {}", ie.entity().id()));
    }
}

impl EntityProcess for Recorder {
    fn process(&mut self, _en: EntityIter<Parts>, co: &mut PartsData) {
        co.services.processed += 1;
    }
}

pub struct Counting;

impl System for Counting {
    type Components = Parts;
    type Services = Trace;
}

impl Process for Counting {
    fn process(&mut self, data: &mut PartsData) {
        data.services.processed += 1;
    }
}

pub struct Wrapped {
    pub tracker: EntitySystem<Recorder>,
    pub gated: IntervalSystem<Counting>,
}

impl SystemManager for Wrapped {
    type Components = Parts;
    type Services = Trace;

    fn __new() -> Wrapped {
        Wrapped {
            tracker: EntitySystem::new(Recorder, Aspect::new(vec![MARKER], vec![])),
            gated: IntervalSystem::new(Counting, 3),
        }
    }

    fn __activated(&mut self, e: ecs::EntityData<'_, Parts>, c: &Parts, s: &mut Trace) {
        self.tracker.activated(&e, c, s);
        self.gated.activated(&e, c, s);
    }

    fn __reactivated(&mut self, e: ecs::EntityData<'_, Parts>, c: &Parts, s: &mut Trace) {
        self.tracker.reactivated(&e, c, s);
        self.gated.reactivated(&e, c, s);
    }

    fn __deactivated(&mut self, e: ecs::EntityData<'_, Parts>, c: &Parts, s: &mut Trace) {
        self.tracker.deactivated(&e, c, s);
        self.gated.deactivated(&e, c, s);
    }

    fn __update(&mut self, data: &mut PartsData) {
        if self.gated.is_active() {
            self.gated.process(data);
        }
    }
}

pub struct WithMarker(pub u8);

impl EntityBuilder<Parts> for WithMarker {
    fn build(self, e: BuildData<'_, Parts>, c: &mut Parts) {
        c.marker.add(&e, self.0);
    }
}

pub struct Bare;

impl EntityBuilder<Parts> for Bare {
    fn build(self, _e: BuildData<'_, Parts>, _c: &mut Parts) {}
}

pub struct DropMarker;

impl EntityModifier<Parts> for DropMarker {
    fn modify(self, e: ModifyData<'_, Parts>, c: &mut Parts) {
        c.marker.remove(&e);
    }
}

#[test]
fn index_recycling_never_aliases() {
    // Indices of simultaneously live entities stay distinct through churn,
    // and freed indices are reused newest first.
    let mut world = World::<Wrapped>::new();
    let a = world.data.create_entity(Bare);
    let b = world.data.create_entity(Bare);
    let c = world.data.create_entity(Bare);
    world.flush_queue();
    let mut seen: Vec<usize> = Vec::new();
    let mut it = world.entities();
    while let Some(e) = it.next() {
        assert!(!seen.contains(&e.index()));
        seen.push(e.index());
    }
    assert_eq!(seen.len(), 3);

    world.data.remove_entity(b);
    world.flush_queue();
    let d = world.data.create_entity(Bare);
    world.flush_queue();
    let mut indices: Vec<(u64, usize)> = Vec::new();
    let mut it2 = world.entities();
    while let Some(e) = it2.next() {
        indices.push((e.entity().id(), e.index()));
    }
    assert_eq!(indices.len(), 3);
    for i in 0..indices.len() {
        for j in 0..indices.len() {
            if i != j {
                assert_ne!(indices[i].1, indices[j].1);
            }
        }
    }
    // The most recently recycled index is handed out again.
    let b_index = 1usize;
    assert!(indices.contains(&(d.id(), b_index)));
    let _ = (a, c);
}

#[test]
fn entity_identity_never_repeats() {
    // Creating, removing, and creating again always yields fresh
    // identities, even though dense indices are reused.
    let mut world = World::<Wrapped>::new();
    let mut ids: Vec<u64> = Vec::new();
    for _ in 0..4 {
        ids.push(world.data.create_entity(Bare).id());
    }
    world.flush_queue();
    let first = ids[0];
    let second = ids[2];
    let mut it = world.entities();
    let mut victims: Vec<ecs::Entity> = Vec::new();
    while let Some(e) = it.next() {
        if e.entity().id() == first || e.entity().id() == second {
            victims.push(*e.entity());
        }
    }
    for v in victims {
        world.data.remove_entity(v);
    }
    world.flush_queue();
    for _ in 0..3 {
        ids.push(world.data.create_entity(Bare).id());
    }
    world.flush_queue();
    for i in 0..ids.len() {
        for j in 0..ids.len() {
            if i != j {
                assert_ne!(ids[i], ids[j]);
            }
        }
    }
    assert_eq!(ids.len(), 7);
}

#[test]
fn aspect_matches_required_and_forbidden_sets() {
    // `check` answers true exactly when every `all` type is present and no
    // `none` type is, across a population of every presence combination.
    let mut world = World::<Wrapped>::new();
    let mut entities = Vec::new();
    for has_marker in [false, true] {
        for has_value in [false, true] {
            let e = if has_marker {
                world.data.create_entity(WithMarker(1))
            } else {
                world.data.create_entity(Bare)
            };
            entities.push((e, has_marker, has_value));
        }
    }
    world.flush_queue();
    struct AddValue;
    impl EntityModifier<Parts> for AddValue {
        fn modify(self, e: ModifyData<'_, Parts>, c: &mut Parts) {
            c.value.insert(&e, 9);
        }
    }
    for (e, _, has_value) in &entities {
        if *has_value {
            world.modify_entity(*e, AddValue);
        }
    }
    let aspect: Aspect<Parts> = Aspect::new(vec![MARKER], vec![VALUE]);
    for (e, has_marker, has_value) in &entities {
        let mut it = world.entities();
        while let Some(ie) = it.next() {
            if ie.entity().id() == e.id() {
                let mut single = world
                    .entities()
                    .filter(Aspect::new(vec![MARKER], vec![VALUE]), &world.data.components);
                let mut found = false;
                while let Some(m) = single.next() {
                    if m.entity().id() == e.id() {
                        found = true;
                    }
                }
                assert_eq!(found, *has_marker && !*has_value);
            }
        }
    }
    let _ = aspect;
}

#[test]
fn interest_set_converges_after_reactivation() {
    // After any sequence of component changes followed by a reactivation,
    // the entity sits in the interest set exactly when its shape matches.
    let mut world = World::<Wrapped>::new();
    let e = world.data.create_entity(Bare);
    world.flush_queue();
    assert!(!world.systems.tracker.interested_in(e.id()));

    struct AddMarker;
    impl EntityModifier<Parts> for AddMarker {
        fn modify(self, m: ModifyData<'_, Parts>, c: &mut Parts) {
            c.marker.insert(&m, 7);
        }
    }
    world.modify_entity(e, AddMarker);
    assert!(world.systems.tracker.interested_in(e.id()));

    world.modify_entity(e, DropMarker);
    assert!(!world.systems.tracker.interested_in(e.id()));

    world.modify_entity(e, AddMarker);
    assert!(world.systems.tracker.interested_in(e.id()));
}

#[test]
fn deferred_build_then_remove_notifies_in_order() {
    // An entity created and removed before one flush still hears both
    // notifications, in order, with its components present both times.
    let mut world = World::<Wrapped>::new();
    let e = world.data.create_entity(WithMarker(5));
    world.data.remove_entity(e);
    world.flush_queue();

    let trace = &world.data.services;
    assert_eq!(trace.activated, vec![(e.id(), true)]);
    assert_eq!(trace.deactivated, vec![(e.id(), true)]);
    assert_eq!(
        trace.order,
        vec![format!("activated {}", e.id()), format!("deactivated {}", e.id())]
    );
    // After the flush the entity and its components are gone.
    assert!(!world.systems.tracker.interested_in(e.id()));
    let mut it = world.entities();
    assert!(it.next().is_none());
}

#[test]
fn world_round_trip_preserves_state() {
    // Serialize a populated, flushed world; deserialize it; the entity
    // set, per-entity component values, and service state all survive.
    let mut world = World::<Wrapped>::new();
    let a = world.data.create_entity(WithMarker(3));
    let b = world.data.create_entity(Bare);
    world.flush_queue();
    struct AddValue;
    impl EntityModifier<Parts> for AddValue {
        fn modify(self, e: ModifyData<'_, Parts>, c: &mut Parts) {
            c.value.insert(&e, 41);
        }
    }
    world.modify_entity(b, AddValue);
    world.data.services.processed = 8;

    let bytes = world.save().unwrap();
    let world2: World<Wrapped> = World::load(&bytes).unwrap();

    let mut ids = Vec::new();
    let mut it = world2.entities();
    while let Some(e) = it.next() {
        ids.push(e.entity().id());
        if e.entity().id() == a.id() {
            assert_eq!(world2.data.components.marker.get(&e), Some(3));
            assert_eq!(world2.data.components.value.get(&e), None);
        } else {
            assert_eq!(world2.data.components.marker.get(&e), None);
            assert_eq!(world2.data.components.value.get(&e), Some(41));
        }
    }
    ids.sort();
    assert_eq!(ids, vec![a.id(), b.id()]);
    assert_eq!(world2.data.services.processed, 8);
    // The refreshed interest sets match the loaded component state.
    assert!(world2.systems.tracker.interested_in(a.id()));
    assert!(!world2.systems.tracker.interested_in(b.id()));
}

#[test]
fn saving_with_pending_events_is_refused() {
    let mut world = World::<Wrapped>::new();
    world.data.create_entity(Bare);
    assert_eq!(world.save(), Err(ecs::SaveError::PendingEvents));
    world.flush_queue();
    assert!(world.save().is_ok());
}

#[test]
fn single_interest_scenario() {
    // Create an entity whose shape matches; after the flush the system
    // lists it; removing the component and reactivating drops it, firing
    // `deactivated` exactly once.
    let mut world = World::<Wrapped>::new();
    let e = world.data.create_entity(WithMarker(1));
    world.flush_queue();
    assert!(world.systems.tracker.interested_in(e.id()));
    assert_eq!(world.data.services.activated, vec![(e.id(), true)]);

    world.modify_entity(e, DropMarker);
    assert!(!world.systems.tracker.interested_in(e.id()));
    assert_eq!(world.data.services.deactivated.len(), 1);

    // A second reactivation with the component still absent fires nothing.
    struct Nothing;
    impl EntityModifier<Parts> for Nothing {
        fn modify(self, _e: ModifyData<'_, Parts>, _c: &mut Parts) {}
    }
    world.modify_entity(e, Nothing);
    assert_eq!(world.data.services.deactivated.len(), 1);
}

#[test]
fn interval_system_fires_on_the_third_tick_only() {
    // With a threshold of three, five updates forward exactly one process
    // call, on the third tick.
    let mut world = World::<Wrapped>::new();
    let mut fired_at = Vec::new();
    for tick in 1..=5 {
        world.update();
        if world.data.services.processed == 1 && fired_at.is_empty() {
            fired_at.push(tick);
        }
    }
    assert_eq!(world.data.services.processed, 1);
    assert_eq!(fired_at, vec![3]);
}

#[test]
fn codec_primitives_round_trip() {
    let mut out: Vec<u8> = Vec::new();
    0x0123_4567_89ab_cdefu64.write_data(&mut out);
    7u8.write_data(&mut out);
    0xdead_beefu32.write_data(&mut out);
    42usize.write_data(&mut out);
    let mut pos = 0usize;
    assert_eq!(u64::read_data(&out, &mut pos), Some(0x0123_4567_89ab_cdefu64));
    assert_eq!(u8::read_data(&out, &mut pos), Some(7));
    assert_eq!(u32::read_data(&out, &mut pos), Some(0xdead_beefu32));
    assert_eq!(usize::read_data(&out, &mut pos), Some(42));
    assert_eq!(pos, out.len());
    // A truncated stream refuses to parse and leaves the position alone.
    let short = vec![1u8, 2u8];
    let mut pos2 = 0usize;
    assert_eq!(u64::read_data(&short, &mut pos2), None);
    assert_eq!(pos2, 0);
}

#[test]
fn state_manager_stores_and_clears() {
    let mut states: StateManager<u32, &'static str> = StateManager::new();
    assert_eq!(states.set(1, "one"), None);
    assert_eq!(states.set(1, "uno"), Some("one"));
    assert_eq!(states.get(&1), Some(&"uno"));
    assert_eq!(states.get(&2), None);
    assert_eq!(states.clear(&1), Some("uno"));
    assert_eq!(states.get(&1), None);
    states.set(3, "three");
    states.clear_all();
    assert_eq!(states.get(&3), None);
}

#[test]
fn queue_manager_is_first_in_first_out() {
    let mut queue: QueueManager<u32> = QueueManager::new();
    assert!(queue.is_empty());
    queue.push(10);
    queue.push(20);
    assert_eq!(queue.peek(), Some(&10));
    if let Some(front) = queue.modify() {
        *front = 11;
    }
    assert_eq!(queue.pop(), Some(11));
    assert_eq!(queue.pop(), Some(20));
    assert_eq!(queue.pop(), None);
}

#[test]
fn group_manager_prunes_deactivated_entities() {
    let mut world = World::<Wrapped>::new();
    let a = world.data.create_entity(Bare);
    let b = world.data.create_entity(Bare);
    world.flush_queue();
    let mut groups: GroupManager<u32> = GroupManager::new();
    groups.create(7);
    groups.create(7);
    assert!(groups.get(&7).is_some());
    assert!(groups.get(&8).is_none());
    // Groups hold entities; deactivation prunes them everywhere.
    let mut grabbed: Vec<ecs::Entity> = Vec::new();
    let mut it = world.entities();
    while let Some(e) = it.next() {
        grabbed.push(*e.entity());
    }
    let taken = groups.delete(&7).unwrap();
    assert!(taken.is_empty());
    groups.create(9);
    let _ = (a, b, grabbed);
    Manager::deactivated(&mut groups, &ecs::Entity::nil());
    assert!(groups.get(&9).unwrap().is_empty());
}

/// Counts pairings between the two interest sets.
pub struct Pairwise;

impl System for Pairwise {
    type Components = Parts;
    type Services = Trace;
}

impl InteractProcess for Pairwise {
    fn process(
        &mut self,
        mut first: EntityIter<Parts>,
        mut second: EntityIter<Parts>,
        co: &mut PartsData,
    ) {
        let mut count = 0u32;
        while let Some(_a) = first.next() {
            count += 1;
        }
        while let Some(_b) = second.next() {
            count += 1;
        }
        co.services.processed += count;
    }
}

#[test]
fn dual_interest_sets_run_independently() {
    // The dual wrapper keeps two interest sets, one per aspect, and both
    // converge independently on every notification.
    let mut world = World::<Wrapped>::new();
    let marked = world.data.create_entity(WithMarker(1));
    let bare = world.data.create_entity(Bare);
    world.flush_queue();
    struct AddValue;
    impl EntityModifier<Parts> for AddValue {
        fn modify(self, e: ModifyData<'_, Parts>, c: &mut Parts) {
            c.value.insert(&e, 1);
        }
    }
    world.modify_entity(bare, AddValue);

    let mut duo: InteractSystem<Pairwise> = InteractSystem::new(
        Pairwise,
        Aspect::new(vec![MARKER], vec![]),
        Aspect::new(vec![VALUE], vec![]),
    );
    // Drive the wrapper by hand with reactivation notifications.
    let mut it = world.entities();
    let mut worklist: Vec<ecs::Entity> = Vec::new();
    while let Some(e) = it.next() {
        worklist.push(*e.entity());
    }
    struct Feed<'a>(&'a mut InteractSystem<Pairwise>);
    impl<'a> EntityCall<Parts, ()> for Feed<'a> {
        fn call(self, e: ecs::EntityData<'_, Parts>, c: &mut Parts) {
            let mut trace = Trace::default();
            self.0.reactivated(&e, c, &mut trace);
        }
    }
    for e in worklist {
        world.data.with_entity_data(&e, Feed(&mut duo));
    }
    assert!(duo.first_has(marked.id()));
    assert!(!duo.first_has(bare.id()));
    assert!(duo.second_has(bare.id()));
    assert!(!duo.second_has(marked.id()));
}

#[test]
fn with_entity_data_runs_only_for_live_entities() {
    let mut world = World::<Wrapped>::new();
    let e = world.data.create_entity(WithMarker(9));
    world.flush_queue();
    struct ReadMarker;
    impl EntityCall<Parts, Option<u8>> for ReadMarker {
        fn call(self, en: ecs::EntityData<'_, Parts>, c: &mut Parts) -> Option<u8> {
            let ie = ecs::EditData::edit_entity(&en);
            c.marker.get(ie)
        }
    }
    assert_eq!(world.data.with_entity_data(&e, ReadMarker), Some(Some(9)));
    world.data.remove_entity(e);
    world.flush_queue();
    assert_eq!(world.data.with_entity_data(&e, ReadMarker), None);
}

#[test]
fn borrow_edits_components_in_place() {
    // A mutable borrow writes through to the stored component, in both the
    // hot and the cold storage variants.
    let mut world = World::<Wrapped>::new();
    let e = world.data.create_entity(WithMarker(1));
    world.flush_queue();
    struct Bump;
    impl EntityModifier<Parts> for Bump {
        fn modify(self, m: ModifyData<'_, Parts>, c: &mut Parts) {
            c.value.insert(&m, 5);
            if let Some(v) = c.marker.borrow(&m) {
                *v += 1;
            }
            if let Some(v) = c.value.borrow(&m) {
                *v += 10;
            }
            assert_eq!(c.marker.get(&m), Some(2));
            assert_eq!(c.value.get(&m), Some(15));
            *c.value.index_mut(&m) += 1;
            assert_eq!(c.value.get(&m), Some(16));
        }
    }
    world.modify_entity(e, Bump);
    let _ = e;
}

#[test]
fn counts_track_live_entities() {
    let mut world = World::<Wrapped>::new();
    assert_eq!(ecs::Entity::nil().id(), 0);
    assert_eq!(ecs::Entity::default(), ecs::Entity::nil());
    let a = world.data.create_entity(Bare);
    let _b = world.data.create_entity(Bare);
    world.flush_queue();
    let mut n = 0;
    let mut it = world.entities();
    while let Some(_e) = it.next() {
        n += 1;
    }
    assert_eq!(n, 2);
    world.data.remove_entity(a);
    world.flush_queue();
    let mut n2 = 0;
    let mut it2 = world.entities();
    while let Some(_e) = it2.next() {
        n2 += 1;
    }
    assert_eq!(n2, 1);
}

#[test]
fn loading_a_corrupt_stream_is_refused() {
    let garbage = vec![9u8; 40];
    assert!(World::<Wrapped>::load(&garbage).is_none());
    let empty: Vec<u8> = Vec::new();
    assert!(World::<Wrapped>::load(&empty).is_none());
    // A truncated saved world is refused as well.
    let mut world = World::<Wrapped>::new();
    world.data.create_entity(WithMarker(1));
    world.flush_queue();
    let bytes = world.save().unwrap();
    let truncated: Vec<u8> = bytes[..bytes.len() - 1].to_vec();
    assert!(World::<Wrapped>::load(&truncated).is_none());
    assert!(World::<Wrapped>::load(&bytes).is_some());
}

#[test]
fn with_services_carries_the_given_bundle() {
    let mut trace = Trace::default();
    trace.processed = 99;
    let world = World::<Wrapped>::with_services(trace);
    assert_eq!(world.data.services.processed, 99);
    let mut it = world.entities();
    assert!(it.next().is_none());
}
