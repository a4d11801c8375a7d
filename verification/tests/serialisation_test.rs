use ecs::system::entity::{EntityProcess, EntitySystem};
use ecs::{
    Aspect, BuildData, ComponentList, ComponentManager, DataHelper, EntityBuilder, EntityIter,
    IndexedEntity, Process, SaveData, ServiceManager, System, SystemManager, World,
};

#[derive(Copy, Clone, Debug, PartialEq)]
pub struct Position {
    pub x: f32,
    pub y: f32,
}

impl SaveData for Position {
    // The trait's ghost members; erased by verification and never run.
    fn enc(&self) -> vstd::prelude::Seq<u8> {
        unreachable!()
    }

    fn savable(&self) -> bool {
        unreachable!()
    }

    fn same(_: &Self, _: &Self) -> bool {
        unreachable!()
    }

    fn dec_ok(_: vstd::prelude::Seq<u8>) -> bool {
        unreachable!()
    }

    fn dec_len(_: vstd::prelude::Seq<u8>) -> vstd::prelude::int {
        unreachable!()
    }

    fn lemma_enc_parses(&self, _: vstd::prelude::Seq<u8>) {}

    fn lemma_dec_len_bounds(_: vstd::prelude::Seq<u8>) {}

    fn write_data(&self, out: &mut Vec<u8>) {
        self.x.to_bits().write_data(out);
        self.y.to_bits().write_data(out);
    }

    fn read_data(data: &Vec<u8>, pos: &mut usize) -> Option<Position> {
        let x = u32::read_data(data, pos)?;
        let y = u32::read_data(data, pos)?;
        Some(Position { x: f32::from_bits(x), y: f32::from_bits(y) })
    }
}

#[derive(Copy, Clone, Debug, PartialEq)]
pub struct Team(u8);

impl SaveData for Team {
    // The trait's ghost members; erased by verification and never run.
    fn enc(&self) -> vstd::prelude::Seq<u8> {
        unreachable!()
    }

    fn savable(&self) -> bool {
        unreachable!()
    }

    fn same(_: &Self, _: &Self) -> bool {
        unreachable!()
    }

    fn dec_ok(_: vstd::prelude::Seq<u8>) -> bool {
        unreachable!()
    }

    fn dec_len(_: vstd::prelude::Seq<u8>) -> vstd::prelude::int {
        unreachable!()
    }

    fn lemma_enc_parses(&self, _: vstd::prelude::Seq<u8>) {}

    fn lemma_dec_len_bounds(_: vstd::prelude::Seq<u8>) {}

    fn write_data(&self, out: &mut Vec<u8>) {
        self.0.write_data(out);
    }

    fn read_data(data: &Vec<u8>, pos: &mut usize) -> Option<Team> {
        Some(Team(u8::read_data(data, pos)?))
    }
}

#[derive(Copy, Clone, Debug, PartialEq)]
pub struct SomeFeature;

impl SaveData for SomeFeature {
    // The trait's ghost members; erased by verification and never run.
    fn enc(&self) -> vstd::prelude::Seq<u8> {
        unreachable!()
    }

    fn savable(&self) -> bool {
        unreachable!()
    }

    fn same(_: &Self, _: &Self) -> bool {
        unreachable!()
    }

    fn dec_ok(_: vstd::prelude::Seq<u8>) -> bool {
        unreachable!()
    }

    fn dec_len(_: vstd::prelude::Seq<u8>) -> vstd::prelude::int {
        unreachable!()
    }

    fn lemma_enc_parses(&self, _: vstd::prelude::Seq<u8>) {}

    fn lemma_dec_len_bounds(_: vstd::prelude::Seq<u8>) {}

    fn write_data(&self, _out: &mut Vec<u8>) {}

    fn read_data(_data: &Vec<u8>, _pos: &mut usize) -> Option<SomeFeature> {
        Some(SomeFeature)
    }
}

const POSITION: u64 = 0;
const TEAM: u64 = 1;
const FEATURE: u64 = 2;

pub struct TestComponents {
    pub position: ComponentList<TestComponents, Position>,
    pub team: ComponentList<TestComponents, Team>,
    pub feature: ComponentList<TestComponents, SomeFeature>,
}

impl ComponentManager for TestComponents {
    fn __new() -> TestComponents {
        TestComponents {
            position: ComponentList::hot(),
            team: ComponentList::cold(),
            feature: ComponentList::hot(),
        }
    }

    fn __remove_all(&mut self, entity: &IndexedEntity<TestComponents>) {
        self.position.clear(entity);
        self.team.clear(entity);
        self.feature.clear(entity);
    }

    fn spec_has(&self, _ctype: u64, _index: usize) -> bool {
        false
    }

    fn has_component(&self, ctype: u64, index: usize) -> bool {
        match ctype {
            POSITION => self.position.has_index(index),
            TEAM => self.team.has_index(index),
            FEATURE => self.feature.has_index(index),
            _ => false,
        }
    }
}

impl SaveData for TestComponents {
    // The trait's ghost members; erased by verification and never run.
    fn enc(&self) -> vstd::prelude::Seq<u8> {
        unreachable!()
    }

    fn savable(&self) -> bool {
        unreachable!()
    }

    fn same(_: &Self, _: &Self) -> bool {
        unreachable!()
    }

    fn dec_ok(_: vstd::prelude::Seq<u8>) -> bool {
        unreachable!()
    }

    fn dec_len(_: vstd::prelude::Seq<u8>) -> vstd::prelude::int {
        unreachable!()
    }

    fn lemma_enc_parses(&self, _: vstd::prelude::Seq<u8>) {}

    fn lemma_dec_len_bounds(_: vstd::prelude::Seq<u8>) {}

    fn write_data(&self, out: &mut Vec<u8>) {
        self.position.write_data(out);
        self.team.write_data(out);
        self.feature.write_data(out);
    }

    fn read_data(data: &Vec<u8>, pos: &mut usize) -> Option<TestComponents> {
        let position = ComponentList::read_data(data, pos)?;
        let team = ComponentList::read_data(data, pos)?;
        let feature = ComponentList::read_data(data, pos)?;
        Some(TestComponents { position, team, feature })
    }
}

pub struct TestServices {
    pub check: u32,
}

impl ServiceManager for TestServices {}

impl Default for TestServices {
    fn default() -> TestServices {
        TestServices { check: 0 }
    }
}

impl SaveData for TestServices {
    // The trait's ghost members; erased by verification and never run.
    fn enc(&self) -> vstd::prelude::Seq<u8> {
        unreachable!()
    }

    fn savable(&self) -> bool {
        unreachable!()
    }

    fn same(_: &Self, _: &Self) -> bool {
        unreachable!()
    }

    fn dec_ok(_: vstd::prelude::Seq<u8>) -> bool {
        unreachable!()
    }

    fn dec_len(_: vstd::prelude::Seq<u8>) -> vstd::prelude::int {
        unreachable!()
    }

    fn lemma_enc_parses(&self, _: vstd::prelude::Seq<u8>) {}

    fn lemma_dec_len_bounds(_: vstd::prelude::Seq<u8>) {}

    fn write_data(&self, out: &mut Vec<u8>) {
        self.check.write_data(out);
    }

    fn read_data(data: &Vec<u8>, pos: &mut usize) -> Option<TestServices> {
        Some(TestServices { check: u32::read_data(data, pos)? })
    }
}

pub type TestData = DataHelper<TestComponents, TestServices>;

pub struct PrintPosition;

impl System for PrintPosition {
    type Components = TestComponents;
    type Services = TestServices;

    fn is_active(&self) -> bool {
        false
    }
}

impl EntityProcess for PrintPosition {
    fn process(&mut self, mut en: EntityIter<TestComponents>, co: &mut TestData) {
        while let Some(e) = en.next() {
            println!("{:?}: {:?}", e.entity(), co.components.position.get(&e));
        }
    }
}

pub struct TestSystems {
    pub print_position: EntitySystem<PrintPosition>,
}

impl SystemManager for TestSystems {
    type Components = TestComponents;
    type Services = TestServices;

    fn __new() -> TestSystems {
        TestSystems {
            print_position: EntitySystem::new(
                PrintPosition,
                Aspect::new(vec![POSITION, FEATURE], vec![]),
            ),
        }
    }

    fn __activated(
        &mut self,
        e: ecs::EntityData<'_, TestComponents>,
        c: &TestComponents,
        s: &mut TestServices,
    ) {
        self.print_position.activated(&e, c, s);
    }

    fn __reactivated(
        &mut self,
        e: ecs::EntityData<'_, TestComponents>,
        c: &TestComponents,
        s: &mut TestServices,
    ) {
        self.print_position.reactivated(&e, c, s);
    }

    fn __deactivated(
        &mut self,
        e: ecs::EntityData<'_, TestComponents>,
        c: &TestComponents,
        s: &mut TestServices,
    ) {
        self.print_position.deactivated(&e, c, s);
    }

    fn __update(&mut self, data: &mut TestData) {
        if self.print_position.is_active() {
            self.print_position.process(data);
        }
    }
}

#[derive(Default)]
pub struct EntityInit {
    pub position: Option<Position>,
    pub team: Option<Team>,
    pub feature: Option<SomeFeature>,
}

impl EntityBuilder<TestComponents> for EntityInit {
    fn build(self, e: BuildData<'_, TestComponents>, c: &mut TestComponents) {
        if let Some(v) = self.position {
            c.position.add(&e, v);
        }
        if let Some(v) = self.team {
            c.team.add(&e, v);
        }
        if let Some(v) = self.feature {
            c.feature.add(&e, v);
        }
    }
}

#[test]
pub fn test_serialisation() {
    let mut world = World::<TestSystems>::new();

    world.data.create_entity(EntityInit {
        position: Some(Position { x: 0.5, y: 0.7 }),
        team: Some(Team(4)),
        ..Default::default()
    });
    for i in 0..10 {
        world.data.create_entity(EntityInit {
            position: Some(Position { x: 0.5, y: 0.8 * (i as f32) }),
            team: Some(Team(i as u8)),
            feature: Some(SomeFeature),
            ..Default::default()
        });
    }

    world.flush_queue();

    Process::process(&mut world.systems.print_position, &mut world.data);

    world.data.services.check = 2;

    let store = world.save().unwrap();
    println!("Finished Writing. Bytes written: {:?}", store.len());

    let mut world_2: World<TestSystems> = World::load(&store).unwrap();

    assert_eq!(world.data.services.check, 2);

    Process::process(&mut world_2.systems.print_position, &mut world_2.data);
}
