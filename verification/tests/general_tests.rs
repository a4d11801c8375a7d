use ecs::system::entity::{EntityProcess, EntitySystem};
use ecs::{
    Aspect, BuildData, ComponentList, ComponentManager, DataHelper, EntityBuilder, EntityIter,
    EntityModifier, IndexedEntity, ModifyData, Process, System, SystemManager, World,
};

#[derive(Copy, Clone, Debug, PartialEq)]
pub struct Position {
    pub x: f32,
    pub y: f32,
}

#[derive(Copy, Clone, Debug, PartialEq)]
pub struct Team(u8);

#[derive(Copy, Clone, Debug, PartialEq)]
pub struct SomeFeature;

const BLANK_DATA: u64 = 0;
const POSITION: u64 = 1;
const TEAM: u64 = 2;
const FEATURE: u64 = 3;

pub struct TestComponents {
    pub blank_data: ComponentList<TestComponents, ()>,
    pub position: ComponentList<TestComponents, Position>,
    pub team: ComponentList<TestComponents, Team>,
    pub feature: ComponentList<TestComponents, SomeFeature>,
}

impl ComponentManager for TestComponents {
    fn __new() -> TestComponents {
        TestComponents {
            blank_data: ComponentList::hot(),
            position: ComponentList::hot(),
            team: ComponentList::cold(),
            feature: ComponentList::hot(),
        }
    }

    fn __remove_all(&mut self, entity: &IndexedEntity<TestComponents>) {
        self.blank_data.clear(entity);
        self.position.clear(entity);
        self.team.clear(entity);
        self.feature.clear(entity);
    }

    fn spec_has(&self, _ctype: u64, _index: usize) -> bool {
        false
    }

    fn has_component(&self, ctype: u64, index: usize) -> bool {
        match ctype {
            BLANK_DATA => self.blank_data.has_index(index),
            POSITION => self.position.has_index(index),
            TEAM => self.team.has_index(index),
            FEATURE => self.feature.has_index(index),
            _ => false,
        }
    }
}

pub type TestData = DataHelper<TestComponents, ()>;

pub struct HelloWorld(&'static str);

impl System for HelloWorld {
    type Components = TestComponents;
    type Services = ();
}

impl Process for HelloWorld {
    fn process(&mut self, _: &mut TestData) {
        println!("{}", self.0);
    }
}

pub struct PrintPosition;

impl System for PrintPosition {
    type Components = TestComponents;
    type Services = ();
}

impl EntityProcess for PrintPosition {
    fn process(&mut self, mut en: EntityIter<TestComponents>, co: &mut TestData) {
        while let Some(e) = en.next() {
            println!("{:?}", co.components.position.get(&e));
        }
    }
}

pub struct TestSystems {
    pub hello_world: HelloWorld,
    pub print_position: EntitySystem<PrintPosition>,
}

impl SystemManager for TestSystems {
    type Components = TestComponents;
    type Services = ();

    fn __new() -> TestSystems {
        TestSystems {
            hello_world: HelloWorld("Hello, World!"),
            print_position: EntitySystem::new(
                PrintPosition,
                Aspect::new(vec![POSITION, FEATURE], vec![]),
            ),
        }
    }

    fn __activated(
        &mut self,
        e: ecs::EntityData<'_, TestComponents>,
        c: &TestComponents,
        s: &mut (),
    ) {
        self.hello_world.activated(&e, c, s);
        self.print_position.activated(&e, c, s);
    }

    fn __reactivated(
        &mut self,
        e: ecs::EntityData<'_, TestComponents>,
        c: &TestComponents,
        s: &mut (),
    ) {
        self.hello_world.reactivated(&e, c, s);
        self.print_position.reactivated(&e, c, s);
    }

    fn __deactivated(
        &mut self,
        e: ecs::EntityData<'_, TestComponents>,
        c: &TestComponents,
        s: &mut (),
    ) {
        self.hello_world.deactivated(&e, c, s);
        self.print_position.deactivated(&e, c, s);
    }

    fn __update(&mut self, data: &mut TestData) {
        if self.hello_world.is_active() {
            self.hello_world.process(data);
        }
    }
}

#[derive(Default)]
pub struct EntityInit {
    pub blank_data: Option<()>,
    pub position: Option<Position>,
    pub team: Option<Team>,
    pub feature: Option<SomeFeature>,
}

impl EntityBuilder<TestComponents> for EntityInit {
    fn build(self, e: BuildData<'_, TestComponents>, c: &mut TestComponents) {
        if let Some(v) = self.blank_data {
            c.blank_data.add(&e, v);
        }
        if let Some(v) = self.position {
            c.position.add(&e, v);
        }
        if let Some(v) = self.team {
            c.team.add(&e, v);
        }
        if let Some(v) = self.feature {
            c.feature.add(&e, v);
        }
    }
}

struct FirstModify;

impl EntityModifier<TestComponents> for FirstModify {
    fn modify(self, e: ModifyData<'_, TestComponents>, c: &mut TestComponents) {
        assert_eq!(
            Some(Position { x: 0.5, y: 0.7 }),
            c.position.insert(&e, Position { x: -2.5, y: 7.6 })
        );
        assert_eq!(Some(Team(4)), c.team.remove(&e));
        assert!(!c.feature.has(&e));
        assert!(c.feature.insert(&e, SomeFeature).is_none());
    }
}

struct SecondModify;

impl EntityModifier<TestComponents> for SecondModify {
    fn modify(self, e: ModifyData<'_, TestComponents>, c: &mut TestComponents) {
        assert_eq!(Position { x: -2.5, y: 7.6 }, *c.position.index(&e));
        assert_eq!(None, c.team.remove(&e));
        assert!(c.feature.insert(&e, SomeFeature).is_some());
    }
}

#[test]
fn test_general_1() {
    let mut world = World::<TestSystems>::new();

    let entity = world.data.create_entity(EntityInit {
        position: Some(Position { x: 0.5, y: 0.7 }),
        team: Some(Team(4)),
        ..Default::default()
    });
    world.data.create_entity(EntityInit {
        position: Some(Position { x: 0.6, y: 0.8 }),
        team: Some(Team(3)),
        feature: Some(SomeFeature),
        ..Default::default()
    });

    world.flush_queue();

    Process::process(&mut world.systems.print_position, &mut world.data);

    world.modify_entity(entity, FirstModify);

    Process::process(&mut world.systems.print_position, &mut world.data);

    world.modify_entity(entity, SecondModify);

    Process::process(&mut world.systems.print_position, &mut world.data);

    let mut it = world.entities();
    while let Some(e) = it.next() {
        assert!(world.data.components.position.has(&e));
    }

    let mut filtered = world
        .entities()
        .filter(Aspect::new(vec![TEAM], vec![]), &world.data.components);
    while let Some(e) = filtered.next() {
        assert!(world.data.components.team.has(&e));
    }

    world.update();

    world.systems.hello_world.0 = "Goodbye, World!";
    world.update();
}
