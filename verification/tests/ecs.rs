//! The store's original behavioural tests: entity lifecycle, component
//! attachment, and full-structure consistency scans.

use scene_ecs::ecs::{Row, Scene};

#[derive(Debug, PartialEq)]
enum TestComponent {
    Dummy1(i32),
    Dummy2(u64),
    Int(i32),
}

const DUMMY1: u64 = 1;
const DUMMY2: u64 = 2;
const INT: u64 = 3;

fn create_empty_scene() -> Scene<TestComponent> {
    Scene::new()
}

fn consistency_check(scene: &Scene<TestComponent>) {
    let entities = scene.entities();

    for &entity in &entities {
        consistency_check_entity_in_scene(scene, entity);
    }
    for key in scene.column_keys() {
        consistency_check_component_vec(scene, key);
    }
}

fn consistency_check_entity_in_scene(scene: &Scene<TestComponent>, entity: usize) {
    for r in scene.entity_components(entity).unwrap() {
        let column = scene.components(r.key);
        assert!(
            column.is_some(),
            "The index should reference some component of type type_id"
        );
        let other = column.unwrap().get(r.index).map(|row| row.entity);

        assert!(
            other.is_some(),
            "The index should reference some component of type type_id"
        );
        assert_eq!(
            entity,
            other.unwrap(),
            "The component referenced by the entity should reference the same entity"
        );
    }
}

fn consistency_check_component_vec(scene: &Scene<TestComponent>, key: u64) {
    let entities = scene.entities();
    let rows = scene.components(key).unwrap();
    for row in rows.iter() {
        assert_eq!(
            entities.iter().filter(|e| e == &&row.entity).count(),
            1,
            "The component should reference exactly one entity"
        );
    }
}

// Entity adding and removing
#[test]
fn create_scene() {
    let scene = create_empty_scene();

    assert_eq!(
        scene.entity_count(),
        0,
        "The scene should count 0 entities when created"
    );
}

#[test]
fn add_one_entity() {
    let mut scene = create_empty_scene();
    let e = scene.spawn_entity();

    assert!(
        scene.entities().contains(&e),
        "The scene should contain the new entity"
    );
    assert_eq!(scene.entity_count(), 1, "The scene should count 1 entity");
}

#[test]
fn add_two_entities() {
    let mut scene = create_empty_scene();

    let e1 = scene.spawn_entity();
    let e2 = scene.spawn_entity();

    assert_eq!(e1, 0);
    assert_eq!(e2, 1);
    assert_eq!(scene.entity_count(), 2, "The scene should count 2 entity");
}

#[test]
fn list_entities() {
    let mut scene = create_empty_scene();

    let e1 = scene.spawn_entity();
    let e2 = scene.spawn_entity();
    let e3 = scene.spawn_entity();

    [e1, e2, e3].iter().for_each(|e| {
        assert!(
            scene.entities().contains(e),
            "Entity {e} is not present in the scene"
        )
    });
}

#[test]
fn remove_one_entity() {
    let mut scene = create_empty_scene();
    let _e1 = scene.spawn_entity();
    let e2 = scene.spawn_entity();
    let _e3 = scene.spawn_entity();

    scene.remove_entity(e2).unwrap();

    assert!(!scene.entities().contains(&e2));
}

// Component tests
#[test]
fn non_existant_component() {
    let scene = create_empty_scene();
    assert!(scene.components(DUMMY1).is_none());
}

#[test]
fn add_one_component() {
    let mut scene = create_empty_scene();
    let e = scene.spawn_entity();
    scene
        .entity_add_component(e, DUMMY1, TestComponent::Dummy1(42))
        .unwrap();

    let components = scene.components(DUMMY1);
    assert!(
        components.is_some(),
        "The global component list should exist"
    );

    let components = components.unwrap();
    assert!(
        components
            .iter()
            .any(|row| row.entity == e && row.value == TestComponent::Dummy1(42)),
        "The added component assosiated with its entity is not in the global component list"
    );

    let entity_components = scene.entity_components(e).unwrap();
    assert_eq!(
        components[entity_components[0].index],
        Row {
            entity: e,
            value: TestComponent::Dummy1(42)
        },
        "The entity does not reference the component"
    );
}

#[test]
fn consistency_adding_entities_and_components() {
    let mut scene = create_empty_scene();
    let e1 = scene.spawn_entity();
    let e2 = scene.spawn_entity();
    let e3 = scene.spawn_entity();

    scene
        .entity_add_component(e1, DUMMY1, TestComponent::Dummy1(42))
        .unwrap();
    scene
        .entity_add_component(e1, DUMMY2, TestComponent::Dummy2(8))
        .unwrap();

    scene
        .entity_add_component(e2, DUMMY1, TestComponent::Dummy1(-3))
        .unwrap();

    assert_eq!(
        scene.entity_count(),
        3,
        "There should be 3 entities in the scene"
    );

    let dummy1_vec = scene.components(DUMMY1);
    assert!(
        dummy1_vec.is_some(),
        "There should be a list of Dummy1 components"
    );

    let dummy1_vec = dummy1_vec.unwrap();
    assert_eq!(
        dummy1_vec.len(),
        2,
        "There should be 2 components in the Dummy1 list"
    );

    let dummy2_vec = scene.components(DUMMY2);
    assert!(
        dummy2_vec.is_some(),
        "There should be a list of Dummy2 components"
    );

    let dummy2_vec = dummy2_vec.unwrap();
    assert_eq!(
        dummy2_vec.len(),
        1,
        "There should be 1 component in the Dummy2 list"
    );

    let e1_components = scene.entity_components(e1).unwrap();
    assert_eq!(e1_components.len(), 2, "Entiy e1 should have 2 components");
    for r in e1_components {
        if r.key == DUMMY1 {
            assert_eq!(
                dummy1_vec[r.index],
                Row {
                    entity: e1,
                    value: TestComponent::Dummy1(42)
                }
            );
        }

        if r.key == DUMMY2 {
            assert_eq!(
                dummy2_vec[r.index],
                Row {
                    entity: e1,
                    value: TestComponent::Dummy2(8)
                }
            );
        }
    }

    let e2_components = scene.entity_components(e2).unwrap();
    assert_eq!(e2_components.len(), 1, "Entity e2 should have 1 component");
    assert_eq!(
        dummy1_vec[e2_components[0].index],
        Row {
            entity: e2,
            value: TestComponent::Dummy1(-3)
        },
        "Entity e2 should reference its component"
    );

    let e3_components = scene.entity_components(e3).unwrap();
    assert_eq!(
        e3_components.len(),
        0,
        "Entity e3 should have no components"
    );
}

fn construct_big_scene() -> Scene<TestComponent> {
    let mut scene = create_empty_scene();

    let e1 = scene.spawn_entity();
    let e2 = scene.spawn_entity();
    let e3 = scene.spawn_entity();
    let e4 = scene.spawn_entity();
    let e5 = scene.spawn_entity();

    scene
        .entity_add_component(e1, DUMMY1, TestComponent::Dummy1(1))
        .unwrap();
    scene
        .entity_add_component(e1, DUMMY1, TestComponent::Dummy1(2))
        .unwrap();
    scene
        .entity_add_component(e1, DUMMY1, TestComponent::Dummy1(3))
        .unwrap();
    scene
        .entity_add_component(e1, DUMMY1, TestComponent::Dummy1(4))
        .unwrap();
    scene
        .entity_add_component(e1, DUMMY1, TestComponent::Dummy1(5))
        .unwrap();

    scene
        .entity_add_component(e2, DUMMY1, TestComponent::Dummy1(1))
        .unwrap();
    scene
        .entity_add_component(e2, DUMMY1, TestComponent::Dummy1(2))
        .unwrap();
    scene
        .entity_add_component(e2, DUMMY2, TestComponent::Dummy2(3))
        .unwrap();
    scene
        .entity_add_component(e2, DUMMY1, TestComponent::Dummy1(4))
        .unwrap();
    scene
        .entity_add_component(e2, DUMMY2, TestComponent::Dummy2(5))
        .unwrap();

    scene
        .entity_add_component(e3, DUMMY2, TestComponent::Dummy2(1))
        .unwrap();
    scene
        .entity_add_component(e3, DUMMY1, TestComponent::Dummy1(-2))
        .unwrap();
    scene
        .entity_add_component(e3, DUMMY2, TestComponent::Dummy2(3))
        .unwrap();
    scene
        .entity_add_component(e3, DUMMY1, TestComponent::Dummy1(-4))
        .unwrap();
    scene
        .entity_add_component(e3, DUMMY2, TestComponent::Dummy2(5))
        .unwrap();

    scene
        .entity_add_component(e4, DUMMY2, TestComponent::Dummy2(10))
        .unwrap();
    scene
        .entity_add_component(e4, DUMMY2, TestComponent::Dummy2(20))
        .unwrap();
    scene
        .entity_add_component(e4, DUMMY2, TestComponent::Dummy2(30))
        .unwrap();
    scene
        .entity_add_component(e4, DUMMY2, TestComponent::Dummy2(40))
        .unwrap();
    scene
        .entity_add_component(e4, DUMMY2, TestComponent::Dummy2(50))
        .unwrap();

    scene
        .entity_add_component(e5, INT, TestComponent::Int(5))
        .unwrap();

    scene.spawn_entity();
    scene.spawn_entity();
    scene.spawn_entity();

    scene
}

#[test]
fn consistency_check_only_adding() {
    let scene = construct_big_scene();

    consistency_check(&scene);
}

#[test]
fn remove_two_entities() {
    let mut scene = create_empty_scene();

    let e1 = scene.spawn_entity();
    let e2 = scene.spawn_entity();

    scene
        .entity_add_component(e1, DUMMY1, TestComponent::Dummy1(1))
        .unwrap();
    scene
        .entity_add_component(e1, DUMMY1, TestComponent::Dummy1(2))
        .unwrap();
    scene
        .entity_add_component(e2, DUMMY1, TestComponent::Dummy1(3))
        .unwrap();
    scene
        .entity_add_component(e2, DUMMY1, TestComponent::Dummy1(4))
        .unwrap();

    println!("{}", scene.describe());

    scene.remove_entity(e1).unwrap();
    consistency_check(&scene);

    println!("{}", scene.describe());

    scene.remove_entity(e2).unwrap();
    consistency_check(&scene);
}

#[test]
fn consistency_check_removing_entities() {
    let mut scene = construct_big_scene();
    println!("Full scene:");
    println!("{}", scene.describe());

    let mut entities = scene.entities();
    entities.sort();

    println!("Removing {}", entities[1]);
    scene.remove_entity(entities[1]).unwrap();
    println!("After remove of {}", entities[1]);
    println!("{}", scene.describe());
    consistency_check(&scene);

    println!("Removing {}", entities[4]);
    scene.remove_entity(entities[4]).unwrap();
    println!("After remove of {}", entities[4]);
    println!("{}", scene.describe());
    consistency_check(&scene);

    println!("Removing {}", entities.last().unwrap());
    scene.remove_entity(*entities.last().unwrap()).unwrap();
    println!("After remove of {}", entities.last().unwrap());
    println!("{}", scene.describe());

    consistency_check(&scene);
}
