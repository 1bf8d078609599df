//! Scenario tests for the store's stated behaviour: swap-remove
//! compaction, cascading despawn, unknown-entity rejection, the live
//! count, column persistence, and the diagnostic dump.

use scene_ecs::ecs::{EcsError, Row, Scene};

const POS: u64 = 1;
const VEL: u64 = 2;

#[test]
fn swap_remove_repoints_moved_row() {
    // Spawn e0, e1, e2 and give each one Pos component; the column
    // order is [e0, e1, e2]. Despawning e1 swap-removes its row, so the
    // column becomes [e0, e2] and e2's reference is rewritten from
    // index 2 to index 1.
    let mut scene: Scene<i32> = Scene::new();
    let e0 = scene.spawn_entity();
    let e1 = scene.spawn_entity();
    let e2 = scene.spawn_entity();
    scene.entity_add_component(e0, POS, 1).unwrap();
    scene.entity_add_component(e1, POS, 2).unwrap();
    scene.entity_add_component(e2, POS, 3).unwrap();

    scene.remove_entity(e1).unwrap();

    let rows = scene.components(POS).unwrap();
    assert_eq!(rows.len(), 2);
    assert_eq!(rows[0], Row { entity: e0, value: 1 });
    assert_eq!(rows[1], Row { entity: e2, value: 3 });

    let refs = scene.entity_components(e2).unwrap();
    assert_eq!(refs.len(), 1);
    assert_eq!(refs[0].key, POS);
    assert_eq!(refs[0].index, 1);

    scan_consistency(&scene);
}

#[test]
fn cascade_despawn_clears_all_columns() {
    // Despawning an entity with components of two different types
    // removes exactly its row from each column; re-spawning afterwards
    // produces a handle distinct from the despawned one.
    let mut scene: Scene<i32> = Scene::new();
    let bystander = scene.spawn_entity();
    scene.entity_add_component(bystander, POS, 10).unwrap();
    let e = scene.spawn_entity();
    scene.entity_add_component(e, POS, 1).unwrap();
    scene.entity_add_component(e, VEL, 2).unwrap();

    scene.remove_entity(e).unwrap();

    let pos = scene.components(POS).unwrap();
    assert_eq!(pos.len(), 1);
    assert_eq!(pos[0].entity, bystander);
    let vel = scene.components(VEL).unwrap();
    assert_eq!(vel.len(), 0);
    assert!(!scene.entities().contains(&e));

    let reborn = scene.spawn_entity();
    assert_ne!(reborn, e, "handles are never reused");

    scan_consistency(&scene);
}

#[test]
fn despawn_unknown_entity_rejected() {
    let mut scene: Scene<i32> = Scene::new();
    assert_eq!(scene.remove_entity(999), Err(EcsError::UnknownEntity));
    assert_eq!(scene.entity_count(), 0);
}

#[test]
fn add_component_unknown_entity_rejected() {
    let mut scene: Scene<i32> = Scene::new();
    assert_eq!(
        scene.entity_add_component(999, POS, 1),
        Err(EcsError::UnknownEntity)
    );
    assert!(scene.components(POS).is_none());
}

#[test]
fn entity_components_unknown_entity_rejected() {
    let mut scene: Scene<i32> = Scene::new();
    let e = scene.spawn_entity();
    scene.remove_entity(e).unwrap();
    assert_eq!(scene.entity_components(e).unwrap_err(), EcsError::UnknownEntity);
    assert_eq!(scene.entity_components(17).unwrap_err(), EcsError::UnknownEntity);
}

#[test]
fn entity_count_is_spawns_minus_despawns() {
    let mut scene: Scene<i32> = Scene::new();
    assert_eq!(scene.entity_count(), 0);
    let a = scene.spawn_entity();
    let b = scene.spawn_entity();
    let _c = scene.spawn_entity();
    assert_eq!(scene.entity_count(), 3);
    assert_eq!(scene.entities().len(), 3);
    scene.remove_entity(a).unwrap();
    assert_eq!(scene.entity_count(), 2);
    scene.remove_entity(b).unwrap();
    assert_eq!(scene.entity_count(), 1);
    let _d = scene.spawn_entity();
    assert_eq!(scene.entity_count(), 2);
    assert_eq!(scene.entities().len(), 2);
}

#[test]
fn column_exists_after_first_add_and_survives_emptying() {
    let mut scene: Scene<i32> = Scene::new();
    assert!(scene.components(POS).is_none());

    let e = scene.spawn_entity();
    scene.entity_add_component(e, POS, 4).unwrap();
    assert!(scene.components(POS).is_some());

    scene.remove_entity(e).unwrap();
    let rows = scene.components(POS).unwrap();
    assert_eq!(rows.len(), 0, "an emptied column remains registered");
}

#[test]
fn entities_listed_in_increasing_order() {
    let mut scene: Scene<i32> = Scene::new();
    for _ in 0..5 {
        scene.spawn_entity();
    }
    scene.remove_entity(2).unwrap();
    assert_eq!(scene.entities(), vec![0, 1, 3, 4]);
}

#[test]
fn components_mut_updates_values_in_place() {
    let mut scene: Scene<i32> = Scene::new();
    let e = scene.spawn_entity();
    scene.entity_add_component(e, POS, 5).unwrap();
    assert!(scene.components_mut(VEL).is_none());

    let rows = scene.components_mut(POS).unwrap();
    let entity = rows[0].entity;
    rows[0] = Row { entity, value: 9 };

    assert_eq!(scene.components(POS).unwrap()[0], Row { entity: e, value: 9 });

    // the store still accepts mutations afterwards
    let e2 = scene.spawn_entity();
    scene.entity_add_component(e2, POS, 6).unwrap();
    scan_consistency(&scene);
}

#[test]
fn describe_lists_entities_and_columns() {
    let mut scene: Scene<i32> = Scene::new();
    let e0 = scene.spawn_entity();
    let e1 = scene.spawn_entity();
    scene.entity_add_component(e0, POS, 1).unwrap();
    scene.entity_add_component(e1, POS, 2).unwrap();
    scene.entity_add_component(e0, VEL, 3).unwrap();

    let dump = scene.describe();
    assert_eq!(
        dump,
        "Entities: {\n\t0: [(1, 0), (2, 0)]\n\t1: [(1, 1)]\n}\n1: [0, 1]\n2: [0]\n"
    );
}

#[test]
fn describe_of_empty_store() {
    let scene: Scene<i32> = Scene::new();
    assert_eq!(scene.describe(), "Entities: {\n}\n");
}

#[test]
fn column_keys_in_creation_order() {
    let mut scene: Scene<i32> = Scene::new();
    let e = scene.spawn_entity();
    scene.entity_add_component(e, VEL, 1).unwrap();
    scene.entity_add_component(e, POS, 2).unwrap();
    scene.entity_add_component(e, VEL, 3).unwrap();
    assert_eq!(scene.column_keys(), vec![VEL, POS]);
}

#[test]
fn interleaved_operations_keep_invariants() {
    let mut scene: Scene<i32> = Scene::new();
    let mut value = 0;
    for round in 0..4 {
        let a = scene.spawn_entity();
        let b = scene.spawn_entity();
        for key in 1..4u64 {
            value += 1;
            scene.entity_add_component(a, key, value).unwrap();
            if key != 2 {
                value += 1;
                scene.entity_add_component(b, key, value).unwrap();
            }
        }
        scan_consistency(&scene);
        if round % 2 == 0 {
            scene.remove_entity(a).unwrap();
        } else {
            scene.remove_entity(b).unwrap();
        }
        scan_consistency(&scene);
    }
    assert_eq!(scene.entity_count(), 4);
}

/// Full-structure scan: both directions of the entity/column
/// cross-referencing, and one-reference-per-row.
fn scan_consistency(scene: &Scene<i32>) {
    let entities = scene.entities();
    for &e in &entities {
        for r in scene.entity_components(e).unwrap() {
            let rows = scene.components(r.key).expect("referenced column must exist");
            assert!(r.index < rows.len(), "reference index must be in range");
            assert_eq!(rows[r.index].entity, e, "row must record its owner");
        }
    }
    for key in scene.column_keys() {
        let rows = scene.components(key).unwrap();
        for (i, row) in rows.iter().enumerate() {
            assert_eq!(
                entities.iter().filter(|e| **e == row.entity).count(),
                1,
                "each row is owned by exactly one live entity"
            );
            let refs = scene.entity_components(row.entity).unwrap();
            assert_eq!(
                refs.iter().filter(|r| r.key == key && r.index == i).count(),
                1,
                "each row is referenced exactly once"
            );
        }
    }
}
