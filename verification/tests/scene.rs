use scene_bootstrap::{
    mark_as_dont_safe, setup, should_run, tick, EntityId, Lookup, Marker, Marks, Record, Registry,
    SceneIds,
};

const NO_MARKS: Marks = Marks { cube: false, all_ready: false, not_in_scene: false };
const CUBE: Marks = Marks { cube: true, all_ready: false, not_in_scene: false };
const ALL_READY: Marks = Marks { cube: false, all_ready: true, not_in_scene: false };
const NOT_IN_SCENE: Marks = Marks { cube: false, all_ready: false, not_in_scene: true };

fn id(bits: u64) -> EntityId {
    EntityId { bits }
}

fn scene_ids() -> SceneIds {
    SceneIds { plane: id(0), cube: id(1), light: id(2), camera: id(3), sentinel: id(4) }
}

fn scene() -> Registry {
    let mut registry = Registry::new();
    assert!(setup(&mut registry, scene_ids()));
    registry
}

#[test]
fn a_new_registry_is_empty_and_not_ready() {
    let registry = Registry::new();
    assert_eq!(registry.len(), 0);
    assert_eq!(registry.single(Marker::AllReady), Lookup::NotFound);
    assert!(!should_run(&registry));
    assert!(registry.with(Marker::AllReady).is_empty());
    assert!(registry.without(Marker::Cube).is_empty());
}

#[test]
fn setup_spawns_the_four_objects_and_then_the_sentinel() {
    let registry = scene();
    assert_eq!(registry.len(), 5);
    assert_eq!(registry.without(Marker::NotInScene), vec![id(0), id(1), id(2), id(3), id(4)]);
    assert_eq!(registry.get(id(0)), Some(Record { id: id(0), parent: None, marks: NO_MARKS }));
    assert_eq!(registry.get(id(1)), Some(Record { id: id(1), parent: None, marks: CUBE }));
    assert_eq!(registry.get(id(2)), Some(Record { id: id(2), parent: None, marks: NO_MARKS }));
    assert_eq!(registry.get(id(3)), Some(Record { id: id(3), parent: None, marks: NO_MARKS }));
    assert_eq!(registry.get(id(4)), Some(Record { id: id(4), parent: None, marks: ALL_READY }));
}

#[test]
fn after_setup_there_is_one_sentinel_and_one_cube() {
    let registry = scene();
    assert_eq!(registry.with(Marker::AllReady), vec![id(4)]);
    assert_eq!(registry.with(Marker::Cube), vec![id(1)]);
    assert!(registry.with(Marker::NotInScene).is_empty());
    assert_eq!(registry.single(Marker::AllReady), Lookup::ExactlyOne(id(4)));
    assert_eq!(registry.single(Marker::Cube), Lookup::ExactlyOne(id(1)));
    assert!(should_run(&registry));
}

#[test]
fn setup_keeps_what_the_world_held_before() {
    let mut registry = Registry::new();
    assert!(registry.spawn(id(70), None, NO_MARKS));
    assert!(registry.spawn(id(71), Some(id(70)), NOT_IN_SCENE));
    assert!(setup(&mut registry, scene_ids()));
    assert_eq!(registry.len(), 7);
    assert_eq!(
        registry.without(Marker::Cube),
        vec![id(70), id(71), id(0), id(2), id(3), id(4)]
    );
    assert_eq!(
        registry.get(id(71)),
        Some(Record { id: id(71), parent: Some(id(70)), marks: NOT_IN_SCENE })
    );
    assert!(should_run(&registry));
}

#[test]
fn setup_refuses_an_identifier_that_is_in_use() {
    let mut registry = Registry::new();
    assert!(registry.spawn(id(3), None, NO_MARKS));
    assert!(!setup(&mut registry, scene_ids()));
    assert_eq!(registry.len(), 1);
    assert_eq!(registry.get(id(3)), Some(Record { id: id(3), parent: None, marks: NO_MARKS }));
    assert!(!should_run(&registry));
}

#[test]
fn setup_refuses_an_identifier_given_twice() {
    let mut registry = Registry::new();
    let ids = SceneIds { plane: id(0), cube: id(1), light: id(2), camera: id(3), sentinel: id(1) };
    assert!(!setup(&mut registry, ids));
    assert_eq!(registry.len(), 0);
    let ids = SceneIds { plane: id(9), cube: id(1), light: id(2), camera: id(9), sentinel: id(4) };
    assert!(!setup(&mut registry, ids));
    assert_eq!(registry.len(), 0);
}

#[test]
fn a_second_setup_with_the_same_identifiers_is_refused() {
    let mut registry = scene();
    assert!(!setup(&mut registry, scene_ids()));
    assert_eq!(registry.len(), 5);
    assert!(should_run(&registry));
}

#[test]
fn spawn_refuses_an_identifier_that_is_in_use() {
    let mut registry = Registry::new();
    assert!(registry.spawn(id(5), None, CUBE));
    assert!(!registry.spawn(id(5), Some(id(1)), ALL_READY));
    assert_eq!(registry.len(), 1);
    assert_eq!(registry.get(id(5)), Some(Record { id: id(5), parent: None, marks: CUBE }));
    assert!(registry.contains(id(5)));
    assert!(!registry.contains(id(6)));
    assert_eq!(registry.get(id(6)), None);
}

#[test]
fn the_same_index_under_another_generation_is_another_entity() {
    let mut registry = Registry::new();
    assert!(registry.spawn(id(5), None, NO_MARKS));
    assert!(registry.spawn(id((1 << 32) | 5), None, CUBE));
    assert_eq!(registry.len(), 2);
    assert_eq!(registry.with(Marker::Cube), vec![id((1 << 32) | 5)]);
}

#[test]
fn a_world_with_two_sentinels_is_not_ready() {
    let mut registry = scene();
    assert!(registry.spawn(id(9), None, ALL_READY));
    assert_eq!(registry.single(Marker::AllReady), Lookup::MultipleFound);
    assert!(!should_run(&registry));
    let before = registry.without(Marker::NotInScene);
    assert_eq!(tick(&mut registry), None);
    assert_eq!(registry.without(Marker::NotInScene), before);
    assert_eq!(registry.with(Marker::AllReady), vec![id(4), id(9)]);
}

#[test]
fn the_first_tick_tags_all_but_the_cube_and_despawns_the_sentinel() {
    let mut registry = scene();
    assert_eq!(registry.len(), 5);
    assert!(should_run(&registry));
    let done = tick(&mut registry).expect("the world was ready");
    assert_eq!(done.sentinel, id(4));
    assert_eq!(done.tagged, vec![id(0), id(2), id(3), id(4)]);
    assert_eq!(done.despawned, vec![id(4)]);
    assert_eq!(registry.len(), 4);
    assert_eq!(registry.with(Marker::NotInScene), vec![id(0), id(2), id(3)]);
    assert_eq!(registry.with(Marker::Cube), vec![id(1)]);
    assert_eq!(registry.get(id(0)), Some(Record { id: id(0), parent: None, marks: NOT_IN_SCENE }));
    assert_eq!(registry.get(id(1)), Some(Record { id: id(1), parent: None, marks: CUBE }));
    assert_eq!(registry.get(id(2)), Some(Record { id: id(2), parent: None, marks: NOT_IN_SCENE }));
    assert_eq!(registry.get(id(3)), Some(Record { id: id(3), parent: None, marks: NOT_IN_SCENE }));
    assert_eq!(registry.get(id(4)), None);
}

#[test]
fn the_tagging_itself_does_what_the_open_tick_does() {
    let mut by_tick = scene();
    let mut by_call = scene();
    let fired = tick(&mut by_tick).expect("the world was ready");
    assert!(should_run(&by_call));
    let done = mark_as_dont_safe(&mut by_call);
    assert_eq!(done, fired);
    assert_eq!(by_call.len(), by_tick.len());
    for entity in [id(0), id(1), id(2), id(3), id(4)] {
        assert_eq!(by_call.get(entity), by_tick.get(entity));
    }
}

#[test]
fn the_world_is_ready_before_the_first_tick_and_never_after_it() {
    let mut registry = scene();
    assert!(should_run(&registry));
    assert!(should_run(&registry));
    assert!(tick(&mut registry).is_some());
    assert!(!should_run(&registry));
    for _ in 0..10 {
        assert!(tick(&mut registry).is_none());
        assert!(!should_run(&registry));
    }
}

#[test]
fn later_ticks_tag_nothing() {
    let mut registry = scene();
    let mut fired = 0;
    for _ in 0..3 {
        if tick(&mut registry).is_some() {
            fired += 1;
        }
    }
    assert!(registry.spawn(id(20), None, NO_MARKS));
    for _ in 0..3 {
        if tick(&mut registry).is_some() {
            fired += 1;
        }
    }
    assert_eq!(fired, 1);
    assert_eq!(registry.len(), 5);
    assert_eq!(registry.with(Marker::NotInScene), vec![id(0), id(2), id(3)]);
    assert_eq!(registry.get(id(20)), Some(Record { id: id(20), parent: None, marks: NO_MARKS }));
}

#[test]
fn no_entity_carries_the_sentinel_marker_after_the_tagging() {
    let mut registry = scene();
    assert!(tick(&mut registry).is_some());
    assert!(registry.with(Marker::AllReady).is_empty());
    assert_eq!(registry.single(Marker::AllReady), Lookup::NotFound);
    assert!(tick(&mut registry).is_none());
    assert!(tick(&mut registry).is_none());
    assert!(registry.with(Marker::AllReady).is_empty());
    assert_eq!(registry.single(Marker::AllReady), Lookup::NotFound);
}

#[test]
fn the_tagging_reaches_entities_that_setup_did_not_spawn() {
    let mut registry = Registry::new();
    assert!(registry.spawn(id(100), None, NO_MARKS));
    assert!(setup(&mut registry, scene_ids()));
    assert!(registry.spawn(id(101), Some(id(100)), NO_MARKS));
    let done = tick(&mut registry).expect("the world was ready");
    assert_eq!(done.tagged, vec![id(100), id(0), id(2), id(3), id(4), id(101)]);
    assert_eq!(done.despawned, vec![id(4)]);
    assert_eq!(registry.with(Marker::NotInScene), vec![id(100), id(0), id(2), id(3), id(101)]);
    assert_eq!(
        registry.get(id(101)),
        Some(Record { id: id(101), parent: Some(id(100)), marks: NOT_IN_SCENE })
    );
}

#[test]
fn the_tagging_marks_again_what_was_marked_and_leaves_the_cube_as_it_was() {
    let mut registry = Registry::new();
    let marked_cube = Marks { cube: true, all_ready: false, not_in_scene: true };
    assert!(registry.spawn(id(1), None, marked_cube));
    assert!(registry.spawn(id(2), None, NOT_IN_SCENE));
    assert!(registry.spawn(id(3), None, ALL_READY));
    let done = tick(&mut registry).expect("the world was ready");
    assert_eq!(done.tagged, vec![id(2), id(3)]);
    assert_eq!(registry.get(id(1)), Some(Record { id: id(1), parent: None, marks: marked_cube }));
    assert_eq!(registry.get(id(2)), Some(Record { id: id(2), parent: None, marks: NOT_IN_SCENE }));
    assert_eq!(registry.len(), 2);
}

#[test]
fn the_tagging_in_a_world_of_cubes_tags_the_sentinel_alone() {
    let mut registry = Registry::new();
    assert!(registry.spawn(id(1), None, CUBE));
    assert!(registry.spawn(id(2), None, CUBE));
    assert!(registry.spawn(id(3), None, ALL_READY));
    let done = tick(&mut registry).expect("the world was ready");
    assert_eq!(done.tagged, vec![id(3)]);
    assert_eq!(done.despawned, vec![id(3)]);
    assert_eq!(registry.with(Marker::Cube), vec![id(1), id(2)]);
    assert!(registry.with(Marker::NotInScene).is_empty());
    assert_eq!(registry.single(Marker::Cube), Lookup::MultipleFound);
}

#[test]
fn marks_answer_for_each_marker() {
    assert!(CUBE.has(Marker::Cube));
    assert!(!CUBE.has(Marker::AllReady));
    assert!(!CUBE.has(Marker::NotInScene));
    assert!(ALL_READY.has(Marker::AllReady));
    assert!(!ALL_READY.has(Marker::Cube));
    assert!(NOT_IN_SCENE.has(Marker::NotInScene));
    assert!(!NO_MARKS.has(Marker::Cube));
    assert!(!NO_MARKS.has(Marker::AllReady));
    assert!(!NO_MARKS.has(Marker::NotInScene));
}
