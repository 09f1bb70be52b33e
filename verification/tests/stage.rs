use scene_bootstrap::{EntityId, Lookup, Marker, Marks, Phase, Record, SceneIds, Stage};

const CUBE: Marks = Marks { cube: true, all_ready: false, not_in_scene: false };
const NOT_IN_SCENE: Marks = Marks { cube: false, all_ready: false, not_in_scene: true };
const NO_MARKS: Marks = Marks { cube: false, all_ready: false, not_in_scene: false };

fn id(bits: u64) -> EntityId {
    EntityId { bits }
}

fn other_ids() -> SceneIds {
    SceneIds { plane: id(10), cube: id(11), light: id(12), camera: id(13), sentinel: id(14) }
}

fn scene_ids() -> SceneIds {
    SceneIds { plane: id(0), cube: id(1), light: id(2), camera: id(3), sentinel: id(4) }
}

#[test]
fn a_new_stage_awaits_setup() {
    let stage = Stage::new();
    assert_eq!(stage.phase(), Phase::AwaitingSetup);
    assert_eq!(stage.registry().len(), 0);
}

#[test]
fn a_tick_before_setup_does_nothing() {
    let mut stage = Stage::new();
    assert!(stage.spawn(id(50), None));
    assert_eq!(stage.tick(), None);
    assert_eq!(stage.phase(), Phase::AwaitingSetup);
    assert_eq!(stage.registry().len(), 1);
    assert_eq!(
        stage.registry().get(id(50)),
        Some(Record { id: id(50), parent: None, marks: NO_MARKS })
    );
}

#[test]
fn setup_makes_the_stage_ready() {
    let mut stage = Stage::new();
    assert!(stage.setup(scene_ids()));
    assert_eq!(stage.phase(), Phase::Ready);
    assert_eq!(stage.registry().len(), 5);
    assert_eq!(stage.registry().single(Marker::AllReady), Lookup::ExactlyOne(id(4)));
    assert_eq!(stage.registry().single(Marker::Cube), Lookup::ExactlyOne(id(1)));
}

#[test]
fn setup_runs_once() {
    let mut stage = Stage::new();
    assert!(stage.setup(scene_ids()));
    let others = other_ids();
    assert!(!stage.setup(others));
    assert_eq!(stage.phase(), Phase::Ready);
    assert_eq!(stage.registry().len(), 5);
    assert!(stage.tick().is_some());
    assert!(!stage.setup(others));
    assert_eq!(stage.phase(), Phase::Done);
    assert_eq!(stage.registry().len(), 4);
    assert_eq!(stage.registry().with(Marker::Cube), vec![id(1)]);
}

#[test]
fn setup_with_an_identifier_in_use_leaves_the_stage_waiting() {
    let mut stage = Stage::new();
    assert!(stage.spawn(id(2), None));
    assert!(!stage.setup(scene_ids()));
    assert_eq!(stage.phase(), Phase::AwaitingSetup);
    assert_eq!(stage.registry().len(), 1);
    let others = other_ids();
    assert!(stage.setup(others));
    assert_eq!(stage.phase(), Phase::Ready);
    assert_eq!(stage.registry().len(), 6);
}

#[test]
fn the_scene_goes_from_five_entities_to_four_on_the_first_tick() {
    let mut stage = Stage::new();
    assert!(stage.setup(scene_ids()));
    assert_eq!(stage.registry().len(), 5);
    let done = stage.tick().expect("the tagging was due");
    assert_eq!(stage.phase(), Phase::Done);
    assert_eq!(done.sentinel, id(4));
    assert_eq!(done.tagged, vec![id(0), id(2), id(3), id(4)]);
    assert_eq!(done.despawned, vec![id(4)]);
    let world = stage.registry();
    assert_eq!(world.len(), 4);
    assert_eq!(world.get(id(0)), Some(Record { id: id(0), parent: None, marks: NOT_IN_SCENE }));
    assert_eq!(world.get(id(1)), Some(Record { id: id(1), parent: None, marks: CUBE }));
    assert_eq!(world.get(id(2)), Some(Record { id: id(2), parent: None, marks: NOT_IN_SCENE }));
    assert_eq!(world.get(id(3)), Some(Record { id: id(3), parent: None, marks: NOT_IN_SCENE }));
    assert_eq!(world.with(Marker::NotInScene), vec![id(0), id(2), id(3)]);
    assert!(world.with(Marker::AllReady).is_empty());
}

#[test]
fn a_stage_that_is_done_stays_done() {
    let mut stage = Stage::new();
    assert!(stage.setup(scene_ids()));
    assert!(stage.tick().is_some());
    for round in 0..5 {
        assert!(stage.spawn(id(100 + round), Some(id(1))));
        assert_eq!(stage.tick(), None);
        assert_eq!(stage.phase(), Phase::Done);
    }
    assert_eq!(stage.registry().len(), 9);
    assert_eq!(stage.registry().with(Marker::NotInScene), vec![id(0), id(2), id(3)]);
    assert_eq!(stage.registry().with(Marker::Cube), vec![id(1)]);
    assert!(stage.registry().with(Marker::AllReady).is_empty());
}

#[test]
fn what_hangs_below_the_sentinel_goes_with_it() {
    let mut stage = Stage::new();
    assert!(stage.spawn(id(30), Some(id(4))));
    assert!(stage.spawn(id(31), Some(id(30))));
    assert!(stage.spawn(id(32), Some(id(1))));
    assert!(stage.setup(scene_ids()));
    assert!(stage.spawn(id(33), Some(id(31))));
    let done = stage.tick().expect("the tagging was due");
    assert_eq!(done.despawned, vec![id(30), id(31), id(4), id(33)]);
    assert_eq!(done.tagged, vec![id(30), id(31), id(32), id(0), id(2), id(3), id(4), id(33)]);
    assert_eq!(stage.phase(), Phase::Done);
    assert_eq!(
        stage.registry().without(Marker::AllReady),
        vec![id(32), id(0), id(1), id(2), id(3)]
    );
    assert_eq!(stage.registry().with(Marker::Cube), vec![id(1)]);
}

#[test]
fn a_stage_refuses_an_identifier_that_is_in_use() {
    let mut stage = Stage::new();
    assert!(stage.spawn(id(7), None));
    assert!(!stage.spawn(id(7), Some(id(1))));
    assert!(stage.setup(scene_ids()));
    assert!(!stage.spawn(id(4), None));
    assert_eq!(stage.registry().len(), 6);
    assert_eq!(stage.phase(), Phase::Ready);
}
