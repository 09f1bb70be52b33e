//! Scene setup: the four objects of the scene, and behind them the sentinel.

use vstd::prelude::*;
use crate::entity::EntityId;
use crate::marks::{Marker, Marks};
use crate::registry::{carrying, ids_of, lemma_selected_push, live, unmarked};
use crate::registry::{Record, Registry};
use crate::tagger::{ready, sentinel_of};

verus! {

/// The identifiers that the engine gave to the five entities of the scene.
#[derive(Clone, Copy, Debug)]
pub struct SceneIds {
    pub plane: EntityId,
    pub cube: EntityId,
    pub light: EntityId,
    pub camera: EntityId,
    pub sentinel: EntityId,
}

/// What setup adds to the world: plane, cube, light and camera, then the sentinel.
/// The cube alone carries the domain marker, the sentinel alone the sentinel marker.
pub open spec fn scene_records(ids: SceneIds) -> Seq<Record> {
    seq![
        unmarked(ids.plane, None),
        Record {
            id: ids.cube,
            parent: None,
            marks: Marks { cube: true, all_ready: false, not_in_scene: false },
        },
        unmarked(ids.light, None),
        unmarked(ids.camera, None),
        Record {
            id: ids.sentinel,
            parent: None,
            marks: Marks { cube: false, all_ready: true, not_in_scene: false },
        },
    ]
}

/// The five identifiers differ from each other and from all that are in use.
pub open spec fn fresh(records: Seq<Record>, ids: SceneIds) -> bool {
    &&& !live(records, ids.plane)
    &&& !live(records, ids.cube)
    &&& !live(records, ids.light)
    &&& !live(records, ids.camera)
    &&& !live(records, ids.sentinel)
    &&& ids.plane != ids.cube
    &&& ids.plane != ids.light
    &&& ids.plane != ids.camera
    &&& ids.plane != ids.sentinel
    &&& ids.cube != ids.light
    &&& ids.cube != ids.camera
    &&& ids.cube != ids.sentinel
    &&& ids.light != ids.camera
    &&& ids.light != ids.sentinel
    &&& ids.camera != ids.sentinel
}

/// Setup adds one sentinel and one cube to those that the world had, and no
/// exclusion marker. In a world that had neither, there is then exactly one entity
/// with the sentinel marker and exactly one with the domain marker, and the world
/// is ready.
pub proof fn lemma_setup_places_markers(before: Seq<Record>, ids: SceneIds)
    ensures
        ids_of(carrying(before + scene_records(ids), Marker::AllReady)) == ids_of(
            carrying(before, Marker::AllReady),
        ).push(ids.sentinel),
        ids_of(carrying(before + scene_records(ids), Marker::Cube)) == ids_of(
            carrying(before, Marker::Cube),
        ).push(ids.cube),
        carrying(before + scene_records(ids), Marker::AllReady) == carrying(
            before,
            Marker::AllReady,
        ).push(scene_records(ids)[4]),
        carrying(before + scene_records(ids), Marker::Cube) == carrying(before, Marker::Cube).push(
            scene_records(ids)[1],
        ),
        carrying(before + scene_records(ids), Marker::NotInScene) == carrying(
            before,
            Marker::NotInScene,
        ),
        carrying(before, Marker::AllReady).len() == 0 ==> {
            &&& ready(before + scene_records(ids))
            &&& sentinel_of(before + scene_records(ids)) == ids.sentinel
        },
        carrying(before, Marker::Cube).len() == 0 ==> ids_of(
            carrying(before + scene_records(ids), Marker::Cube),
        ) == seq![ids.cube],
{
    let scene = scene_records(ids);
    let one = before.push(scene[0]);
    let two = one.push(scene[1]);
    let three = two.push(scene[2]);
    let four = three.push(scene[3]);
    let five = four.push(scene[4]);
    assert(five =~= before + scene);
    assert forall|marker: Marker|
        #![trigger carrying(five, marker)]
        {
            &&& marker == Marker::AllReady ==> carrying(five, marker) == carrying(
                before,
                marker,
            ).push(scene[4])
            &&& marker == Marker::Cube ==> carrying(five, marker) == carrying(before, marker).push(
                scene[1],
            )
            &&& marker == Marker::NotInScene ==> carrying(five, marker) == carrying(before, marker)
        } by {
        lemma_selected_push(before, scene[0], marker, true);
        lemma_selected_push(one, scene[1], marker, true);
        lemma_selected_push(two, scene[2], marker, true);
        lemma_selected_push(three, scene[3], marker, true);
        lemma_selected_push(four, scene[4], marker, true);
    }
    assert(ids_of(carrying(five, Marker::AllReady)) =~= ids_of(
        carrying(before, Marker::AllReady),
    ).push(ids.sentinel));
    assert(ids_of(carrying(five, Marker::Cube)) =~= ids_of(carrying(before, Marker::Cube)).push(
        ids.cube,
    ));
    if carrying(before, Marker::Cube).len() == 0 {
        assert(ids_of(carrying(five, Marker::Cube)) =~= seq![ids.cube]);
    }
}

fn is_fresh(registry: &Registry, ids: SceneIds) -> (ok: bool)
    ensures
        ok == fresh(registry@, ids),
{
    !registry.contains(ids.plane) && !registry.contains(ids.cube) && !registry.contains(ids.light)
        && !registry.contains(ids.camera) && !registry.contains(ids.sentinel) && ids.plane
        != ids.cube && ids.plane != ids.light && ids.plane != ids.camera && ids.plane
        != ids.sentinel && ids.cube != ids.light && ids.cube != ids.camera && ids.cube
        != ids.sentinel && ids.light != ids.camera && ids.light != ids.sentinel && ids.camera
        != ids.sentinel
}

/// Sets the scene up: records the plane, the cube, the light and the camera, and when
/// all of them stand, the sentinel that says so. The cube gets the domain marker.
///
/// The engine spawns the entities and hands their identifiers in. Identifiers that
/// are not fresh are refused as a whole, and the world stays as it was.
pub fn setup(registry: &mut Registry, ids: SceneIds) -> (done: bool)
    ensures
        done == fresh(old(registry)@, ids),
        done ==> final(registry)@ == old(registry)@ + scene_records(ids),
        !done ==> final(registry)@ == old(registry)@,
        done ==> ids_of(carrying(final(registry)@, Marker::AllReady)) == ids_of(
            carrying(old(registry)@, Marker::AllReady),
        ).push(ids.sentinel),
        done ==> ids_of(carrying(final(registry)@, Marker::Cube)) == ids_of(
            carrying(old(registry)@, Marker::Cube),
        ).push(ids.cube),
{
    if !is_fresh(registry, ids) {
        return false;
    }
    let ghost before = registry@;
    let none = Marks { cube: false, all_ready: false, not_in_scene: false };
    registry.spawn(ids.plane, None, none);
    assert(!live(registry@, ids.cube)) by {
        assert forall|i: int| 0 <= i < registry@.len() implies (#[trigger] registry@[i]).id
            != ids.cube by {
            if i < before.len() {
                assert(before[i].id != ids.cube);
            }
        }
    }
    registry.spawn(
        ids.cube,
        None,
        Marks { cube: true, all_ready: false, not_in_scene: false },
    );
    assert(!live(registry@, ids.light)) by {
        assert forall|i: int| 0 <= i < registry@.len() implies (#[trigger] registry@[i]).id
            != ids.light by {
            if i < before.len() {
                assert(before[i].id != ids.light);
            }
        }
    }
    registry.spawn(ids.light, None, none);
    assert(!live(registry@, ids.camera)) by {
        assert forall|i: int| 0 <= i < registry@.len() implies (#[trigger] registry@[i]).id
            != ids.camera by {
            if i < before.len() {
                assert(before[i].id != ids.camera);
            }
        }
    }
    registry.spawn(ids.camera, None, none);
    assert(!live(registry@, ids.sentinel)) by {
        assert forall|i: int| 0 <= i < registry@.len() implies (#[trigger] registry@[i]).id
            != ids.sentinel by {
            if i < before.len() {
                assert(before[i].id != ids.sentinel);
            }
        }
    }
    registry.spawn(
        ids.sentinel,
        None,
        Marks { cube: false, all_ready: true, not_in_scene: false },
    );
    proof {
        assert(registry@ =~= before + scene_records(ids));
        lemma_setup_places_markers(before, ids);
    }
    true
}

} // verus!
