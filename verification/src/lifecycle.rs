//! What holds of the world from setup through any number of ticks.

use vstd::prelude::*;
use crate::hierarchy::{cut, in_subtree, outside};
use crate::hierarchy::{lemma_cut_push, lemma_parentless_in_subtree};
use crate::marks::Marker;
use crate::registry::{carrying, distinct_ids, lemma_record_found, unmarked, Record};
use crate::setup::{fresh, lemma_setup_places_markers, scene_records, SceneIds};
use crate::tagger::{after_tick, lemma_tagging_marks_all_but_cube, ready, tag, tagged};

verus! {

/// The world after `ticks` ticks.
pub open spec fn after_ticks(records: Seq<Record>, ticks: nat) -> Seq<Record>
    decreases ticks,
{
    if ticks == 0 {
        records
    } else {
        after_ticks(after_tick(records), (ticks - 1) as nat)
    }
}

/// On how many of the next `ticks` ticks the tagging runs.
pub open spec fn firings(records: Seq<Record>, ticks: nat) -> nat
    decreases ticks,
{
    if ticks == 0 {
        0
    } else {
        firings(after_tick(records), (ticks - 1) as nat) + if ready(records) {
            1nat
        } else {
            0nat
        }
    }
}

/// The first tick after setup in an empty world leaves four of the five entities:
/// the cube as it was, and plane, light and camera with the exclusion marker.
pub proof fn lemma_first_tick_of_scene(ids: SceneIds)
    requires
        fresh(Seq::empty(), ids),
    ensures
        ready(scene_records(ids)),
        after_tick(scene_records(ids)) == seq![
            tag(unmarked(ids.plane, None)),
            scene_records(ids)[1],
            tag(unmarked(ids.light, None)),
            tag(unmarked(ids.camera, None)),
        ],
{
    let scene = scene_records(ids);
    lemma_setup_places_markers(Seq::empty(), ids);
    assert(Seq::<Record>::empty() + scene =~= scene);
    let root = ids.sentinel;
    let all = tagged(scene);
    assert(distinct_ids(all));
    assert(all[4].id == root);
    assert forall|k: int| 0 <= k < 5 implies in_subtree(all, (#[trigger] all[k]).id, root) == (k
        == 4) by {
        lemma_record_found(all, k);
        lemma_parentless_in_subtree(all, all[k].id, root);
    }
    let none = Seq::<Record>::empty();
    let one = none.push(all[0]);
    let two = one.push(all[1]);
    let three = two.push(all[2]);
    let four = three.push(all[3]);
    let five = four.push(all[4]);
    assert(five =~= all);
    assert(cut(none, all, root, false) =~= none);
    lemma_cut_push(none, all[0], all, root, false);
    lemma_cut_push(one, all[1], all, root, false);
    lemma_cut_push(two, all[2], all, root, false);
    lemma_cut_push(three, all[3], all, root, false);
    lemma_cut_push(four, all[4], all, root, false);
    assert(all[1] == scene[1]);
    assert(outside(all, root) =~= seq![
        tag(unmarked(ids.plane, None)),
        scene[1],
        tag(unmarked(ids.light, None)),
        tag(unmarked(ids.camera, None)),
    ]);
}

/// After a tick the world is not ready, whatever the tick found.
pub proof fn lemma_tick_ends_readiness(records: Seq<Record>)
    ensures
        !ready(after_tick(records)),
        after_tick(after_tick(records)) == after_tick(records),
{
    if ready(records) {
        lemma_tagging_marks_all_but_cube(records);
    }
}

/// The world is ready until the tick that despawns the sentinel and never from
/// then on: after the first tick no further tick changes the world, and where the
/// tagging ran no entity carries the sentinel marker on any later tick.
pub proof fn lemma_never_ready_again(records: Seq<Record>, ticks: nat)
    requires
        ticks >= 1,
    ensures
        !ready(after_ticks(records, ticks)),
        after_ticks(records, ticks) == after_tick(records),
        ready(records) ==> carrying(after_ticks(records, ticks), Marker::AllReady).len() == 0,
    decreases ticks,
{
    lemma_tick_ends_readiness(records);
    if ready(records) {
        lemma_tagging_marks_all_but_cube(records);
    }
    if ticks > 1 {
        lemma_never_ready_again(after_tick(records), (ticks - 1) as nat);
    } else {
        assert(after_ticks(after_tick(records), 0) == after_tick(records));
    }
}

/// Over the whole run the tagging runs once if the world was ready at the start,
/// and never if it was not.
pub proof fn lemma_tagging_runs_once(records: Seq<Record>, ticks: nat)
    ensures
        firings(records, ticks) == if ready(records) && ticks >= 1 {
            1nat
        } else {
            0nat
        },
    decreases ticks,
{
    if ticks > 0 {
        lemma_tick_ends_readiness(records);
        lemma_tagging_runs_once(after_tick(records), (ticks - 1) as nat);
    }
}

} // verus!
