//! The stage: a world together with the phase that the process has reached in it.

use vstd::prelude::*;
use crate::entity::EntityId;
use crate::hierarchy::{cut, in_subtree, lemma_cut_push, lemma_parentless_in_subtree};
use crate::marks::{Marker, Marks};
use crate::registry::{carrying, distinct_ids, lemma_record_found, lemma_selected_push, live};
use crate::registry::{unmarked, Record, Registry};
use crate::setup::{fresh, lemma_setup_places_markers, scene_records, setup, SceneIds};
use crate::tagger::{after_tagging, after_tick, ready, sentinel_of, tagged, tick, Tagging};
use crate::tagger::{lemma_tagging_keeps_subtrees, lemma_tagging_marks_all_but_cube};

verus! {

/// How far the process has come.
#[derive(Clone, Copy, Debug, PartialEq, Eq, Structural)]
pub enum Phase {
    /// The scene is not set up yet.
    AwaitingSetup,
    /// The scene is set up and the sentinel says so; the tagging is due.
    Ready,
    /// The tagging has run and the sentinel is gone. Nothing leads on from here.
    Done,
}

/// The cube of `records`, where there is exactly one.
pub open spec fn cube_of(records: Seq<Record>) -> Record {
    carrying(records, Marker::Cube)[0]
}

/// What holds of the world in each phase: a sentinel exists while the tagging is
/// due, and neither before nor after; the cube exists from setup on, is nobody's
/// child, and never carries the sentinel marker or the exclusion marker.
pub open spec fn fits(phase: Phase, records: Seq<Record>) -> bool {
    match phase {
        Phase::AwaitingSetup => {
            &&& carrying(records, Marker::AllReady).len() == 0
            &&& carrying(records, Marker::Cube).len() == 0
        },
        Phase::Ready => {
            &&& carrying(records, Marker::AllReady).len() == 1
            &&& carrying(records, Marker::Cube).len() == 1
            &&& cube_of(records).parent is None
            &&& !cube_of(records).marks.all_ready
            &&& !cube_of(records).marks.not_in_scene
        },
        Phase::Done => {
            &&& carrying(records, Marker::AllReady).len() == 0
            &&& carrying(records, Marker::Cube).len() == 1
            &&& cube_of(records).parent is None
            &&& !cube_of(records).marks.not_in_scene
        },
    }
}

/// The tagging keeps a cube that is nobody's child and is not the sentinel: the
/// cubes after it are the cubes before it.
pub proof fn lemma_tagging_keeps_cubes(part: Seq<Record>, all: Seq<Record>, root: EntityId)
    requires
        distinct_ids(all),
        forall|i: int|
            0 <= i < part.len() && (#[trigger] part[i]).marks.cube ==> all.contains(part[i])
                && part[i].parent is None && part[i].id != root,
    ensures
        carrying(cut(tagged(part), tagged(all), root, false), Marker::Cube) == carrying(
            part,
            Marker::Cube,
        ),
    decreases part.len(),
{
    if part.len() == 0 {
        assert(tagged(part) =~= Seq::<Record>::empty());
        assert(cut(tagged(part), tagged(all), root, false) =~= Seq::<Record>::empty());
        assert(carrying(part, Marker::Cube) =~= Seq::<Record>::empty());
        assert(carrying(Seq::<Record>::empty(), Marker::Cube) =~= Seq::<Record>::empty());
    } else {
        let front = part.drop_last();
        let last = part.last();
        assert(part =~= front.push(last));
        assert(tagged(part) =~= tagged(front).push(tagged(part).last()));
        assert forall|i: int| 0 <= i < front.len() && (#[trigger] front[i]).marks.cube implies {
            all.contains(front[i]) && front[i].parent is None && front[i].id != root
        } by {
            assert(front[i] == part[i]);
        }
        lemma_tagging_keeps_cubes(front, all, root);
        let after = tagged(part).last();
        lemma_cut_push(tagged(front), after, tagged(all), root, false);
        lemma_selected_push(front, last, Marker::Cube, true);
        lemma_selected_push(
            cut(tagged(front), tagged(all), root, false),
            after,
            Marker::Cube,
            true,
        );
        if last.marks.cube {
            assert(after == last);
            assert(part[part.len() - 1] == last);
            let at = choose|at: int| 0 <= at < all.len() && all[at] == last;
            lemma_record_found(all, at);
            lemma_parentless_in_subtree(all, last.id, root);
            lemma_tagging_keeps_subtrees(all, last.id, root);
        }
    }
}

/// A world and the phase that the process has reached in it.
#[derive(Debug)]
pub struct Stage {
    phase: Phase,
    registry: Registry,
}

impl Stage {
    #[verifier::type_invariant]
    spec fn world_fits_phase(&self) -> bool {
        fits(self.phase, self.registry@)
    }

    /// The phase that the process is in.
    pub closed spec fn now(&self) -> Phase {
        self.phase
    }

    /// The entities of the world.
    pub closed spec fn world(&self) -> Seq<Record> {
        self.registry@
    }

    /// An empty world in which the scene is still to be set up.
    pub fn new() -> (stage: Stage)
        ensures
            stage.now() == Phase::AwaitingSetup,
            stage.world() == Seq::<Record>::empty(),
    {
        let registry = Registry::new();
        proof {
            assert(carrying(registry@, Marker::AllReady) =~= Seq::<Record>::empty());
            assert(carrying(registry@, Marker::Cube) =~= Seq::<Record>::empty());
        }
        Stage { phase: Phase::AwaitingSetup, registry }
    }

    /// The phase that the process is in.
    pub fn phase(&self) -> (phase: Phase)
        ensures
            phase == self.now(),
            fits(phase, self.world()),
    {
        proof {
            use_type_invariant(self);
        }
        self.phase
    }

    /// The world, for reading.
    pub fn registry(&self) -> (registry: &Registry)
        ensures
            registry@ == self.world(),
            fits(self.now(), self.world()),
    {
        proof {
            use_type_invariant(self);
        }
        &self.registry
    }

    /// Hands phase and world out and leaves an empty stage behind.
    fn take(&mut self) -> (taken: (Phase, Registry))
        ensures
            taken.0 == old(self).now(),
            taken.1@ == old(self).world(),
            fits(taken.0, taken.1@),
            final(self).now() == Phase::AwaitingSetup,
            final(self).world() == Seq::<Record>::empty(),
    {
        proof {
            use_type_invariant(&*self);
        }
        let mut taken = Stage::new();
        std::mem::swap(self, &mut taken);
        (taken.phase, taken.registry)
    }

    /// Takes in an entity that carries no marker, such as the engine and its
    /// plugins spawn at any time. An identifier that is in use is refused.
    pub fn spawn(&mut self, id: EntityId, parent: Option<EntityId>) -> (added: bool)
        ensures
            added == !live(old(self).world(), id),
            added ==> final(self).world() == old(self).world().push(unmarked(id, parent)),
            !added ==> final(self).world() == old(self).world(),
            final(self).now() == old(self).now(),
    {
        let (phase, mut registry) = self.take();
        let ghost before = registry@;
        let added = registry.spawn(
            id,
            parent,
            Marks { cube: false, all_ready: false, not_in_scene: false },
        );
        proof {
            lemma_selected_push(before, unmarked(id, parent), Marker::AllReady, true);
            lemma_selected_push(before, unmarked(id, parent), Marker::Cube, true);
        }
        *self = Stage { phase, registry };
        added
    }

    /// Sets the scene up, once: in a stage that awaits it, and with identifiers that
    /// are fresh. Then the scene stands and the tagging is due. Otherwise nothing
    /// changes.
    pub fn setup(&mut self, ids: SceneIds) -> (done: bool)
        ensures
            done == (old(self).now() == Phase::AwaitingSetup && fresh(old(self).world(), ids)),
            done ==> final(self).now() == Phase::Ready && final(self).world() == old(
                self,
            ).world() + scene_records(ids),
            !done ==> final(self).now() == old(self).now() && final(self).world() == old(
                self,
            ).world(),
    {
        let (phase, mut registry) = self.take();
        let ghost before = registry@;
        let done = match phase {
            Phase::AwaitingSetup => setup(&mut registry, ids),
            _ => false,
        };
        proof {
            if done {
                lemma_setup_places_markers(before, ids);
            }
        }
        *self = Stage {
            phase: if done {
                Phase::Ready
            } else {
                phase
            },
            registry,
        };
        done
    }

    /// One tick of the schedule. In the phase in which the tagging is due it runs,
    /// and the process is done; in the other phases nothing happens.
    pub fn tick(&mut self) -> (fired: Option<Tagging>)
        ensures
            fired.is_some() == (old(self).now() == Phase::Ready),
            fired matches Some(done) ==> done.describes(old(self).world()),
            final(self).world() == after_tick(old(self).world()),
            final(self).now() == match old(self).now() {
                Phase::AwaitingSetup => Phase::AwaitingSetup,
                Phase::Ready => Phase::Done,
                Phase::Done => Phase::Done,
            },
    {
        let (phase, mut registry) = self.take();
        let ghost before = registry@;
        proof {
            registry.lemma_distinct_ids();
        }
        let fired = tick(&mut registry);
        proof {
            if phase == Phase::Ready {
                lemma_ready_world_keeps_cube(before);
            }
        }
        *self = Stage {
            phase: match phase {
                Phase::Ready => Phase::Done,
                _ => phase,
            },
            registry,
        };
        fired
    }
}

/// In a world that is ready, with a cube that is nobody's child, the tagging leaves
/// the cube as it was and no sentinel.
pub proof fn lemma_ready_world_keeps_cube(records: Seq<Record>)
    requires
        distinct_ids(records),
        fits(Phase::Ready, records),
    ensures
        fits(Phase::Done, after_tagging(records)),
        cube_of(after_tagging(records)) == cube_of(records),
{
    broadcast use
        Seq::lemma_filter_pred,
        Seq::lemma_filter_contains,
        Seq::lemma_filter_contains_rev,
    ;

    let root = sentinel_of(records);
    let sentinel = carrying(records, Marker::AllReady)[0];
    assert(carrying(records, Marker::AllReady).contains(sentinel));
    assert(records.contains(sentinel));
    assert forall|i: int| 0 <= i < records.len() && (#[trigger] records[i]).marks.cube implies {
        records.contains(records[i]) && records[i].parent is None && records[i].id != root
    } by {
        assert(carrying(records, Marker::Cube).contains(records[i]));
        assert(records[i] == cube_of(records));
        let at = choose|at: int| 0 <= at < records.len() && records[at] == sentinel;
        if records[i].id == root {
            if at < i {
                assert(records[at].id != records[i].id);
            } else if i < at {
                assert(records[i].id != records[at].id);
            }
        }
    }
    lemma_tagging_keeps_cubes(records, records, root);
    lemma_tagging_marks_all_but_cube(records);
}

} // verus!
