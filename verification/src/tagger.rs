//! The readiness test and the tagging that it lets through once.

use vstd::prelude::*;
use vstd::pervasive::unreached;
use crate::entity::EntityId;
use crate::hierarchy::{cut, descends, in_subtree, outside, parent_of, subtree};
use crate::hierarchy::lemma_cut_push;
use crate::marks::{Marker, Marks};
use crate::registry::{carrying, distinct_ids, ids_of, lacking, live, position_of};
use crate::registry::{lemma_record_found, lemma_selected_push};
use crate::registry::{Lookup, Record, Registry};

verus! {

/// The world is ready while exactly one entity carries the sentinel marker.
pub open spec fn ready(records: Seq<Record>) -> bool {
    carrying(records, Marker::AllReady).len() == 1
}

/// The sentinel, while the world is ready.
pub open spec fn sentinel_of(records: Seq<Record>) -> EntityId
    recommends
        ready(records),
{
    carrying(records, Marker::AllReady)[0].id
}

/// The record after the tagging: what is not the cube carries the exclusion marker.
pub open spec fn tag(record: Record) -> Record {
    Record {
        id: record.id,
        parent: record.parent,
        marks: Marks {
            cube: record.marks.cube,
            all_ready: record.marks.all_ready,
            not_in_scene: record.marks.not_in_scene || !record.marks.cube,
        },
    }
}

/// All records after the tagging.
pub open spec fn tagged(records: Seq<Record>) -> Seq<Record> {
    records.map_values(|r: Record| tag(r))
}

/// The world after the tagging: every entity tagged that is not the cube, and then
/// the sentinel gone with all its descendants.
pub open spec fn after_tagging(records: Seq<Record>) -> Seq<Record>
    recommends
        ready(records),
{
    outside(tagged(records), sentinel_of(records))
}

/// What the tagging did, for the engine to do the same.
#[derive(Clone, Debug, PartialEq, Eq)]
pub struct Tagging {
    /// The sentinel that was despawned.
    pub sentinel: EntityId,
    /// The entities that got the exclusion marker, in the registry's order: all that
    /// did not carry the domain marker, the sentinel among them.
    pub tagged: Vec<EntityId>,
    /// The sentinel and its descendants, which are gone, in the registry's order.
    pub despawned: Vec<EntityId>,
}

impl Tagging {
    /// This is the account of the tagging of `records`.
    pub open spec fn describes(&self, records: Seq<Record>) -> bool {
        &&& self.sentinel == sentinel_of(records)
        &&& self.tagged@ == ids_of(lacking(records, Marker::Cube))
        &&& self.despawned@ == ids_of(subtree(records, sentinel_of(records)))
    }
}

/// The readiness test: whether exactly one entity carries the sentinel marker.
/// None is an ordinary answer, and so are several.
pub fn should_run(registry: &Registry) -> (run: bool)
    ensures
        run == ready(registry@),
{
    match registry.single(Marker::AllReady) {
        Lookup::ExactlyOne(_) => true,
        _ => false,
    }
}

/// Tagging changes neither who is live nor who is whose parent.
pub proof fn lemma_tagging_keeps_parents(records: Seq<Record>, id: EntityId)
    requires
        distinct_ids(records),
    ensures
        distinct_ids(tagged(records)),
        live(tagged(records), id) == live(records, id),
        parent_of(tagged(records), id) == parent_of(records, id),
{
    let after = tagged(records);
    assert forall|i: int, j: int| 0 <= i < j < after.len() implies after[i].id != after[j].id by {
        assert(records[i].id != records[j].id);
    }
    if live(records, id) {
        let i = position_of(records, id);
        assert(after[i].id == id);
        lemma_record_found(records, i);
        lemma_record_found(after, i);
    }
    if live(after, id) {
        let i = position_of(after, id);
        assert(records[i].id == id);
    }
}

/// Tagging moves no entity into a subtree or out of one.
pub proof fn lemma_tagging_keeps_subtrees(records: Seq<Record>, id: EntityId, root: EntityId)
    requires
        distinct_ids(records),
    ensures
        in_subtree(tagged(records), id, root) == in_subtree(records, id, root),
{
    lemma_tagging_keeps_parents(records, root);
    if in_subtree(records, id, root) {
        let steps = choose|steps: nat| descends(records, id, root, steps);
        lemma_tagging_keeps_descent(records, id, root, steps);
    }
    if in_subtree(tagged(records), id, root) {
        let steps = choose|steps: nat| descends(tagged(records), id, root, steps);
        lemma_tagging_keeps_descent(records, id, root, steps);
    }
}

/// Tagging changes no path from an entity up to another.
proof fn lemma_tagging_keeps_descent(
    records: Seq<Record>,
    id: EntityId,
    root: EntityId,
    steps: nat,
)
    requires
        distinct_ids(records),
    ensures
        descends(tagged(records), id, root, steps) == descends(records, id, root, steps),
    decreases steps,
{
    lemma_tagging_keeps_parents(records, id);
    if steps > 0 {
        match parent_of(records, id) {
            Some(parent) => lemma_tagging_keeps_descent(records, parent, root, (steps - 1) as nat),
            None => {},
        }
    }
}

/// The subtree of the tagged world holds the entities of the subtree before.
pub proof fn lemma_tagging_keeps_cut(
    part: Seq<Record>,
    all: Seq<Record>,
    root: EntityId,
    inside: bool,
)
    requires
        distinct_ids(all),
    ensures
        cut(tagged(part), tagged(all), root, inside) == tagged(cut(part, all, root, inside)),
        ids_of(cut(tagged(part), tagged(all), root, inside)) == ids_of(
            cut(part, all, root, inside),
        ),
    decreases part.len(),
{
    if part.len() == 0 {
        assert(tagged(part) =~= Seq::<Record>::empty());
        assert(cut(part, all, root, inside) =~= Seq::<Record>::empty());
        assert(cut(tagged(part), tagged(all), root, inside) =~= Seq::<Record>::empty());
        assert(tagged(cut(part, all, root, inside)) =~= Seq::<Record>::empty());
    } else {
        let front = part.drop_last();
        let last = part.last();
        lemma_tagging_keeps_cut(front, all, root, inside);
        lemma_tagging_keeps_subtrees(all, last.id, root);
        assert(part =~= front.push(last));
        assert(tagged(part) =~= tagged(front).push(tag(last)));
        lemma_cut_push(front, last, all, root, inside);
        lemma_cut_push(tagged(front), tag(last), tagged(all), root, inside);
        if in_subtree(all, last.id, root) == inside {
            assert(tagged(cut(front, all, root, inside).push(last)) =~= tagged(
                cut(front, all, root, inside),
            ).push(tag(last)));
        }
    }
    assert(ids_of(tagged(cut(part, all, root, inside))) =~= ids_of(cut(part, all, root, inside)));
}

/// After the tagging every entity that is left and is not the cube carries the
/// exclusion marker, the cube is as it was, and no entity carries the sentinel
/// marker.
pub proof fn lemma_tagging_marks_all_but_cube(records: Seq<Record>)
    requires
        ready(records),
    ensures
        forall|i: int|
            0 <= i < after_tagging(records).len() && !(#[trigger] after_tagging(
                records,
            )[i]).marks.cube ==> after_tagging(records)[i].marks.not_in_scene,
        forall|i: int|
            0 <= i < after_tagging(records).len() && (#[trigger] after_tagging(
                records,
            )[i]).marks.cube ==> records.contains(after_tagging(records)[i]),
        carrying(after_tagging(records), Marker::AllReady).len() == 0,
{
    broadcast use
        Seq::lemma_filter_pred,
        Seq::lemma_filter_contains,
        Seq::lemma_filter_contains_rev,
    ;

    let root = sentinel_of(records);
    let after = after_tagging(records);
    assert forall|i: int| 0 <= i < after.len() implies {
        &&& !(#[trigger] after[i]).marks.cube ==> after[i].marks.not_in_scene
        &&& after[i].marks.cube ==> records.contains(after[i])
        &&& !after[i].marks.all_ready
    } by {
        assert(after.contains(after[i]));
        assert(tagged(records).contains(after[i]));
        let j = choose|j: int| 0 <= j < tagged(records).len() && tagged(records)[j] == after[i];
        assert(after[i] == tag(records[j]));
        if after[i].marks.cube {
            assert(tag(records[j]) == records[j]);
        }
        if after[i].marks.all_ready {
            assert(carrying(records, Marker::AllReady).contains(records[j]));
            assert(records[j].id == root);
            assert(tagged(records)[j].id == root);
            assert(descends(tagged(records), root, root, 0));
            assert(in_subtree(tagged(records), after[i].id, root));
            assert(false);
        }
    }
    let left = carrying(after, Marker::AllReady);
    if left.len() > 0 {
        assert(left.contains(left[0]));
        assert(after.contains(left[0]));
        assert(false);
    }
}

/// The tagging, which runs when the world is ready: every entity that does not carry
/// the domain marker gets the exclusion marker, and when all have it the sentinel is
/// despawned with all its descendants.
pub fn mark_as_dont_safe(registry: &mut Registry) -> (done: Tagging)
    requires
        ready(old(registry)@),
    ensures
        done.describes(old(registry)@),
        final(registry)@ == after_tagging(old(registry)@),
        carrying(final(registry)@, Marker::AllReady).len() == 0,
        forall|i: int|
            0 <= i < final(registry)@.len() && !(#[trigger] final(registry)@[i]).marks.cube
                ==> final(registry)@[i].marks.not_in_scene,
{
    let sentinel = match registry.single(Marker::AllReady) {
        Lookup::ExactlyOne(id) => id,
        _ => unreached(),
    };
    let ghost before = registry@;
    let mut records = registry.take_records();
    let mut ids: Vec<EntityId> = Vec::new();
    let mut i: usize = 0;
    while i < records.len()
        invariant
            i <= records.len(),
            records@.len() == before.len(),
            forall|k: int| 0 <= k < i ==> #[trigger] records@[k] == tag(before[k]),
            forall|k: int| i <= k < before.len() ==> #[trigger] records@[k] == before[k],
            ids@ == ids_of(lacking(before.take(i as int), Marker::Cube)),
        decreases records.len() - i,
    {
        proof {
            lemma_selected_push(before.take(i as int), before[i as int], Marker::Cube, false);
            assert(before.take(i + 1) =~= before.take(i as int).push(before[i as int]));
        }
        let record = records[i];
        if !record.marks.cube {
            ids.push(record.id);
            records.set(
                i,
                Record {
                    id: record.id,
                    parent: record.parent,
                    marks: Marks {
                        cube: false,
                        all_ready: record.marks.all_ready,
                        not_in_scene: true,
                    },
                },
            );
        }
        i += 1;
    }
    proof {
        assert(before.take(i as int) =~= before);
        assert(records@ =~= tagged(before));
        lemma_tagging_keeps_parents(before, sentinel);
        lemma_tagging_keeps_cut(before, before, sentinel, true);
    }
    registry.put_records(records);
    let despawned = registry.despawn_recursive(sentinel);
    proof {
        lemma_tagging_marks_all_but_cube(before);
    }
    Tagging { sentinel, tagged: ids, despawned }
}

/// What one tick of the schedule makes of the world: the tagging where the world
/// is ready, and nothing where it is not.
pub open spec fn after_tick(records: Seq<Record>) -> Seq<Record> {
    if ready(records) {
        after_tagging(records)
    } else {
        records
    }
}

/// One tick of the schedule: tests readiness, and runs the tagging if it holds.
/// Returns the account of the tagging on the one tick on which it ran.
pub fn tick(registry: &mut Registry) -> (fired: Option<Tagging>)
    ensures
        fired.is_some() == ready(old(registry)@),
        fired matches Some(done) ==> done.describes(old(registry)@),
        final(registry)@ == after_tick(old(registry)@),
        !ready(final(registry)@),
{
    if should_run(registry) {
        Some(mark_as_dont_safe(registry))
    } else {
        None
    }
}

} // verus!
