//! The registry: what the start-up logic reads of the engine's world.

use vstd::prelude::*;
use crate::entity::EntityId;
use crate::marks::{Marker, Marks};

verus! {

/// One entity of the world: its identifier, the entity it hangs below, if any, and
/// its markers. The parent need not be in the registry.
#[derive(Clone, Copy, Debug, PartialEq, Eq)]
pub struct Record {
    pub id: EntityId,
    pub parent: Option<EntityId>,
    pub marks: Marks,
}

/// The answer to "which is the entity that carries this marker?".
#[derive(Clone, Copy, Debug, PartialEq, Eq, Structural)]
pub enum Lookup {
    NotFound,
    ExactlyOne(EntityId),
    MultipleFound,
}

/// An entity that carries no marker.
pub open spec fn unmarked(id: EntityId, parent: Option<EntityId>) -> Record {
    Record { id, parent, marks: Marks { cube: false, all_ready: false, not_in_scene: false } }
}

/// No identifier stands in two records.
pub open spec fn distinct_ids(records: Seq<Record>) -> bool {
    forall|i: int, j: int| 0 <= i < j < records.len() ==> records[i].id != records[j].id
}

/// Some record has the identifier `id`.
pub open spec fn live(records: Seq<Record>, id: EntityId) -> bool {
    exists|i: int| 0 <= i < records.len() && (#[trigger] records[i]).id == id
}

/// Where the record of `id` stands, if `id` is live.
pub open spec fn position_of(records: Seq<Record>, id: EntityId) -> int {
    choose|i: int| 0 <= i < records.len() && (#[trigger] records[i]).id == id
}

/// The record of `id`, if `id` is live.
pub open spec fn record_of(records: Seq<Record>, id: EntityId) -> Option<Record> {
    if live(records, id) {
        Some(records[position_of(records, id)])
    } else {
        None
    }
}

/// Among distinct identifiers a record is found where it stands.
pub proof fn lemma_record_found(records: Seq<Record>, i: int)
    requires
        distinct_ids(records),
        0 <= i < records.len(),
    ensures
        live(records, records[i].id),
        position_of(records, records[i].id) == i,
        record_of(records, records[i].id) == Some(records[i]),
{
    let id = records[i].id;
    assert(records[i].id == id);
    let at = position_of(records, id);
    assert(0 <= at < records.len() && records[at].id == id);
    if at < i {
        assert(records[at].id != records[i].id);
    } else if i < at {
        assert(records[i].id != records[at].id);
    }
}

/// The records in which `marker` is present, or those in which it is absent, in
/// the registry's order.
pub open spec fn selected(records: Seq<Record>, marker: Marker, present: bool) -> Seq<Record> {
    records.filter(|r: Record| r.marks.carries(marker) == present)
}

/// The records that carry `marker`, in the registry's order.
pub open spec fn carrying(records: Seq<Record>, marker: Marker) -> Seq<Record> {
    selected(records, marker, true)
}

/// The records that do not carry `marker`, in the registry's order.
pub open spec fn lacking(records: Seq<Record>, marker: Marker) -> Seq<Record> {
    selected(records, marker, false)
}

/// The identifiers of `records`, in their order.
pub open spec fn ids_of(records: Seq<Record>) -> Seq<EntityId> {
    records.map_values(|r: Record| r.id)
}

/// What a lookup answers when `ids` are the entities that match.
pub open spec fn lookup_of(ids: Seq<EntityId>) -> Lookup {
    if ids.len() == 0 {
        Lookup::NotFound
    } else if ids.len() == 1 {
        Lookup::ExactlyOne(ids[0])
    } else {
        Lookup::MultipleFound
    }
}

/// Selecting from a sequence with one more record selects from the sequence, and
/// then takes the record or leaves it.
pub proof fn lemma_selected_push(
    records: Seq<Record>,
    record: Record,
    marker: Marker,
    present: bool,
)
    ensures
        selected(records.push(record), marker, present) == if record.marks.carries(marker)
            == present {
            selected(records, marker, present).push(record)
        } else {
            selected(records, marker, present)
        },
        ids_of(selected(records.push(record), marker, present)) == if record.marks.carries(marker)
            == present {
            ids_of(selected(records, marker, present)).push(record.id)
        } else {
            ids_of(selected(records, marker, present))
        },
{
    broadcast use Seq::lemma_filter_push;

    if record.marks.carries(marker) == present {
        assert(ids_of(selected(records, marker, present).push(record)) =~= ids_of(
            selected(records, marker, present),
        ).push(record.id));
    }
}

/// Where the record of `id` stands in `records`.
pub(crate) fn find(records: &Vec<Record>, id: EntityId) -> (found: Option<usize>)
    ensures
        match found {
            Some(i) => i < records@.len() && records@[i as int].id == id,
            None => !live(records@, id),
        },
{
    let mut i: usize = 0;
    while i < records.len()
        invariant
            i <= records.len(),
            forall|j: int| 0 <= j < i ==> (#[trigger] records@[j]).id != id,
        decreases records.len() - i,
    {
        if records[i].id == id {
            return Some(i);
        }
        i += 1;
    }
    None
}

/// The entities of a world, in the order in which they were spawned.
#[derive(Debug)]
pub struct Registry {
    records: Vec<Record>,
}

impl View for Registry {
    type V = Seq<Record>;

    closed spec fn view(&self) -> Seq<Record> {
        if distinct_ids(self.records@) {
            self.records@
        } else {
            Seq::empty()
        }
    }
}

impl Registry {
    #[verifier::type_invariant]
    spec fn identifiers_are_distinct(&self) -> bool {
        distinct_ids(self.records@)
    }

    /// No identifier stands in two records of a registry.
    pub proof fn lemma_distinct_ids(self)
        ensures
            distinct_ids(self@),
    {
    }

    /// The records, for reading.
    pub(crate) fn records(&self) -> (records: &Vec<Record>)
        ensures
            records@ == self@,
            distinct_ids(records@),
    {
        proof {
            use_type_invariant(self);
        }
        &self.records
    }

    /// A world without entities.
    pub fn new() -> (registry: Registry)
        ensures
            registry@ == Seq::<Record>::empty(),
    {
        Registry { records: Vec::new() }
    }

    /// Hands the records out and leaves the registry empty, so that they can be
    /// changed freely and put back as a whole.
    pub(crate) fn take_records(&mut self) -> (records: Vec<Record>)
        ensures
            records@ == old(self)@,
            distinct_ids(records@),
            final(self)@ == Seq::<Record>::empty(),
    {
        proof {
            use_type_invariant(&*self);
        }
        let mut records: Vec<Record> = Vec::new();
        std::mem::swap(&mut self.records, &mut records);
        records
    }

    /// Puts back records that were handed out.
    pub(crate) fn put_records(&mut self, records: Vec<Record>)
        requires
            distinct_ids(records@),
        ensures
            final(self)@ == records@,
    {
        self.records = records;
    }

    /// The number of entities.
    pub fn len(&self) -> (count: usize)
        ensures
            count == self@.len(),
    {
        self.records().len()
    }

    /// Whether `id` names an entity of this world.
    pub fn contains(&self, id: EntityId) -> (found: bool)
        ensures
            found == live(self@, id),
    {
        find(self.records(), id).is_some()
    }

    /// The record of `id`, if it names an entity of this world.
    pub fn get(&self, id: EntityId) -> (found: Option<Record>)
        ensures
            found == record_of(self@, id),
    {
        let records = self.records();
        match find(records, id) {
            Some(i) => {
                proof {
                    lemma_record_found(records@, i as int);
                }
                Some(records[i])
            },
            None => None,
        }
    }

    /// Takes in the entity `id` with its parent and markers, behind all others.
    /// An identifier that is in use is refused, and the world stays as it was.
    pub fn spawn(&mut self, id: EntityId, parent: Option<EntityId>, marks: Marks) -> (added: bool)
        ensures
            added == !live(old(self)@, id),
            added ==> final(self)@ == old(self)@.push(Record { id, parent, marks }),
            !added ==> final(self)@ == old(self)@,
    {
        if find(self.records(), id).is_some() {
            return false;
        }
        let mut records = self.take_records();
        records.push(Record { id, parent, marks });
        self.records = records;
        true
    }

    fn select(&self, marker: Marker, present: bool) -> (ids: Vec<EntityId>)
        ensures
            ids@ == ids_of(selected(self@, marker, present)),
    {
        let records = self.records();
        let mut ids: Vec<EntityId> = Vec::new();
        let mut i: usize = 0;
        while i < records.len()
            invariant
                i <= records.len(),
                ids@ == ids_of(selected(records@.take(i as int), marker, present)),
            decreases records.len() - i,
        {
            proof {
                lemma_selected_push(records@.take(i as int), records@[i as int], marker, present);
                assert(records@.take(i + 1) =~= records@.take(i as int).push(records@[i as int]));
            }
            if records[i].marks.has(marker) == present {
                ids.push(records[i].id);
            }
            i += 1;
        }
        proof {
            assert(records@.take(i as int) =~= records@);
        }
        ids
    }

    /// The entities that carry `marker`, in the registry's order.
    pub fn with(&self, marker: Marker) -> (ids: Vec<EntityId>)
        ensures
            ids@ == ids_of(carrying(self@, marker)),
    {
        self.select(marker, true)
    }

    /// The entities that do not carry `marker`, in the registry's order.
    pub fn without(&self, marker: Marker) -> (ids: Vec<EntityId>)
        ensures
            ids@ == ids_of(lacking(self@, marker)),
    {
        self.select(marker, false)
    }

    /// The one entity that carries `marker`, or why there is no such one.
    pub fn single(&self, marker: Marker) -> (found: Lookup)
        ensures
            found == lookup_of(ids_of(carrying(self@, marker))),
    {
        let ids = self.with(marker);
        if ids.len() == 0 {
            Lookup::NotFound
        } else if ids.len() == 1 {
            Lookup::ExactlyOne(ids[0])
        } else {
            Lookup::MultipleFound
        }
    }
}

} // verus!
