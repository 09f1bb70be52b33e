//! Parents and subtrees: which entities go when one is despawned with all below it.

use vstd::prelude::*;
use crate::entity::EntityId;
use crate::registry::{distinct_ids, find, ids_of, lemma_record_found, live, position_of};
use crate::registry::{Record, Registry};

verus! {

/// The parent of the entity `id`, where `id` is live and has one.
pub open spec fn parent_of(records: Seq<Record>, id: EntityId) -> Option<EntityId> {
    if live(records, id) {
        records[position_of(records, id)].parent
    } else {
        None
    }
}

/// Going from `id` to its parent `steps` times arrives at `root`.
pub open spec fn descends(records: Seq<Record>, id: EntityId, root: EntityId, steps: nat) -> bool
    decreases steps,
{
    if steps == 0 {
        id == root
    } else {
        match parent_of(records, id) {
            Some(parent) => descends(records, parent, root, (steps - 1) as nat),
            None => false,
        }
    }
}

/// `root` is live, and `id` is `root` or a descendant of it.
pub open spec fn in_subtree(records: Seq<Record>, id: EntityId, root: EntityId) -> bool {
    live(records, root) && exists|steps: nat| descends(records, id, root, steps)
}

/// Those of `part` that are inside the subtree of `root` in `all`, or those that are
/// outside of it, in their order.
pub open spec fn cut(part: Seq<Record>, all: Seq<Record>, root: EntityId, inside: bool) -> Seq<
    Record,
> {
    part.filter(|r: Record| in_subtree(all, r.id, root) == inside)
}

/// `root` with all its descendants, in the registry's order.
pub open spec fn subtree(records: Seq<Record>, root: EntityId) -> Seq<Record> {
    cut(records, records, root, true)
}

/// What is left when `root` goes with all its descendants.
pub open spec fn outside(records: Seq<Record>, root: EntityId) -> Seq<Record> {
    cut(records, records, root, false)
}

/// An entity without a parent is in no subtree but its own.
pub proof fn lemma_parentless_in_subtree(records: Seq<Record>, id: EntityId, root: EntityId)
    requires
        parent_of(records, id) is None,
    ensures
        in_subtree(records, id, root) == (live(records, root) && id == root),
{
    if in_subtree(records, id, root) {
        let steps = choose|steps: nat| descends(records, id, root, steps);
        assert(steps == 0);
    }
    if id == root {
        assert(descends(records, id, root, 0));
    }
}

/// For each record the place of its parent's record, where the parent is live.
spec fn linked(records: Seq<Record>, links: Seq<Option<usize>>) -> bool {
    &&& links.len() == records.len()
    &&& forall|i: int|
        0 <= i < records.len() ==> match #[trigger] links[i] {
            Some(j) => j < records.len() && records[i].parent == Some(records[j as int].id),
            None => match records[i].parent {
                Some(parent) => !live(records, parent),
                None => true,
            },
        }
}

/// Every flag that is set stands at a record of the subtree.
spec fn sound(records: Seq<Record>, flags: Seq<bool>, root: EntityId) -> bool {
    &&& flags.len() == records.len()
    &&& forall|i: int|
        0 <= i < records.len() && #[trigger] flags[i] ==> in_subtree(records, records[i].id, root)
}

/// The flag of `root` is set.
spec fn rooted(records: Seq<Record>, flags: Seq<bool>, root: EntityId) -> bool {
    forall|i: int| 0 <= i < records.len() && (#[trigger] records[i]).id == root ==> flags[i]
}

/// The record at `i` is flagged if its parent is.
spec fn closed_at(links: Seq<Option<usize>>, flags: Seq<bool>, i: int) -> bool {
    match links[i] {
        Some(j) => flags[j as int] ==> flags[i],
        None => true,
    }
}

/// The number of flags that are not set.
spec fn unset(flags: Seq<bool>) -> nat
    decreases flags.len(),
{
    if flags.len() == 0 {
        0
    } else {
        unset(flags.drop_last()) + if flags.last() {
            0nat
        } else {
            1nat
        }
    }
}

/// Setting a flag leaves one flag less that is not set.
proof fn lemma_marking_counts(flags: Seq<bool>, i: int)
    requires
        0 <= i < flags.len(),
        !flags[i],
    ensures
        unset(flags.update(i, true)) + 1 == unset(flags),
    decreases flags.len(),
{
    if i == flags.len() - 1 {
        assert(flags.update(i, true).drop_last() =~= flags.drop_last());
    } else {
        lemma_marking_counts(flags.drop_last(), i);
        assert(flags.update(i, true).drop_last() =~= flags.drop_last().update(i, true));
    }
}

/// A child of a record of the subtree is in the subtree.
proof fn lemma_child_joins(records: Seq<Record>, root: EntityId, child: int, parent: int)
    requires
        distinct_ids(records),
        0 <= child < records.len(),
        0 <= parent < records.len(),
        records[child].parent == Some(records[parent].id),
        in_subtree(records, records[parent].id, root),
    ensures
        in_subtree(records, records[child].id, root),
{
    lemma_record_found(records, child);
    let steps = choose|steps: nat| descends(records, records[parent].id, root, steps);
    assert(descends(records, records[child].id, root, steps + 1));
}

/// Flags that hold `root` and are closed under "child of" hold the whole subtree.
proof fn lemma_closed_covers(
    records: Seq<Record>,
    links: Seq<Option<usize>>,
    flags: Seq<bool>,
    root: EntityId,
    i: int,
    steps: nat,
)
    requires
        distinct_ids(records),
        linked(records, links),
        flags.len() == records.len(),
        live(records, root),
        rooted(records, flags, root),
        forall|k: int| 0 <= k < records.len() ==> closed_at(links, flags, k),
        0 <= i < records.len(),
        descends(records, records[i].id, root, steps),
    ensures
        flags[i],
    decreases steps,
{
    lemma_record_found(records, i);
    if steps > 0 {
        let parent = records[i].parent->Some_0;
        assert(descends(records, parent, root, (steps - 1) as nat));
        assert(live(records, parent)) by {
            if steps - 1 == 0 {
                assert(parent == root);
            } else {
                assert(parent_of(records, parent) is Some);
            }
        }
        assert(links[i] is Some);
        let j = links[i]->Some_0 as int;
        lemma_closed_covers(records, links, flags, root, j, (steps - 1) as nat);
        assert(closed_at(links, flags, i));
    }
}

/// For each record the place of its parent's record, where the parent is live.
fn parent_links(records: &Vec<Record>) -> (links: Vec<Option<usize>>)
    ensures
        linked(records@, links@),
{
    let mut links: Vec<Option<usize>> = Vec::new();
    let mut i: usize = 0;
    while i < records.len()
        invariant
            i <= records.len(),
            links.len() == i,
            forall|k: int|
                0 <= k < i ==> match #[trigger] links@[k] {
                    Some(j) => j < records@.len() && records@[k].parent == Some(
                        records@[j as int].id,
                    ),
                    None => match records@[k].parent {
                        Some(parent) => !live(records@, parent),
                        None => true,
                    },
                },
        decreases records.len() - i,
    {
        let link = match records[i].parent {
            Some(parent) => find(records, parent),
            None => None,
        };
        links.push(link);
        i += 1;
    }
    links
}

/// For each record whether it is `root` or a descendant of it.
fn subtree_flags(records: &Vec<Record>, root: EntityId) -> (flags: Vec<bool>)
    requires
        distinct_ids(records@),
    ensures
        flags@.len() == records@.len(),
        forall|i: int|
            0 <= i < records@.len() ==> #[trigger] flags@[i] == in_subtree(
                records@,
                records@[i].id,
                root,
            ),
{
    let n = records.len();
    let mut flags: Vec<bool> = Vec::new();
    let mut i: usize = 0;
    while i < n
        invariant
            n == records.len(),
            i <= n,
            flags.len() == i,
            forall|k: int| 0 <= k < i ==> #[trigger] flags@[k] == (records@[k].id == root),
        decreases n - i,
    {
        flags.push(records[i].id == root);
        i += 1;
    }
    if find(records, root).is_none() {
        return flags;
    }
    let links = parent_links(records);
    proof {
        assert forall|k: int| 0 <= k < n && #[trigger] flags@[k] implies in_subtree(
            records@,
            records@[k].id,
            root,
        ) by {
            assert(descends(records@, records@[k].id, root, 0));
        }
    }
    let mut changed = true;
    while changed
        invariant
            n == records.len(),
            flags.len() == n,
            distinct_ids(records@),
            linked(records@, links@),
            live(records@, root),
            sound(records@, flags@, root),
            rooted(records@, flags@, root),
            !changed ==> forall|k: int| 0 <= k < n ==> closed_at(links@, flags@, k),
        decreases unset(flags@) + if changed {
                1nat
            } else {
                0nat
            },
    {
        changed = false;
        let ghost start = flags@;
        let mut i: usize = 0;
        while i < n
            invariant
                n == records.len(),
                flags.len() == n,
                i <= n,
                distinct_ids(records@),
                linked(records@, links@),
                sound(records@, flags@, root),
                rooted(records@, flags@, root),
                unset(flags@) + (if changed {
                    1nat
                } else {
                    0nat
                }) <= unset(start),
                !changed ==> forall|k: int| 0 <= k < i ==> closed_at(links@, flags@, k),
            decreases n - i,
        {
            if !flags[i] {
                if let Some(j) = links[i] {
                    if flags[j] {
                        proof {
                            lemma_marking_counts(flags@, i as int);
                            lemma_child_joins(records@, root, i as int, j as int);
                        }
                        flags.set(i, true);
                        changed = true;
                    }
                }
            }
            i += 1;
        }
    }
    proof {
        assert forall|k: int| 0 <= k < n implies #[trigger] flags@[k] == in_subtree(
            records@,
            records@[k].id,
            root,
        ) by {
            if in_subtree(records@, records@[k].id, root) {
                let steps = choose|steps: nat| descends(records@, records@[k].id, root, steps);
                lemma_closed_covers(records@, links@, flags@, root, k, steps);
            }
        }
    }
    flags
}

impl Registry {
    /// Despawns `root` with all its descendants and says which entities went, in the
    /// registry's order. Where `root` is not live nothing goes.
    pub fn despawn_recursive(&mut self, root: EntityId) -> (gone: Vec<EntityId>)
        ensures
            gone@ == ids_of(subtree(old(self)@, root)),
            final(self)@ == outside(old(self)@, root),
    {
        let records = self.take_records();
        let flags = subtree_flags(&records, root);
        let mut gone: Vec<EntityId> = Vec::new();
        let mut kept: Vec<Record> = Vec::new();
        let mut i: usize = 0;
        while i < records.len()
            invariant
                i <= records.len(),
                flags@.len() == records@.len(),
                distinct_ids(records@),
                forall|k: int|
                    0 <= k < records@.len() ==> #[trigger] flags@[k] == in_subtree(
                        records@,
                        records@[k].id,
                        root,
                    ),
                gone@ == ids_of(cut(records@.take(i as int), records@, root, true)),
                kept@ == cut(records@.take(i as int), records@, root, false),
                forall|k: int|
                    0 <= k < kept@.len() ==> exists|j: int|
                        0 <= j < i && records@[j] == #[trigger] kept@[k],
                distinct_ids(kept@),
            decreases records.len() - i,
        {
            proof {
                lemma_cut_push(records@.take(i as int), records@[i as int], records@, root, true);
                lemma_cut_push(records@.take(i as int), records@[i as int], records@, root, false);
                assert(records@.take(i + 1) =~= records@.take(i as int).push(records@[i as int]));
            }
            if flags[i] {
                gone.push(records[i].id);
            } else {
                kept.push(records[i]);
            }
            i += 1;
        }
        proof {
            assert(records@.take(i as int) =~= records@);
        }
        self.put_records(kept);
        gone
    }
}

/// Cutting a sequence with one more record cuts the sequence, and then takes the
/// record or leaves it.
pub proof fn lemma_cut_push(
    part: Seq<Record>,
    record: Record,
    all: Seq<Record>,
    root: EntityId,
    inside: bool,
)
    ensures
        cut(part.push(record), all, root, inside) == if in_subtree(all, record.id, root)
            == inside {
            cut(part, all, root, inside).push(record)
        } else {
            cut(part, all, root, inside)
        },
        ids_of(cut(part.push(record), all, root, inside)) == if in_subtree(all, record.id, root)
            == inside {
            ids_of(cut(part, all, root, inside)).push(record.id)
        } else {
            ids_of(cut(part, all, root, inside))
        },
{
    broadcast use Seq::lemma_filter_push;

    if in_subtree(all, record.id, root) == inside {
        assert(ids_of(cut(part, all, root, inside).push(record)) =~= ids_of(
            cut(part, all, root, inside),
        ).push(record.id));
    }
}

} // verus!
