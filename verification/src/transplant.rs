//! Copying objects from one document into another under new identifiers.

use crate::document::{Document, DocumentView};
use crate::error::PdfError;
use crate::object::{ObjectId, Value};
use std::collections::{BTreeMap, BTreeSet};
use vstd::pervasive::unreached;
use vstd::prelude::*;

verus! {

/// How the copies get their identifiers.
#[derive(Clone, Copy, Debug, PartialEq, Eq, Structural)]
pub enum Allocation {
    /// The next free numbers of the target, one after the other, with
    /// generation 0.
    Fresh,
    /// The number of the original raised by `offset`, with the generation of
    /// the original.
    Shift { offset: u32 },
}

/// The identifiers of `ids` under which `objects` holds something, each at
/// its first occurrence only.
pub open spec fn present_ids(objects: Map<ObjectId, Value>, ids: Seq<ObjectId>) -> Seq<ObjectId>
    decreases ids.len(),
{
    if ids.len() == 0 {
        Seq::empty()
    } else {
        let before = present_ids(objects, ids.drop_last());
        if objects.contains_key(ids.last()) && !ids.drop_last().contains(ids.last()) {
            before.push(ids.last())
        } else {
            before
        }
    }
}

/// The number that the copy of `id`, the `index`-th object copied, gets in
/// a target whose counter stood at `base`.
pub open spec fn allocated_number(
    strategy: Allocation,
    base: u32,
    index: int,
    id: ObjectId,
) -> int {
    match strategy {
        Allocation::Fresh => base + 1 + index,
        Allocation::Shift { offset } => id.0 + offset,
    }
}

/// The generation that the copy of `id` gets.
pub open spec fn allocated_generation(strategy: Allocation, id: ObjectId) -> u16 {
    match strategy {
        Allocation::Fresh => 0,
        Allocation::Shift { .. } => id.1,
    }
}

/// Every number to be allocated is one that an identifier can hold.
pub open spec fn allocation_fits(strategy: Allocation, base: u32, present: Seq<ObjectId>) -> bool {
    forall|i: int|
        0 <= i < present.len() ==> #[trigger] allocated_number(strategy, base, i, present[i])
            <= u32::MAX
}

/// The identifier of the copy of `present[index]`.
pub open spec fn allocated_id(
    strategy: Allocation,
    base: u32,
    present: Seq<ObjectId>,
    index: int,
) -> ObjectId {
    (
        allocated_number(strategy, base, index, present[index]) as u32,
        allocated_generation(strategy, present[index]),
    )
}

/// The copy of `present[index]` would take the place of an object that the
/// target holds already.
pub open spec fn collides_at(
    strategy: Allocation,
    before: DocumentView,
    present: Seq<ObjectId>,
    index: int,
) -> bool {
    before.objects.contains_key(allocated_id(strategy, before.max_id, present, index))
}

/// The first position of `present` whose copy would collide, or the length
/// of `present` if none would.
pub open spec fn first_collision(
    strategy: Allocation,
    before: DocumentView,
    present: Seq<ObjectId>,
    from: int,
) -> int
    decreases present.len() - from,
{
    if from < 0 || from >= present.len() {
        present.len() as int
    } else if collides_at(strategy, before, present, from) {
        from
    } else {
        first_collision(strategy, before, present, from + 1)
    }
}

/// What a target is after the objects under `present` were copied into it:
/// it holds what it held, unchanged, and beside that the copies, each equal
/// to its original and under its allocated identifier; `mapping` leads from
/// each original to its copy; the counter has risen to the highest number
/// in use.
pub open spec fn transplanted(
    objects: Map<ObjectId, Value>,
    present: Seq<ObjectId>,
    strategy: Allocation,
    before: DocumentView,
    after: DocumentView,
    mapping: Map<ObjectId, ObjectId>,
) -> bool {
    &&& after.version == before.version
    &&& after.trailer == before.trailer
    &&& mapping.dom() == present.to_set()
    &&& forall|i: int|
        0 <= i < present.len() ==> #[trigger] mapping[present[i]] == allocated_id(
            strategy,
            before.max_id,
            present,
            i,
        )
    &&& forall|i: int|
        0 <= i < present.len() ==> after.objects.contains_key(#[trigger] mapping[present[i]])
            && after.objects[mapping[present[i]]] == objects[present[i]]
    &&& forall|id: ObjectId|
        before.objects.contains_key(id) ==> #[trigger] after.objects.contains_key(id)
            && after.objects[id] == before.objects[id]
    &&& forall|id: ObjectId| #[trigger]
        after.objects.contains_key(id) ==> before.objects.contains_key(id)
            || mapping.values().contains(id)
    &&& after.max_id >= before.max_id
    &&& forall|i: int| 0 <= i < present.len() ==> (#[trigger] mapping[present[i]]).0 <= after.max_id
    &&& after.max_id == before.max_id || exists|i: int|
        0 <= i < present.len() && (#[trigger] mapping[present[i]]).0 == after.max_id
}

/// `present_ids` lists identifiers of `ids` that exist, without repetition,
/// and misses none.
pub proof fn lemma_present_ids(objects: Map<ObjectId, Value>, ids: Seq<ObjectId>)
    ensures
        present_ids(objects, ids).no_duplicates(),
        forall|id: ObjectId|
            #![trigger present_ids(objects, ids).contains(id)]
            #![trigger ids.contains(id)]
            present_ids(objects, ids).contains(id) <==> ids.contains(id) && objects.contains_key(
                id,
            ),
        present_ids(objects, ids).len() <= ids.len(),
    decreases ids.len(),
{
    let present = present_ids(objects, ids);
    if ids.len() > 0 {
        let front = ids.drop_last();
        let last = ids.last();
        let before = present_ids(objects, front);
        lemma_present_ids(objects, front);
        assert forall|id: ObjectId|
            #![trigger present.contains(id)]
            #![trigger ids.contains(id)]
            present.contains(id) <==> ids.contains(id) && objects.contains_key(id) by {
            if present.contains(id) {
                let k = choose|k: int| 0 <= k < present.len() && present[k] == id;
                if k < before.len() {
                    assert(before[k] == id);
                    assert(before.contains(id));
                    let j = choose|j: int| 0 <= j < front.len() && front[j] == id;
                    assert(ids[j] == id);
                } else {
                    assert(ids[ids.len() - 1] == id);
                }
            }
            if ids.contains(id) && objects.contains_key(id) {
                let j = choose|j: int| 0 <= j < ids.len() && ids[j] == id;
                if j < front.len() {
                    assert(front[j] == id);
                    assert(before.contains(id));
                    let k = choose|k: int| 0 <= k < before.len() && before[k] == id;
                    assert(present[k] == id);
                } else if front.contains(id) {
                    assert(before.contains(id));
                    let k = choose|k: int| 0 <= k < before.len() && before[k] == id;
                    assert(present[k] == id);
                } else {
                    assert(present[present.len() - 1] == id);
                }
            }
        }
        assert forall|i: int, j: int|
            0 <= i < j < present.len() implies present[i] != present[j] by {
            if j == before.len() {
                assert(present[i] == before[i]);
                assert(before.contains(before[i]));
            } else {
                assert(present[i] == before[i]);
                assert(present[j] == before[j]);
            }
        }
    }
}

/// A list of existing identifiers without repetition is its own
/// `present_ids`.
pub proof fn lemma_present_ids_of_distinct(objects: Map<ObjectId, Value>, ids: Seq<ObjectId>)
    requires
        ids.no_duplicates(),
        forall|i: int| 0 <= i < ids.len() ==> objects.contains_key(#[trigger] ids[i]),
    ensures
        present_ids(objects, ids) == ids,
    decreases ids.len(),
{
    if ids.len() > 0 {
        let front = ids.drop_last();
        lemma_present_ids_of_distinct(objects, front);
        assert(!front.contains(ids.last())) by {
            if front.contains(ids.last()) {
                let j = choose|j: int| 0 <= j < front.len() && front[j] == ids.last();
                assert(ids[j] == ids[ids.len() - 1]);
            }
        }
        assert(objects.contains_key(ids[ids.len() - 1]));
        assert(front.push(ids.last()) =~= ids);
    }
}

/// `first_collision` stays within bounds, names a colliding position, and
/// passes none on its way.
pub proof fn lemma_first_collision(
    strategy: Allocation,
    before: DocumentView,
    present: Seq<ObjectId>,
    from: int,
)
    requires
        0 <= from <= present.len(),
    ensures
        from <= first_collision(strategy, before, present, from) <= present.len(),
        first_collision(strategy, before, present, from) < present.len() ==> collides_at(
            strategy,
            before,
            present,
            first_collision(strategy, before, present, from),
        ),
        forall|i: int|
            from <= i < first_collision(strategy, before, present, from) ==> !collides_at(
                strategy,
                before,
                present,
                i,
            ),
    decreases present.len() - from,
{
    if from < present.len() && !collides_at(strategy, before, present, from) {
        lemma_first_collision(strategy, before, present, from + 1);
    }
}


/// The copies of two different originals get different identifiers.
pub proof fn lemma_allocated_distinct(
    strategy: Allocation,
    base: u32,
    present: Seq<ObjectId>,
    i: int,
    j: int,
)
    requires
        present.no_duplicates(),
        allocation_fits(strategy, base, present),
        0 <= i < j < present.len(),
    ensures
        allocated_id(strategy, base, present, i) != allocated_id(strategy, base, present, j),
{
    assert(allocated_number(strategy, base, i, present[i]) <= u32::MAX);
    assert(allocated_number(strategy, base, j, present[j]) <= u32::MAX);
    assert(present[i] != present[j]);
}

/// Fresh identifiers are taken by nothing that a target with a sound
/// counter holds.
pub proof fn lemma_fresh_never_collides(before: DocumentView, present: Seq<ObjectId>)
    requires
        crate::document::counter_covers(before.objects, before.max_id),
        allocation_fits(Allocation::Fresh, before.max_id, present),
    ensures
        first_collision(Allocation::Fresh, before, present, 0) == present.len(),
{
    assert forall|i: int| 0 <= i < present.len() implies !collides_at(
        Allocation::Fresh,
        before,
        present,
        i,
    ) by {
        let id = allocated_id(Allocation::Fresh, before.max_id, present, i);
        assert(allocated_number(Allocation::Fresh, before.max_id, i, present[i]) <= u32::MAX);
        if before.objects.contains_key(id) {
            assert(id.0 <= before.max_id);
        }
    }
    lemma_first_collision(Allocation::Fresh, before, present, 0);
}

/// The identifiers of `ids` under which `source` holds an object, each at
/// its first occurrence only.
pub fn present_in(source: &Document, ids: &Vec<ObjectId>) -> (present: Vec<ObjectId>)
    ensures
        present@ == present_ids(source@.objects, ids@),
{
    let mut present: Vec<ObjectId> = Vec::new();
    let mut seen: BTreeSet<ObjectId> = BTreeSet::new();
    let mut k: usize = 0;
    while k < ids.len()
        invariant
            k <= ids.len(),
            present@ == present_ids(source@.objects, ids@.take(k as int)),
            seen@ == ids@.take(k as int).to_set(),
        decreases ids.len() - k,
    {
        let id = ids[k];
        proof {
            let next = ids@.take(k + 1);
            assert(next.drop_last() =~= ids@.take(k as int));
            assert(next.last() == id);
            ids@.take(k as int).lemma_push_to_set_commute(id);
            assert(next =~= ids@.take(k as int).push(id));
        }
        let first = seen.insert(id);
        if first && source.has_object(id) {
            present.push(id);
        }
        k += 1;
    }
    proof {
        assert(ids@.take(ids@.len() as int) =~= ids@);
    }
    present
}

/// Copies the objects that `source` holds under `ids` into `target`, each
/// once and under an identifier chosen by `strategy`, and returns the
/// mapping from each original to its copy. The copies are exact: the
/// references inside them still name the originals. Identifiers of `ids`
/// under which `source` holds nothing are passed over.
///
/// Fails, and leaves `target` as it was, when a number to allocate would
/// not fit an identifier, or when an identifier to allocate is taken.
pub fn transplant(
    source: &Document,
    target: &mut Document,
    ids: &Vec<ObjectId>,
    strategy: Allocation,
) -> (result: Result<BTreeMap<ObjectId, ObjectId>, PdfError>)
    requires
        old(target).wf(),
    ensures
        final(target).wf(),
        ({
            let present = present_ids(source@.objects, ids@);
            let before = old(target)@;
            let hit = first_collision(strategy, before, present, 0);
            match result {
                Ok(mapping) => {
                    &&& allocation_fits(strategy, before.max_id, present)
                    &&& hit == present.len()
                    &&& transplanted(
                        source@.objects,
                        present,
                        strategy,
                        before,
                        final(target)@,
                        mapping@,
                    )
                },
                Err(error) => {
                    &&& final(target)@ == before
                    &&& if !allocation_fits(strategy, before.max_id, present) {
                        error == PdfError::IdentifiersExhausted
                    } else {
                        &&& hit < present.len()
                        &&& error == PdfError::IdentifierCollision
                    }
                },
            }
        }),
{
    let present = present_in(source, ids);
    let base = target.max_id();
    let ghost before = target@;
    let ghost objects = source@.objects;
    proof {
        lemma_present_ids(objects, ids@);
    }
    match strategy {
        Allocation::Fresh => {
            if base as u128 + present.len() as u128 > u32::MAX as u128 {
                proof {
                    let last = present@.len() - 1;
                    assert(allocated_number(strategy, base, last, present@[last]) > u32::MAX);
                }
                return Err(PdfError::IdentifiersExhausted);
            }
            proof {
                assert forall|i: int| 0 <= i < present@.len() implies !collides_at(
                    strategy,
                    before,
                    present@,
                    i,
                ) by {
                    let id = allocated_id(strategy, base, present@, i);
                    if before.objects.contains_key(id) {
                        assert(id.0 <= before.max_id);
                    }
                }
                lemma_first_collision(strategy, before, present@, 0);
            }
        },
        Allocation::Shift { offset } => {
            let mut i: usize = 0;
            while i < present.len()
                invariant
                    i <= present.len(),
                    strategy == (Allocation::Shift { offset }),
                    before == target@,
                    before == old(target)@,
                    target.wf(),
                    base == before.max_id,
                    present@ == present_ids(source@.objects, ids@),
                    forall|j: int|
                        0 <= j < i ==> #[trigger] allocated_number(
                            strategy,
                            base,
                            j,
                            present@[j],
                        ) <= u32::MAX,
                decreases present.len() - i,
            {
                if present[i].0 as u64 + offset as u64 > u32::MAX as u64 {
                    proof {
                        assert(allocated_number(strategy, base, i as int, present@[i as int])
                            > u32::MAX);
                    }
                    return Err(PdfError::IdentifiersExhausted);
                }
                i += 1;
            }
            let mut i: usize = 0;
            while i < present.len()
                invariant
                    i <= present.len(),
                    strategy == (Allocation::Shift { offset }),
                    before == target@,
                    before == old(target)@,
                    target.wf(),
                    base == before.max_id,
                    present@ == present_ids(source@.objects, ids@),
                    allocation_fits(strategy, base, present@),
                    first_collision(strategy, before, present@, 0) == first_collision(
                        strategy,
                        before,
                        present@,
                        i as int,
                    ),
                decreases present.len() - i,
            {
                assert(allocated_number(strategy, base, i as int, present@[i as int]) <= u32::MAX);
                let new_id: ObjectId = (present[i].0 + offset, present[i].1);
                if target.has_object(new_id) {
                    proof {
                        assert(new_id == allocated_id(strategy, base, present@, i as int));
                        assert(collides_at(strategy, before, present@, i as int));
                    }
                    return Err(PdfError::IdentifierCollision);
                }
                i += 1;
            }
        },
    }
    proof {
        lemma_first_collision(strategy, before, present@, 0);
        assert forall|j: int| 0 <= j < present@.len() implies objects.contains_key(
            #[trigger] present@[j],
        ) by {
            assert(present@.contains(present@[j]));
        }
        assert(present@.take(0) =~= Seq::<ObjectId>::empty());
        assert(Seq::<ObjectId>::empty().to_set() =~= Set::<ObjectId>::empty());
    }
    let mut mapping: BTreeMap<ObjectId, ObjectId> = BTreeMap::new();
    assert(mapping@.dom() =~= Set::<ObjectId>::empty());
    let mut i: usize = 0;
    while i < present.len()
        invariant
            i <= present.len(),
            objects == source@.objects,
            before == old(target)@,
            base == before.max_id,
            target.wf(),
            present@.no_duplicates(),
            forall|j: int| 0 <= j < present@.len() ==> objects.contains_key(#[trigger] present@[j]),
            allocation_fits(strategy, base, present@),
            forall|j: int| 0 <= j < present@.len() ==> !collides_at(strategy, before, present@, j),
            transplanted(objects, present@.take(i as int), strategy, before, target@, mapping@),
            strategy is Fresh ==> target@.max_id == base + i,
        decreases present.len() - i,
    {
        let ghost done = present@.take(i as int);
        let ghost next = present@.take(i + 1);
        let ghost target_before = target@;
        let ghost mapping_before = mapping@;
        let id = present[i];
        assert(allocated_number(strategy, base, i as int, present@[i as int]) <= u32::MAX);
        let new_id: ObjectId = match strategy {
            Allocation::Fresh => (target.max_id() + 1, 0),
            Allocation::Shift { offset } => (id.0 + offset, id.1),
        };
        assert(new_id == allocated_id(strategy, base, present@, i as int));
        let copy = match source.get_object(id) {
            Some(object) => object.clone(),
            None => {
                proof {
                    assert(objects.contains_key(present@[i as int]));
                }
                unreached()
            },
        };
        target.insert_object(new_id, copy);
        mapping.insert(id, new_id);
        proof {
            assert(next =~= done.push(id));
            done.lemma_push_to_set_commute(id);
            assert(mapping@.dom() =~= next.to_set());
            assert(!collides_at(strategy, before, present@, i as int));
            assert forall|j: int| 0 <= j < next.len() implies #[trigger] mapping@[next[j]]
                == allocated_id(strategy, before.max_id, next, j) by {
                if j < i {
                    assert(next[j] == done[j]);
                    assert(present@[j] != present@[i as int]);
                    assert(mapping_before[done[j]] == allocated_id(strategy, base, done, j));
                }
            }
            assert forall|j: int| 0 <= j < next.len() implies target@.objects.contains_key(
                #[trigger] mapping@[next[j]],
            ) && target@.objects[mapping@[next[j]]] == objects[next[j]] by {
                if j < i {
                    assert(next[j] == done[j]);
                    assert(present@[j] != present@[i as int]);
                    lemma_allocated_distinct(strategy, base, present@, j, i as int);
                    assert(mapping_before[done[j]] == allocated_id(strategy, base, done, j));
                    assert(target_before.objects.contains_key(mapping_before[done[j]]));
                }
            }
            assert forall|x: ObjectId| #[trigger]
                target@.objects.contains_key(x) implies before.objects.contains_key(x)
                || mapping@.values().contains(x) by {
                if x == new_id {
                    assert(mapping@.contains_key(id) && mapping@[id] == x);
                } else if !before.objects.contains_key(x) {
                    assert(target_before.objects.contains_key(x));
                    assert(mapping_before.values().contains(x));
                    let k = choose|k: ObjectId|
                        mapping_before.contains_key(k) && mapping_before[k] == x;
                    assert(done.to_set().contains(k));
                    assert(k != id) by {
                        let j = choose|j: int| 0 <= j < done.len() && done[j] == k;
                        assert(present@[j] != present@[i as int]);
                    }
                    assert(mapping@.contains_key(k) && mapping@[k] == x);
                }
            }
            assert forall|j: int| 0 <= j < next.len() implies (#[trigger] mapping@[next[j]]).0
                <= target@.max_id by {
                if j < i {
                    assert(next[j] == done[j]);
                    assert(present@[j] != present@[i as int]);
                    assert(mapping_before[done[j]].0 <= target_before.max_id);
                }
            }
            if target@.max_id != before.max_id {
                if target@.max_id == target_before.max_id {
                    let j = choose|j: int|
                        0 <= j < done.len() && (#[trigger] mapping_before[done[j]]).0
                            == target_before.max_id;
                    assert(next[j] == done[j]);
                    assert(present@[j] != present@[i as int]);
                    assert(mapping@[next[j]].0 == target@.max_id);
                } else {
                    assert(mapping@[next[i as int]].0 == target@.max_id);
                }
            }
        }
        i += 1;
    }
    proof {
        assert(present@.take(present@.len() as int) =~= present@);
        lemma_first_collision(strategy, before, present@, 0);
    }
    Ok(mapping)
}

} // verus!
