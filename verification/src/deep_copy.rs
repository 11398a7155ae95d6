//! Copying what a set of objects reaches into another document, with every
//! copied reference redirected to the copies.

use crate::closure::{closure, collect_reachable, search_limit, search_order, within_limit};
use crate::document::{counter_covers, Document, DocumentView};
use crate::error::PdfError;
use crate::object::{ObjectId, Value};
use crate::rewrite::{rewrite_references, rewrite_value, rewritten_object};
use crate::transplant::{
    allocated_id, allocated_number, allocation_fits, lemma_allocated_distinct,
    lemma_fresh_never_collides, lemma_present_ids_of_distinct, transplant, transplanted, Allocation,
};
use std::collections::BTreeMap;
use vstd::pervasive::unreached;
use vstd::prelude::*;

verus! {

/// What a target is after the closure of `roots` in `objects` was copied
/// into it under fresh identifiers.
///
/// `mapping` leads from each object of the closure to its copy, and to a
/// different copy for each. The copies have the numbers that follow the old
/// counter, in the order in which a breadth-first search from the roots
/// meets the originals, and generation 0; the counter stands at the last of
/// them. A copy holds what its original holds, except that a reference to
/// an object of the closure names the copy of that object. What the target
/// held before is unchanged, and it holds nothing else.
pub open spec fn deep_copied(
    objects: Map<ObjectId, Value>,
    roots: Seq<ObjectId>,
    before: DocumentView,
    after: DocumentView,
    mapping: Map<ObjectId, ObjectId>,
) -> bool {
    let reach = closure(objects, roots);
    let order = search_order(objects, roots);
    &&& reach.finite()
    &&& mapping.dom() == reach
    &&& order.to_set() == reach
    &&& forall|i: int|
        0 <= i < order.len() ==> #[trigger] mapping[order[i]] == (
            (before.max_id + 1 + i) as u32,
            0u16,
        )
    &&& forall|a: ObjectId, b: ObjectId|
        reach.contains(a) && reach.contains(b) && a != b ==> #[trigger] mapping[a]
            != #[trigger] mapping[b]
    &&& forall|id: ObjectId|
        reach.contains(id) ==> {
            &&& (#[trigger] mapping[id]).1 == 0
            &&& before.max_id < mapping[id].0 <= before.max_id + reach.len()
            &&& after.objects.contains_key(mapping[id])
            &&& after.objects[mapping[id]] == rewrite_value(objects[id], mapping)
        }
    &&& after.max_id == before.max_id + reach.len()
    &&& after.version == before.version
    &&& after.trailer == before.trailer
    &&& forall|id: ObjectId|
        before.objects.contains_key(id) ==> #[trigger] after.objects.contains_key(id)
            && after.objects[id] == before.objects[id]
    &&& forall|id: ObjectId| #[trigger]
        after.objects.contains_key(id) ==> before.objects.contains_key(id)
            || mapping.values().contains(id)
}

/// A transplant under fresh identifiers followed by the rewriting of the
/// copies is a deep copy.
proof fn lemma_deep_copied(
    objects: Map<ObjectId, Value>,
    roots: Seq<ObjectId>,
    order: Seq<ObjectId>,
    before: DocumentView,
    middle: DocumentView,
    after: DocumentView,
    mapping: Map<ObjectId, ObjectId>,
)
    requires
        counter_covers(before.objects, before.max_id),
        order == search_order(objects, roots),
        order.no_duplicates(),
        order.to_set() == closure(objects, roots),
        allocation_fits(Allocation::Fresh, before.max_id, order),
        transplanted(objects, order, Allocation::Fresh, before, middle, mapping),
        after.version == middle.version,
        after.trailer == middle.trailer,
        after.max_id == middle.max_id,
        after.objects.dom() == middle.objects.dom(),
        forall|id: ObjectId| #[trigger]
            middle.objects.contains_key(id) ==> after.objects[id] == rewritten_object(
                middle.objects[id],
                id,
                mapping,
                None,
            ),
    ensures
        deep_copied(objects, roots, before, after, mapping),
        closure(objects, roots).len() == order.len(),
{
    let reach = closure(objects, roots);
    let base = before.max_id;
    vstd::seq_lib::seq_to_set_is_finite(order);
    order.unique_seq_to_set();
    assert forall|id: ObjectId| reach.contains(id) implies {
        &&& (#[trigger] mapping[id]).1 == 0
        &&& before.max_id < mapping[id].0 <= before.max_id + reach.len()
        &&& after.objects.contains_key(mapping[id])
        &&& after.objects[mapping[id]] == rewrite_value(objects[id], mapping)
    } by {
        assert(order.to_set().contains(id));
        let i = choose|i: int| 0 <= i < order.len() && order[i] == id;
        assert(mapping[order[i]] == allocated_id(Allocation::Fresh, base, order, i));
        assert(allocated_number(Allocation::Fresh, base, i, order[i]) <= u32::MAX);
        assert(middle.objects.contains_key(mapping[order[i]]));
        assert(mapping.contains_key(id));
        assert(mapping.values().contains(mapping[id]));
    }
    assert forall|a: ObjectId, b: ObjectId|
        reach.contains(a) && reach.contains(b) && a != b implies #[trigger] mapping[a]
        != #[trigger] mapping[b] by {
        assert(order.to_set().contains(a));
        assert(order.to_set().contains(b));
        let i = choose|i: int| 0 <= i < order.len() && order[i] == a;
        let j = choose|j: int| 0 <= j < order.len() && order[j] == b;
        assert(mapping[order[i]] == allocated_id(Allocation::Fresh, base, order, i));
        assert(mapping[order[j]] == allocated_id(Allocation::Fresh, base, order, j));
        if i < j {
            lemma_allocated_distinct(Allocation::Fresh, base, order, i, j);
        } else {
            lemma_allocated_distinct(Allocation::Fresh, base, order, j, i);
        }
    }
    assert forall|id: ObjectId|
        before.objects.contains_key(id) implies #[trigger] after.objects.contains_key(
        id,
    ) && after.objects[id] == before.objects[id] by {
        assert(middle.objects.contains_key(id));
        if mapping.values().contains(id) {
            let k = choose|k: ObjectId| mapping.contains_key(k) && mapping[k] == id;
            assert(reach.contains(k));
            assert(before.max_id < mapping[k].0);
        }
    }
    assert forall|id: ObjectId|
        #[trigger] after.objects.contains_key(id) implies before.objects.contains_key(
        id,
    ) || mapping.values().contains(id) by {
        assert(middle.objects.contains_key(id));
    }
    if order.len() == 0 {
        assert(after.max_id == before.max_id);
    } else {
        let last = order.len() - 1;
        assert(mapping[order[last]] == allocated_id(Allocation::Fresh, base, order, last));
        assert(allocated_number(Allocation::Fresh, base, last, order[last]) <= u32::MAX);
        if middle.max_id != before.max_id {
            let i = choose|i: int|
                0 <= i < order.len() && (#[trigger] mapping[order[i]]).0 == middle.max_id;
            assert(mapping[order[i]] == allocated_id(Allocation::Fresh, base, order, i));
            assert(allocated_number(Allocation::Fresh, base, i, order[i]) <= u32::MAX);
        }
    }
}

/// Copies into `target` every object of `source` that `ids_to_copy` reach,
/// under fresh identifiers, and redirects the references inside the copies
/// so that they name the copies. Returns the mapping from each original to
/// its copy. Identifiers under which `source` holds nothing are passed
/// over; a reference to such an identifier is copied as it is.
///
/// Fails, and leaves `target` as it was, when the work of the search exceeds
/// its limit, or when the counter of `target` cannot be raised by the number
/// of objects to copy.
pub fn manual_deep_copy(
    source: &Document,
    target: &mut Document,
    ids_to_copy: &[ObjectId],
) -> (result: Result<BTreeMap<ObjectId, ObjectId>, PdfError>)
    requires
        old(target).wf(),
    ensures
        final(target).wf(),
        ({
            let objects = source@.objects;
            let limit = search_limit(objects, ids_to_copy@);
            let before = old(target)@;
            match result {
                Ok(mapping) => {
                    &&& within_limit(objects, ids_to_copy@, limit)
                    &&& before.max_id + closure(objects, ids_to_copy@).len() <= u32::MAX
                    &&& deep_copied(objects, ids_to_copy@, before, final(target)@, mapping@)
                },
                Err(error) => {
                    &&& final(target)@ == before
                    &&& if !within_limit(objects, ids_to_copy@, limit) {
                        error == (PdfError::LoopLimit { limit: limit as u128 })
                    } else {
                        &&& error == PdfError::IdentifiersExhausted
                        &&& closure(objects, ids_to_copy@).finite()
                        &&& before.max_id + closure(objects, ids_to_copy@).len() > u32::MAX
                    }
                },
            }
        }),
{
    let ghost objects = source@.objects;
    let ghost before = target@;
    let order = match collect_reachable(source, ids_to_copy) {
        Ok(order) => order,
        Err(error) => {
            return Err(error);
        },
    };
    proof {
        assert forall|i: int| 0 <= i < order@.len() implies objects.contains_key(
            #[trigger] order@[i],
        ) by {
            assert(order@.to_set().contains(order@[i]));
        }
        lemma_present_ids_of_distinct(objects, order@);
        vstd::seq_lib::seq_to_set_is_finite(order@);
        order@.unique_seq_to_set();
    }
    let mapping = match transplant(source, target, &order, Allocation::Fresh) {
        Ok(mapping) => mapping,
        Err(error) => {
            proof {
                if allocation_fits(Allocation::Fresh, before.max_id, order@) {
                    lemma_fresh_never_collides(before, order@);
                    assert(false);
                } else {
                    let i = choose|i: int|
                        0 <= i < order@.len() && !(#[trigger] allocated_number(
                            Allocation::Fresh,
                            before.max_id,
                            i,
                            order@[i],
                        ) <= u32::MAX);
                }
            }
            return Err(error);
        },
    };
    let ghost middle = target@;
    proof {
        if order@.len() > 0 {
            let last = order@.len() - 1;
            assert(allocated_number(Allocation::Fresh, before.max_id, last, order@[last])
                <= u32::MAX);
        }
    }
    match rewrite_references(target, &mapping, None) {
        Ok(()) => {},
        Err(_) => {
            proof {
                assert forall|id: ObjectId| #[trigger]
                    mapping@.values().contains(id) implies middle.objects.contains_key(id) by {
                    let k = choose|k: ObjectId| mapping@.contains_key(k) && mapping@[k] == id;
                    assert(order@.to_set().contains(k));
                    let i = choose|i: int| 0 <= i < order@.len() && order@[i] == k;
                    assert(middle.objects.contains_key(mapping@[order@[i]]));
                }
            }
            unreached::<()>()
        },
    }
    proof {
        lemma_deep_copied(objects, ids_to_copy@, order@, before, middle, target@, mapping@);
    }
    Ok(mapping)
}

} // verus!
