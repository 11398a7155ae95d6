//! Joining documents: the pages of each further document are copied into
//! the first and listed behind the pages that it has.

use crate::closure::{
    closure, collect_reachable, lemma_root_reachable, search_limit, within_limit,
};
use crate::document::{Document, DocumentView};
use crate::error::PdfError;
use crate::names::{name_bytes, name_vec};
use crate::object::{lemma_get_after_set, Dictionary, Object, ObjectId, Value};
use crate::page_tree::{
    find_page_tree, has_page_node, kids_at, kids_of, page_tree_of, references_to, with_count,
    with_kids,
};
use crate::pages::{check_pages, first_unusable, lemma_first_unusable, usable_page};
use crate::rewrite::{
    rewrite_references, rewrite_value, rewritten_object, with_parent, ParentPatch,
};
use crate::transplant::{
    allocated_id, allocated_number, allocation_fits, collides_at, first_collision,
    lemma_first_collision, lemma_present_ids_of_distinct, transplant, transplanted, Allocation,
};
use std::collections::BTreeMap;
use vstd::pervasive::unreached;
use vstd::prelude::*;

verus! {

/// A document to merge, with its pages in their order.
pub struct MergeInput {
    pub document: Document,
    pub pages: Vec<ObjectId>,
}

/// `id` with its number raised by `offset`.
pub open spec fn shifted(id: ObjectId, offset: u32) -> ObjectId {
    ((id.0 + offset) as u32, id.1)
}

/// The mapping that leads from each identifier of `reach` to itself raised
/// by `offset`.
pub open spec fn shift_map(reach: Set<ObjectId>, offset: u32) -> Map<ObjectId, ObjectId> {
    Map::new(|id: ObjectId| reach.contains(id), |id: ObjectId| shifted(id, offset))
}

/// `ids`, each raised by `offset`.
pub open spec fn shifted_all(ids: Seq<ObjectId>, offset: u32) -> Seq<ObjectId> {
    ids.map_values(|id: ObjectId| shifted(id, offset))
}

/// Why the pages `pages` of `source`, with all they reach, cannot be copied
/// into `target` under identifiers raised by its counter, or `None` if they
/// can. The reasons, in the order in which they are looked for: the search
/// for what the pages reach exceeds its limit; a page does not exist or is
/// not a dictionary (the first such page decides); the number of an object
/// to copy, raised by the counter of `target`, is more than an identifier
/// can hold; an identifier so raised is taken in `target`.
pub open spec fn shift_failure(
    target: DocumentView,
    source: DocumentView,
    pages: Seq<ObjectId>,
) -> Option<PdfError> {
    let objects = source.objects;
    let limit = search_limit(objects, pages);
    let reach = closure(objects, pages);
    let bad = first_unusable(objects, pages, 0);
    if !within_limit(objects, pages, limit) {
        Some(PdfError::LoopLimit { limit: limit as u128 })
    } else if bad < pages.len() {
        if objects.contains_key(pages[bad]) {
            Some(PdfError::NotADictionary { number: pages[bad].0, generation: pages[bad].1 })
        } else {
            Some(PdfError::PageNotMapped { number: pages[bad].0, generation: pages[bad].1 })
        }
    } else if exists|id: ObjectId| reach.contains(id) && id.0 + target.max_id > u32::MAX {
        Some(PdfError::IdentifiersExhausted)
    } else if exists|id: ObjectId|
        reach.contains(id) && target.objects.contains_key(shifted(id, target.max_id)) {
        Some(PdfError::IdentifierCollision)
    } else {
        None
    }
}

/// Why the pages `pages` of `source` cannot be appended to the node `tree`
/// of `target`, or `None` if they can: `target` has no such node, or the
/// pages cannot be copied into it.
pub open spec fn append_failure(
    target: DocumentView,
    tree: ObjectId,
    source: DocumentView,
    pages: Seq<ObjectId>,
) -> Option<PdfError> {
    if !has_page_node(target, tree) {
        Some(PdfError::NoPageTree)
    } else {
        shift_failure(target, source, pages)
    }
}

/// `after` is `before` with an exact copy of every object of `reach` added
/// under the identifier of the original raised by the counter of `before`,
/// and with the counter raised to the highest number in use.
pub open spec fn shift_copied(
    objects: Map<ObjectId, Value>,
    reach: Set<ObjectId>,
    before: DocumentView,
    after: DocumentView,
) -> bool {
    let offset = before.max_id;
    &&& after.version == before.version
    &&& after.trailer == before.trailer
    &&& forall|id: ObjectId|
        reach.contains(id) ==> {
            &&& id.0 + offset <= u32::MAX
            &&& !before.objects.contains_key(#[trigger] shifted(id, offset))
            &&& after.objects.contains_key(shifted(id, offset))
            &&& after.objects[shifted(id, offset)] == objects[id]
        }
    &&& forall|id: ObjectId|
        before.objects.contains_key(id) ==> #[trigger] after.objects.contains_key(id)
            && after.objects[id] == before.objects[id]
    &&& forall|id: ObjectId| #[trigger]
        after.objects.contains_key(id) ==> before.objects.contains_key(id) || exists|
            origin: ObjectId,
        |
            reach.contains(origin) && #[trigger] shifted(origin, offset) == id
    &&& after.max_id >= before.max_id
    &&& forall|id: ObjectId|
        reach.contains(id) ==> (#[trigger] shifted(id, offset)).0 <= after.max_id
    &&& after.max_id == before.max_id || exists|id: ObjectId|
        reach.contains(id) && (#[trigger] shifted(id, offset)).0 == after.max_id
}

/// `after` is `before` with the pages `pages` of `source` appended to its
/// node `tree`.
///
/// Every object that the pages reach in `source` has a copy in `after`,
/// under its own identifier raised by the counter of `before`. A copy holds
/// what its original holds with every reference to a copied object raised
/// in the same way; the copy of a page has, beyond that, `tree` as its
/// `Parent`. The node lists what it listed and, behind that, the copies of
/// `pages` in their order. Everything else that `before` held is unchanged,
/// and `after` holds nothing more. The counter has risen to the highest
/// number in use.
pub open spec fn pages_appended(
    before: DocumentView,
    tree: ObjectId,
    source: DocumentView,
    pages: Seq<ObjectId>,
    after: DocumentView,
) -> bool {
    let objects = source.objects;
    let reach = closure(objects, pages);
    let offset = before.max_id;
    let mapping = shift_map(reach, offset);
    &&& append_failure(before, tree, source, pages) is None
    &&& after.version == before.version
    &&& after.trailer == before.trailer
    &&& forall|id: ObjectId|
        reach.contains(id) ==> {
            &&& after.objects.contains_key(#[trigger] shifted(id, offset))
            &&& after.objects[shifted(id, offset)] == (if pages.contains(id) {
                with_parent(rewrite_value(objects[id], mapping), tree)
            } else {
                rewrite_value(objects[id], mapping)
            })
        }
    &&& forall|id: ObjectId|
        before.objects.contains_key(id) && id != tree ==> #[trigger] after.objects.contains_key(id)
            && after.objects[id] == before.objects[id]
    &&& after.objects.contains_key(tree)
    &&& after.objects[tree] == with_kids(
        before.objects[tree],
        kids_of(before.objects[tree])->0 + references_to(shifted_all(pages, offset)),
    )
    &&& forall|id: ObjectId| #[trigger]
        after.objects.contains_key(id) ==> before.objects.contains_key(id) || exists|
            origin: ObjectId,
        |
            reach.contains(origin) && #[trigger] shifted(origin, offset) == id
    &&& after.max_id >= before.max_id
    &&& forall|id: ObjectId|
        reach.contains(id) ==> (#[trigger] shifted(id, offset)).0 <= after.max_id
    &&& after.max_id == before.max_id || exists|id: ObjectId|
        reach.contains(id) && (#[trigger] shifted(id, offset)).0 == after.max_id
}

/// The model of an array that holds the items of two others, one behind
/// the other, is the models of these two, one behind the other.
proof fn lemma_array_joined(front: Vec<Object>, back: Vec<Object>, joined: Vec<Object>)
    requires
        joined@ == front@ + back@,
    ensures
        (Object::Array(joined))@ == Value::Array(
            (Object::Array(front))@->Array_0 + (Object::Array(back))@->Array_0,
        ),
{
    (Object::Array(joined)).lemma_view();
    (Object::Array(front)).lemma_view();
    (Object::Array(back)).lemma_view();
    let a = (Object::Array(front))@->Array_0;
    let b = (Object::Array(back))@->Array_0;
    let c = (Object::Array(joined))@->Array_0;
    assert forall|i: int| 0 <= i < c.len() implies c[i] == (a + b)[i] by {
        if i < a.len() {
            assert(joined@[i] == front@[i]);
        } else {
            assert(joined@[i] == back@[i - a.len()]);
        }
    }
    assert(c =~= a + b);
}

/// Copies the pages `pages` of `source`, with all they reach, into
/// `target`, each object under its identifier raised by the counter of
/// `target`, and returns the mapping from the originals to the copies. The
/// copies are exact.
fn copy_shifted(
    target: &mut Document,
    source: &Document,
    pages: &Vec<ObjectId>,
) -> (result: Result<BTreeMap<ObjectId, ObjectId>, PdfError>)
    requires
        old(target).wf(),
    ensures
        final(target).wf(),
        match result {
            Ok(mapping) => {
                &&& shift_failure(old(target)@, source@, pages@) is None
                &&& mapping@ == shift_map(closure(source@.objects, pages@), old(target)@.max_id)
                &&& shift_copied(
                    source@.objects,
                    closure(source@.objects, pages@),
                    old(target)@,
                    final(target)@,
                )
            },
            Err(error) => {
                &&& final(target)@ == old(target)@
                &&& shift_failure(old(target)@, source@, pages@) == Some(error)
            },
        },
{
    let ghost before = target@;
    let ghost objects = source@.objects;
    let ghost reach = closure(objects, pages@);
    let order = match collect_reachable(source, pages) {
        Ok(order) => order,
        Err(error) => {
            return Err(error);
        },
    };
    match check_pages(source, pages) {
        Ok(()) => {},
        Err(error) => {
            return Err(error);
        },
    }
    let offset = target.max_id();
    let strategy = Allocation::Shift { offset };
    proof {
        assert forall|i: int| 0 <= i < order@.len() implies objects.contains_key(
            #[trigger] order@[i],
        ) by {
            assert(order@.to_set().contains(order@[i]));
        }
        lemma_present_ids_of_distinct(objects, order@);
        lemma_first_collision(strategy, before, order@, 0);
    }
    let mapping = match transplant(source, target, &order, strategy) {
        Ok(mapping) => mapping,
        Err(error) => {
            proof {
                lemma_shift_refused(objects, order@, before);
            }
            return Err(error);
        },
    };
    proof {
        lemma_shift_copied(objects, order@, before, target@, mapping@);
    }
    Ok(mapping)
}

/// What a refused transplant by shifting says of the closure.
proof fn lemma_shift_refused(
    objects: Map<ObjectId, Value>,
    order: Seq<ObjectId>,
    before: DocumentView,
)
    ensures
        ({
            let strategy = Allocation::Shift { offset: before.max_id };
            let reach = order.to_set();
            let hit = first_collision(strategy, before, order, 0);
            &&& !allocation_fits(strategy, before.max_id, order) <==> exists|id: ObjectId|
                reach.contains(id) && id.0 + before.max_id > u32::MAX
            &&& allocation_fits(strategy, before.max_id, order) ==> (hit < order.len()
                <==> exists|id: ObjectId|
                reach.contains(id) && before.objects.contains_key(shifted(id, before.max_id)))
        }),
{
    let offset = before.max_id;
    let strategy = Allocation::Shift { offset };
    let reach = order.to_set();
    let hit = first_collision(strategy, before, order, 0);
    lemma_first_collision(strategy, before, order, 0);
    if !allocation_fits(strategy, offset, order) {
        let i = choose|i: int|
            0 <= i < order.len() && !(#[trigger] allocated_number(strategy, offset, i, order[i])
                <= u32::MAX);
        assert(reach.contains(order[i]) && order[i].0 + before.max_id > u32::MAX);
    } else {
        assert forall|id: ObjectId|
            reach.contains(id) implies !(id.0 + before.max_id > u32::MAX) by {
            let i = choose|i: int| 0 <= i < order.len() && order[i] == id;
            assert(allocated_number(strategy, offset, i, order[i]) <= u32::MAX);
        }
        if hit < order.len() {
            assert(collides_at(strategy, before, order, hit));
            assert(allocated_number(strategy, offset, hit, order[hit]) <= u32::MAX);
            assert(reach.contains(order[hit]) && before.objects.contains_key(
                shifted(order[hit], before.max_id),
            ));
        } else {
            assert forall|id: ObjectId| reach.contains(id) implies !before.objects.contains_key(
                shifted(id, before.max_id),
            ) by {
                let i = choose|i: int| 0 <= i < order.len() && order[i] == id;
                assert(allocated_number(strategy, offset, i, order[i]) <= u32::MAX);
                assert(!collides_at(strategy, before, order, i));
            }
        }
    }
}

/// What a transplant by shifting says of the closure.
proof fn lemma_shift_copied(
    objects: Map<ObjectId, Value>,
    order: Seq<ObjectId>,
    before: DocumentView,
    after: DocumentView,
    mapping: Map<ObjectId, ObjectId>,
)
    requires
        allocation_fits(Allocation::Shift { offset: before.max_id }, before.max_id, order),
        first_collision(Allocation::Shift { offset: before.max_id }, before, order, 0)
            == order.len(),
        transplanted(
            objects,
            order,
            Allocation::Shift { offset: before.max_id },
            before,
            after,
            mapping,
        ),
    ensures
        mapping == shift_map(order.to_set(), before.max_id),
        shift_copied(objects, order.to_set(), before, after),
        forall|id: ObjectId| #[trigger]
            order.to_set().contains(id) ==> !(id.0 + before.max_id > u32::MAX)
                && !before.objects.contains_key(shifted(id, before.max_id)),
{
    let offset = before.max_id;
    let strategy = Allocation::Shift { offset };
    let reach = order.to_set();
    lemma_first_collision(strategy, before, order, 0);
    assert forall|id: ObjectId| reach.contains(id) implies {
        &&& id.0 + offset <= u32::MAX
        &&& !before.objects.contains_key(shifted(id, offset))
        &&& #[trigger] mapping.contains_key(id)
        &&& mapping[id] == shifted(id, offset)
        &&& after.objects.contains_key(shifted(id, offset))
        &&& after.objects[shifted(id, offset)] == objects[id]
    } by {
        let i = choose|i: int| 0 <= i < order.len() && order[i] == id;
        assert(allocated_number(strategy, offset, i, order[i]) <= u32::MAX);
        assert(!collides_at(strategy, before, order, i));
        assert(mapping[order[i]] == allocated_id(strategy, offset, order, i));
        assert(after.objects.contains_key(mapping[order[i]]));
    }
    assert(mapping =~= shift_map(reach, offset));
    assert forall|id: ObjectId| reach.contains(id) implies {
        &&& id.0 + offset <= u32::MAX
        &&& !before.objects.contains_key(#[trigger] shifted(id, offset))
        &&& after.objects.contains_key(shifted(id, offset))
        &&& after.objects[shifted(id, offset)] == objects[id]
    } by {
        assert(mapping.contains_key(id));
    }
    assert forall|id: ObjectId|
        #[trigger] after.objects.contains_key(id) implies before.objects.contains_key(
        id,
    ) || exists|origin: ObjectId|
        reach.contains(origin) && #[trigger] shifted(origin, offset) == id by {
        if !before.objects.contains_key(id) {
            assert(mapping.values().contains(id));
            let k = choose|k: ObjectId| mapping.contains_key(k) && mapping[k] == id;
            assert(reach.contains(k) && shifted(k, offset) == id);
        }
    }
    assert forall|id: ObjectId| reach.contains(id) implies (#[trigger] shifted(id, offset)).0
        <= after.max_id by {
        let i = choose|i: int| 0 <= i < order.len() && order[i] == id;
        assert(mapping.contains_key(id));
        assert(mapping[order[i]].0 <= after.max_id);
    }
    if after.max_id != before.max_id {
        let i = choose|i: int|
            0 <= i < order.len() && (#[trigger] mapping[order[i]]).0 == after.max_id;
        assert(reach.contains(order[i]));
        assert(mapping.contains_key(order[i]));
        assert(shifted(order[i], offset).0 == after.max_id);
    }
    assert(shift_copied(objects, reach, before, after));
    assert forall|id: ObjectId|
        #[trigger] order.to_set().contains(id) implies !(id.0 + before.max_id
        > u32::MAX) && !before.objects.contains_key(shifted(id, before.max_id)) by {
        assert(mapping.contains_key(id));
    }
}

/// The identifiers of `pages`, each raised by `offset`.
fn shift_all(pages: &Vec<ObjectId>, offset: u32) -> (copies: Vec<ObjectId>)
    requires
        forall|i: int| 0 <= i < pages@.len() ==> (#[trigger] pages@[i]).0 + offset <= u32::MAX,
    ensures
        copies@ == shifted_all(pages@, offset),
{
    let mut copies: Vec<ObjectId> = Vec::new();
    let mut i: usize = 0;
    while i < pages.len()
        invariant
            i <= pages.len(),
            forall|i: int| 0 <= i < pages@.len() ==> (#[trigger] pages@[i]).0 + offset <= u32::MAX,
            copies@ == shifted_all(pages@.take(i as int), offset),
        decreases pages.len() - i,
    {
        let page = pages[i];
        copies.push((page.0 + offset, page.1));
        proof {
            assert(pages@.take(i + 1) =~= pages@.take(i as int).push(page));
            assert(copies@ =~= shifted_all(pages@.take(i + 1), offset));
        }
        i += 1;
    }
    proof {
        assert(pages@.take(pages@.len() as int) =~= pages@);
    }
    copies
}

/// What the rewriting makes of a copy: its references are redirected, and
/// if it is the copy of a page, its parent is set.
proof fn lemma_rewritten_copy(
    reach: Set<ObjectId>,
    pages: Seq<ObjectId>,
    offset: u32,
    value: Value,
    id: ObjectId,
    patch: &ParentPatch,
)
    requires
        reach.contains(id),
        forall|origin: ObjectId| reach.contains(origin) ==> origin.0 + offset <= u32::MAX,
        forall|k: int| 0 <= k < pages.len() ==> reach.contains(#[trigger] pages[k]),
        patch.pages@ == shifted_all(pages, offset),
    ensures
        rewritten_object(value, shifted(id, offset), shift_map(reach, offset), Some(patch)) == (
        if pages.contains(id) {
            with_parent(rewrite_value(value, shift_map(reach, offset)), patch.parent)
        } else {
            rewrite_value(value, shift_map(reach, offset))
        }),
{
    let mapping = shift_map(reach, offset);
    let copy = shifted(id, offset);
    assert(mapping.contains_key(id) && mapping[id] == copy);
    assert(mapping.values().contains(copy));
    if patch.pages@.contains(copy) {
        let k = choose|k: int| 0 <= k < patch.pages@.len() && patch.pages@[k] == copy;
        assert(patch.pages@[k] == shifted(pages[k], offset));
        assert(reach.contains(pages[k]));
        assert(pages[k] == id);
    }
    if pages.contains(id) {
        let k = choose|k: int| 0 <= k < pages.len() && pages[k] == id;
        assert(patch.pages@[k] == copy);
    }
}

/// What the rewriting makes of an object that is no copy: nothing.
proof fn lemma_rewritten_other(
    reach: Set<ObjectId>,
    pages: Seq<ObjectId>,
    offset: u32,
    value: Value,
    id: ObjectId,
    patch: &ParentPatch,
)
    requires
        forall|origin: ObjectId|
            reach.contains(origin) ==> #[trigger] shifted(origin, offset) != id,
        forall|k: int| 0 <= k < pages.len() ==> reach.contains(#[trigger] pages[k]),
        patch.pages@ == shifted_all(pages, offset),
    ensures
        rewritten_object(value, id, shift_map(reach, offset), Some(patch)) == value,
{
    let mapping = shift_map(reach, offset);
    if mapping.values().contains(id) {
        let k = choose|k: ObjectId| mapping.contains_key(k) && mapping[k] == id;
        assert(shifted(k, offset) != id);
    }
    if patch.pages@.contains(id) {
        let k = choose|k: int| 0 <= k < patch.pages@.len() && patch.pages@[k] == id;
        assert(patch.pages@[k] == shifted(pages[k], offset));
        assert(reach.contains(pages[k]));
    }
}

/// `after` is `middle`, a document that took up exact copies by shifting,
/// with the copies rewritten: every reference of a copy to a copied object
/// is raised like the identifiers, and the copy of each page names `tree`
/// as its parent. What `before` held is as it was.
pub open spec fn copies_settled(
    objects: Map<ObjectId, Value>,
    pages: Seq<ObjectId>,
    tree: ObjectId,
    before: DocumentView,
    middle: DocumentView,
    after: DocumentView,
) -> bool {
    let reach = closure(objects, pages);
    let offset = before.max_id;
    let mapping = shift_map(reach, offset);
    &&& after.version == middle.version
    &&& after.trailer == middle.trailer
    &&& after.max_id == middle.max_id
    &&& after.objects.dom() == middle.objects.dom()
    &&& forall|id: ObjectId|
        reach.contains(id) ==> after.objects[#[trigger] shifted(id, offset)] == (
        if pages.contains(id) {
            with_parent(rewrite_value(objects[id], mapping), tree)
        } else {
            rewrite_value(objects[id], mapping)
        })
    &&& forall|id: ObjectId|
        before.objects.contains_key(id) ==> #[trigger] after.objects[id] == before.objects[id]
}

/// Rewrites the copies that `mapping` leads to and makes the copies of the
/// pages name `tree` as their parent.
fn settle_copies(
    target: &mut Document,
    tree: ObjectId,
    mapping: &BTreeMap<ObjectId, ObjectId>,
    patch: &ParentPatch,
    Ghost(objects): Ghost<Map<ObjectId, Value>>,
    Ghost(pages): Ghost<Seq<ObjectId>>,
    Ghost(before): Ghost<DocumentView>,
)
    requires
        old(target).wf(),
        shift_copied(objects, closure(objects, pages), before, old(target)@),
        mapping@ == shift_map(closure(objects, pages), before.max_id),
        patch.pages@ == shifted_all(pages, before.max_id),
        patch.parent == tree,
        forall|i: int|
            0 <= i < pages.len() ==> closure(objects, pages).contains(#[trigger] pages[i])
                && usable_page(objects, pages[i]),
    ensures
        final(target).wf(),
        copies_settled(objects, pages, tree, before, old(target)@, final(target)@),
{
    let ghost reach = closure(objects, pages);
    let ghost offset = before.max_id;
    let ghost middle = target@;
    proof {
        assert forall|k: int| 0 <= k < patch.pages@.len() implies middle.objects.contains_key(
            #[trigger] patch.pages@[k],
        ) && middle.objects[patch.pages@[k]] is Dictionary by {
            assert(patch.pages@[k] == shifted(pages[k], offset));
            assert(reach.contains(pages[k]));
            assert(usable_page(objects, pages[k]));
            assert(middle.objects.contains_key(shifted(pages[k], offset)));
        }
        assert forall|id: ObjectId|
            #[trigger] mapping@.values().contains(id) implies middle.objects.contains_key(
            id,
        ) by {
            let k = choose|k: ObjectId| mapping@.contains_key(k) && mapping@[k] == id;
            assert(reach.contains(k));
            assert(middle.objects.contains_key(shifted(k, offset)));
        }
    }
    match rewrite_references(target, mapping, Some(patch)) {
        Ok(()) => {},
        Err(_) => unreached(),
    }
    proof {
        let after = target@;
        let shift = shift_map(reach, offset);
        assert forall|origin: ObjectId| reach.contains(origin) implies origin.0 + offset
            <= u32::MAX by {
            assert(middle.objects.contains_key(shifted(origin, offset)));
        }
        assert forall|id: ObjectId| reach.contains(id) implies after.objects[#[trigger] shifted(
            id,
            offset,
        )] == (if pages.contains(id) {
            with_parent(rewrite_value(objects[id], shift), tree)
        } else {
            rewrite_value(objects[id], shift)
        }) by {
            let copy = shifted(id, offset);
            assert(middle.objects.contains_key(copy));
            lemma_rewritten_copy(reach, pages, offset, middle.objects[copy], id, patch);
        }
        assert forall|id: ObjectId|
            before.objects.contains_key(id) implies #[trigger] after.objects[id]
            == before.objects[id] by {
            assert(middle.objects.contains_key(id));
            assert forall|origin: ObjectId| reach.contains(origin) implies #[trigger] shifted(
                origin,
                offset,
            ) != id by {
                assert(!before.objects.contains_key(shifted(origin, offset)));
            }
            lemma_rewritten_other(reach, pages, offset, middle.objects[id], id, patch);
        }
    }
}

/// Copies taken up by shifting and then settled, and the node with the
/// copies of the pages listed: that is the pages appended.
proof fn lemma_pages_appended(
    before: DocumentView,
    tree: ObjectId,
    source: DocumentView,
    pages: Seq<ObjectId>,
    middle: DocumentView,
    settled: DocumentView,
    after: DocumentView,
)
    requires
        append_failure(before, tree, source, pages) is None,
        shift_copied(source.objects, closure(source.objects, pages), before, middle),
        copies_settled(source.objects, pages, tree, before, middle, settled),
        after == (DocumentView {
            objects: settled.objects.insert(
                tree,
                with_kids(
                    before.objects[tree],
                    kids_of(before.objects[tree])->0 + references_to(
                        shifted_all(pages, before.max_id),
                    ),
                ),
            ),
            ..settled
        }),
    ensures
        pages_appended(before, tree, source, pages, after),
{
    let objects = source.objects;
    let reach = closure(objects, pages);
    let offset = before.max_id;
    assert forall|id: ObjectId| reach.contains(id) implies {
        &&& after.objects.contains_key(#[trigger] shifted(id, offset))
        &&& after.objects[shifted(id, offset)] == settled.objects[shifted(id, offset)]
    } by {
        let copy = shifted(id, offset);
        assert(middle.objects.contains_key(copy));
        assert(settled.objects.dom().contains(copy));
        assert(!before.objects.contains_key(copy));
    }
    assert forall|id: ObjectId|
        before.objects.contains_key(id) && id != tree implies #[trigger] after.objects.contains_key(
        id,
    ) && after.objects[id] == before.objects[id] by {
        assert(middle.objects.contains_key(id));
        assert(settled.objects.dom().contains(id));
    }
    assert forall|id: ObjectId|
        #[trigger] after.objects.contains_key(id) implies before.objects.contains_key(
        id,
    ) || exists|origin: ObjectId|
        reach.contains(origin) && #[trigger] shifted(origin, offset) == id by {
        if id != tree {
            assert(settled.objects.dom().contains(id));
            assert(middle.objects.contains_key(id));
        }
    }
}

/// Appends the pages `pages` of `source` to the node `tree` of `target`:
/// copies the pages and all they reach, each under its identifier raised by
/// the counter of `target`, redirects the references among the copies,
/// makes the copy of each page name `tree` as its parent, and lists the
/// copies of the pages behind what the node lists. The count of the node is
/// left as it is.
///
/// Fails, and leaves `target` as it was, for the reasons that
/// `append_failure` gives.
pub fn append_pages(
    target: &mut Document,
    tree: ObjectId,
    source: &Document,
    pages: &Vec<ObjectId>,
) -> (result: Result<(), PdfError>)
    requires
        old(target).wf(),
    ensures
        final(target).wf(),
        match result {
            Ok(()) => pages_appended(old(target)@, tree, source@, pages@, final(target)@),
            Err(error) => {
                &&& final(target)@ == old(target)@
                &&& append_failure(old(target)@, tree, source@, pages@) == Some(error)
            },
        },
{
    let ghost before = target@;
    let ghost objects = source@.objects;
    let ghost reach = closure(objects, pages@);
    let mut kids = match kids_at(target, tree) {
        Some(kids) => kids,
        None => {
            return Err(PdfError::NoPageTree);
        },
    };
    let offset = target.max_id();
    let mapping = match copy_shifted(target, source, pages) {
        Ok(mapping) => mapping,
        Err(error) => {
            return Err(error);
        },
    };
    let ghost middle = target@;
    proof {
        lemma_first_unusable(objects, pages@, 0);
        assert forall|i: int| 0 <= i < pages@.len() implies reach.contains(#[trigger] pages@[i])
            && usable_page(objects, pages@[i]) by {
            lemma_root_reachable(objects, pages@, i);
            assert(usable_page(objects, pages@[i]));
        }
        assert forall|i: int| 0 <= i < pages@.len() implies (#[trigger] pages@[i]).0 + offset
            <= u32::MAX by {
            assert(reach.contains(pages@[i]));
            assert(middle.objects.contains_key(shifted(pages@[i], offset)));
        }
    }
    let copies = shift_all(pages, offset);
    let mut more: Vec<Object> = crate::page_tree::make_references(&copies);
    let patch = ParentPatch { pages: copies, parent: tree };
    settle_copies(target, tree, &mapping, &patch, Ghost(objects), Ghost(pages@), Ghost(before));
    let ghost settled = target@;
    let ghost old_kids = kids;
    let ghost more_kids = more;
    kids.append(&mut more);
    proof {
        assert(before.objects.contains_key(tree));
        assert(middle.objects.contains_key(tree));
        assert(settled.objects.dom().contains(tree));
        assert(settled.objects[tree] == before.objects[tree]);
    }
    let mut node = match target.get_object(tree) {
        Some(object) => match object.as_dict() {
            Some(node) => node.clone(),
            None => unreached(),
        },
        None => unreached(),
    };
    let listed = Object::Array(kids);
    proof {
        lemma_array_joined(old_kids, more_kids, kids);
    }
    node.set(name_vec("Kids"), listed);
    let updated = Object::Dictionary(node);
    proof {
        updated.lemma_view();
    }
    target.insert_object(tree, updated);
    proof {
        assert(target@.objects =~= settled.objects.insert(
            tree,
            with_kids(
                before.objects[tree],
                kids_of(before.objects[tree])->0 + references_to(shifted_all(pages@, offset)),
            ),
        ));
        lemma_pages_appended(before, tree, source@, pages@, middle, settled, target@);
    }
    Ok(())
}

/// `states` are the stages of a merge: the first document, and after it,
/// for each further input taken up so far, what the appending of its pages
/// to the node `tree` made of the stage before.
pub open spec fn merge_stages(
    first: DocumentView,
    tree: ObjectId,
    inputs: Seq<MergeInput>,
    states: Seq<DocumentView>,
) -> bool {
    &&& 1 <= states.len() <= inputs.len()
    &&& states[0] == first
    &&& forall|k: int|
        1 <= k < states.len() ==> pages_appended(
            states[k - 1],
            tree,
            inputs[k].document@,
            inputs[k].pages@,
            #[trigger] states[k],
        )
}

/// `doc` with the count of its node `tree` set to the number of kids that
/// the node lists.
pub open spec fn counted(doc: DocumentView, tree: ObjectId) -> DocumentView {
    DocumentView {
        objects: doc.objects.insert(
            tree,
            with_count(doc.objects[tree], kids_of(doc.objects[tree])->0.len() as i64),
        ),
        ..doc
    }
}

/// What merging `inputs` comes to.
///
/// No input is a failure. One input is returned as it is. With more, the
/// first document must name, through its catalog, a node of its page tree;
/// the pages of every further input are appended to that node, in the order
/// of the inputs, and at the end the count of the node is set to the number
/// of kids it lists. The first input whose pages cannot be appended decides
/// the failure.
pub open spec fn merge_outcome(
    inputs: Seq<MergeInput>,
    result: Result<DocumentView, PdfError>,
) -> bool {
    if inputs.len() == 0 {
        result == Err::<DocumentView, PdfError>(PdfError::NoInput)
    } else if inputs.len() == 1 {
        result == Ok::<DocumentView, PdfError>(inputs[0].document@)
    } else {
        let first = inputs[0].document@;
        match page_tree_of(first) {
            None => result == Err::<DocumentView, PdfError>(PdfError::NoPageTree),
            Some(tree) => match result {
                Ok(out) => exists|states: Seq<DocumentView>|
                    {
                        &&& #[trigger] merge_stages(first, tree, inputs, states)
                        &&& states.len() == inputs.len()
                        &&& has_page_node(states.last(), tree)
                        &&& kids_of(states.last().objects[tree])->0.len() <= i64::MAX
                        &&& out == counted(states.last(), tree)
                    },
                Err(error) => exists|states: Seq<DocumentView>|
                    {
                        &&& #[trigger] merge_stages(first, tree, inputs, states)
                        &&& if states.len() < inputs.len() {
                            append_failure(
                                states.last(),
                                tree,
                                inputs[states.len() as int].document@,
                                inputs[states.len() as int].pages@,
                            ) == Some(error)
                        } else {
                            &&& has_page_node(states.last(), tree)
                            &&& kids_of(states.last().objects[tree])->0.len() > i64::MAX
                            &&& error == PdfError::TooManyPages
                        }
                    },
            },
        }
    }
}

/// A document to which pages were appended has the node they were appended
/// to.
pub proof fn lemma_appended_has_node(
    before: DocumentView,
    tree: ObjectId,
    source: DocumentView,
    pages: Seq<ObjectId>,
    after: DocumentView,
)
    requires
        pages_appended(before, tree, source, pages, after),
    ensures
        has_page_node(after, tree),
        kids_of(after.objects[tree]) == Some(
            kids_of(before.objects[tree])->0 + references_to(shifted_all(pages, before.max_id)),
        ),
{
    let node = before.objects[tree]->Dictionary_0;
    let kids = kids_of(before.objects[tree])->0 + references_to(
        shifted_all(pages, before.max_id),
    );
    lemma_get_after_set(node, name_bytes("Kids"), Value::Array(kids), name_bytes("Kids"));
}

/// Sets the count of the node `tree` to the number of kids that it lists.
fn set_count(target: &mut Document, tree: ObjectId) -> (result: Result<(), PdfError>)
    requires
        old(target).wf(),
        has_page_node(old(target)@, tree),
    ensures
        final(target).wf(),
        match result {
            Ok(()) => {
                &&& kids_of(old(target)@.objects[tree])->0.len() <= i64::MAX
                &&& final(target)@ == counted(old(target)@, tree)
            },
            Err(error) => {
                &&& kids_of(old(target)@.objects[tree])->0.len() > i64::MAX
                &&& error == PdfError::TooManyPages
                &&& final(target)@ == old(target)@
            },
        },
{
    let kids = match kids_at(target, tree) {
        Some(kids) => kids,
        None => unreached(),
    };
    proof {
        (Object::Array(kids)).lemma_view();
    }
    if kids.len() as u128 > i64::MAX as u128 {
        return Err(PdfError::TooManyPages);
    }
    let mut node = match target.get_object(tree) {
        Some(object) => match object.as_dict() {
            Some(node) => node.clone(),
            None => unreached(),
        },
        None => unreached(),
    };
    let count = Object::Integer(kids.len() as i64);
    proof {
        count.lemma_view();
    }
    node.set(name_vec("Count"), count);
    let updated = Object::Dictionary(node);
    proof {
        updated.lemma_view();
    }
    target.insert_object(tree, updated);
    proof {
        assert(target@.objects =~= counted(old(target)@, tree).objects);
    }
    Ok(())
}

/// Merges `inputs` into one document: the first, with the pages of all
/// further inputs appended to the root of its page tree in the order of the
/// inputs. A single input comes back as it is.
pub fn merge_pdfs(inputs: &Vec<MergeInput>) -> (result: Result<Document, PdfError>)
    requires
        inputs@.len() >= 2 ==> inputs@[0].document.wf(),
    ensures
        merge_outcome(
            inputs@,
            match result {
                Ok(out) => Ok(out@),
                Err(error) => Err(error),
            },
        ),
        result matches Ok(out) ==> inputs@.len() >= 2 ==> out.wf(),
{
    if inputs.len() == 0 {
        return Err(PdfError::NoInput);
    }
    let mut target = inputs[0].document.clone();
    if inputs.len() == 1 {
        return Ok(target);
    }
    let ghost first = target@;
    let tree = match find_page_tree(&target) {
        Some(tree) => tree,
        None => {
            return Err(PdfError::NoPageTree);
        },
    };
    let ghost mut states: Seq<DocumentView> = seq![first];
    let mut k: usize = 1;
    while k < inputs.len()
        invariant
            1 <= k <= inputs.len(),
            inputs@.len() >= 2,
            first == inputs@[0].document@,
            page_tree_of(first) == Some(tree),
            target.wf(),
            states.len() == k,
            states.last() == target@,
            merge_stages(first, tree, inputs@, states),
            k >= 2 ==> has_page_node(target@, tree),
        decreases inputs.len() - k,
    {
        let ghost middle = target@;
        match append_pages(&mut target, tree, &inputs[k].document, &inputs[k].pages) {
            Ok(()) => {
                proof {
                    lemma_appended_has_node(
                        middle,
                        tree,
                        inputs@[k as int].document@,
                        inputs@[k as int].pages@,
                        target@,
                    );
                    let longer = states.push(target@);
                    assert forall|j: int| 1 <= j < longer.len() implies pages_appended(
                        longer[j - 1],
                        tree,
                        inputs@[j].document@,
                        inputs@[j].pages@,
                        #[trigger] longer[j],
                    ) by {
                        if j < states.len() {
                            assert(longer[j] == states[j]);
                            assert(longer[j - 1] == states[j - 1]);
                        }
                    }
                    states = longer;
                }
            },
            Err(error) => {
                return Err(error);
            },
        }
        k += 1;
    }
    match set_count(&mut target, tree) {
        Ok(()) => Ok(target),
        Err(error) => Err(error),
    }
}

} // verus!
