//! Taking pages out of the page tree of a document.

use crate::document::{Document, DocumentView};
use crate::error::PdfError;
use crate::names::{name_bytes, name_key, name_vec};
use crate::object::{entries_get, entries_set, Object, ObjectId, Value};
use crate::page_tree::{kids_of, reference_in, reference_under, with_kids};
use crate::splitter::requested_pages;
use std::collections::BTreeSet;
use vstd::prelude::*;

verus! {

/// The number of pages as a page number: the highest that a page can have.
pub open spec fn page_limit(page_count: nat) -> u32 {
    if page_count > u32::MAX {
        u32::MAX
    } else {
        page_count as u32
    }
}

/// Index of the first of `numbers`, at or after `from`, that is not within
/// `1..=last`, or the length of `numbers` if all are.
pub open spec fn first_out_of_range(last: u32, numbers: Seq<u32>, from: int) -> int
    decreases numbers.len() - from,
{
    if from < 0 || from >= numbers.len() {
        numbers.len() as int
    } else if numbers[from] == 0 || numbers[from] > last {
        from
    } else {
        first_out_of_range(last, numbers, from + 1)
    }
}

/// `numbers` without repetition: each at its first occurrence only.
pub open spec fn distinct_numbers(numbers: Seq<u32>) -> Seq<u32>
    decreases numbers.len(),
{
    if numbers.len() == 0 {
        Seq::empty()
    } else {
        let before = distinct_numbers(numbers.drop_last());
        if numbers.drop_last().contains(numbers.last()) {
            before
        } else {
            before.push(numbers.last())
        }
    }
}

/// The node that the object under `id`, a dictionary, names as its
/// `Parent`.
pub open spec fn parent_of(objects: Map<ObjectId, Value>, id: ObjectId) -> Option<ObjectId> {
    if objects.contains_key(id) {
        match objects[id] {
            Value::Dictionary(entries) => reference_under(entries, name_bytes("Parent")),
            _ => None,
        }
    } else {
        None
    }
}

/// Index of the first of `kids`, at or after `from`, that is a reference to
/// `page`, or the number of kids if none is.
pub open spec fn first_kid(kids: Seq<Value>, page: ObjectId, from: int) -> int
    decreases kids.len() - from,
{
    if from < 0 || from >= kids.len() {
        kids.len() as int
    } else if kids[from] == Value::Reference(page) {
        from
    } else {
        first_kid(kids, page, from + 1)
    }
}

/// `kids` without the first reference to `page` among them.
pub open spec fn without_kid(kids: Seq<Value>, page: ObjectId) -> Seq<Value> {
    let i = first_kid(kids, page, 0);
    if i < kids.len() {
        kids.remove(i)
    } else {
        kids
    }
}

/// `objects` with the first reference to `page` taken out of the kids that
/// the node under `node` lists; unchanged where there is no such node.
pub open spec fn kid_dropped(
    objects: Map<ObjectId, Value>,
    node: ObjectId,
    page: ObjectId,
) -> Map<ObjectId, Value> {
    if objects.contains_key(node) && kids_of(objects[node]) is Some {
        objects.insert(
            node,
            with_kids(objects[node], without_kid(kids_of(objects[node])->0, page)),
        )
    } else {
        objects
    }
}

/// `value`, a node of a page tree, with its count lowered by one; unchanged
/// where it holds no count that can be lowered.
pub open spec fn count_lowered(value: Value) -> Value {
    match value {
        Value::Dictionary(node) => match entries_get(node, name_bytes("Count")) {
            Some(Value::Integer(count)) => if count > i64::MIN {
                Value::Dictionary(
                    entries_set(node, name_bytes("Count"), Value::Integer((count - 1) as i64)),
                )
            } else {
                value
            },
            _ => value,
        },
        _ => value,
    }
}

/// `objects` with the count lowered by one in the node under `node` and in
/// the nodes above it, as far as each names the next as its parent, for at
/// most `steps` nodes.
pub open spec fn counts_lowered(
    objects: Map<ObjectId, Value>,
    node: ObjectId,
    steps: nat,
) -> Map<ObjectId, Value>
    decreases steps,
{
    if steps == 0 || !objects.contains_key(node) || !(objects[node] is Dictionary) {
        objects
    } else {
        let lowered = objects.insert(node, count_lowered(objects[node]));
        match parent_of(objects, node) {
            Some(above) => counts_lowered(lowered, above, (steps - 1) as nat),
            None => lowered,
        }
    }
}

/// `objects` after the page under `page` was taken out of the page tree:
/// the node that the page names as its parent no longer lists it, and the
/// counts from that node upwards are lowered by one. The walk upwards ends
/// after as many nodes as there are objects. The page itself stays among
/// the objects. Nothing changes where the page names no parent.
pub open spec fn page_removed(
    objects: Map<ObjectId, Value>,
    page: ObjectId,
) -> Map<ObjectId, Value> {
    match parent_of(objects, page) {
        Some(parent) => counts_lowered(
            kid_dropped(objects, parent, page),
            parent,
            objects.dom().len(),
        ),
        None => objects,
    }
}

/// `objects` after each of `targets` was taken out of the page tree, one
/// after the other.
pub open spec fn pages_removed(
    objects: Map<ObjectId, Value>,
    targets: Seq<ObjectId>,
) -> Map<ObjectId, Value>
    decreases targets.len(),
{
    if targets.len() == 0 {
        objects
    } else {
        page_removed(pages_removed(objects, targets.drop_last()), targets.last())
    }
}

/// Why the pages `numbers` cannot be deleted from a document of `page_count`
/// pages, or `None` if they can: the list is empty, or a number is not
/// within `1..=page_count` (the first such number decides).
pub open spec fn delete_failure(page_count: nat, numbers: Seq<u32>) -> Option<PdfError> {
    let last = page_limit(page_count);
    let bad = first_out_of_range(last, numbers, 0);
    if numbers.len() == 0 {
        Some(PdfError::EmptyDeleteList)
    } else if bad < numbers.len() {
        Some(PdfError::InvalidPageNumber { page: numbers[bad], last })
    } else {
        None
    }
}

/// `distinct_numbers` lists the numbers of `numbers`, each once.
pub proof fn lemma_distinct_numbers(numbers: Seq<u32>)
    ensures
        distinct_numbers(numbers).no_duplicates(),
        distinct_numbers(numbers).to_set() == numbers.to_set(),
    decreases numbers.len(),
{
    let distinct = distinct_numbers(numbers);
    if numbers.len() > 0 {
        let front = numbers.drop_last();
        let last = numbers.last();
        let before = distinct_numbers(front);
        lemma_distinct_numbers(front);
        assert(numbers =~= front.push(last));
        front.lemma_push_to_set_commute(last);
        if front.contains(last) {
            assert(front.to_set().contains(last));
            assert(front.to_set().insert(last) =~= front.to_set());
        } else {
            before.lemma_push_to_set_commute(last);
            assert forall|i: int, j: int| 0 <= i < j < distinct.len() implies distinct[i]
                != distinct[j] by {
                if j == before.len() {
                    assert(distinct[i] == before[i]);
                    assert(before.to_set().contains(before[i]));
                    assert(front.contains(before[i]));
                } else {
                    assert(distinct[i] == before[i]);
                    assert(distinct[j] == before[j]);
                }
            }
        }
    } else {
        assert(distinct.to_set() =~= numbers.to_set());
    }
}

/// `first_out_of_range` stays within bounds, names a number out of range,
/// and passes none on its way.
pub proof fn lemma_first_out_of_range(last: u32, numbers: Seq<u32>, from: int)
    requires
        0 <= from <= numbers.len(),
    ensures
        from <= first_out_of_range(last, numbers, from) <= numbers.len(),
        first_out_of_range(last, numbers, from) < numbers.len() ==> {
            let bad = numbers[first_out_of_range(last, numbers, from)];
            bad == 0 || bad > last
        },
        forall|i: int|
            from <= i < first_out_of_range(last, numbers, from) ==> 1 <= #[trigger] numbers[i]
                <= last,
    decreases numbers.len() - from,
{
    if from < numbers.len() && !(numbers[from] == 0 || numbers[from] > last) {
        lemma_first_out_of_range(last, numbers, from + 1);
    }
}

/// Lowering counts leaves the objects that were there, and no others.
pub proof fn lemma_counts_lowered_dom(objects: Map<ObjectId, Value>, node: ObjectId, steps: nat)
    ensures
        counts_lowered(objects, node, steps).dom() == objects.dom(),
    decreases steps,
{
    if steps == 0 || !objects.contains_key(node) || !(objects[node] is Dictionary) {
    } else {
        let lowered = objects.insert(node, count_lowered(objects[node]));
        assert(lowered.dom() =~= objects.dom());
        match parent_of(objects, node) {
            Some(above) => {
                lemma_counts_lowered_dom(lowered, above, (steps - 1) as nat);
            },
            None => {},
        }
    }
}

/// Removing a page leaves the objects that were there, and no others.
pub proof fn lemma_page_removed_dom(objects: Map<ObjectId, Value>, page: ObjectId)
    ensures
        page_removed(objects, page).dom() == objects.dom(),
{
    match parent_of(objects, page) {
        Some(parent) => {
            let dropped = kid_dropped(objects, parent, page);
            assert(dropped.dom() =~= objects.dom());
            lemma_counts_lowered_dom(dropped, parent, objects.dom().len());
        },
        None => {},
    }
}

/// The node that the object under `id` names as its parent.
fn parent_in(doc: &Document, id: ObjectId) -> (parent: Option<ObjectId>)
    ensures
        parent == parent_of(doc@.objects, id),
{
    match doc.get_object(id) {
        Some(object) => match object.as_dict() {
            Some(dict) => reference_in(dict, "Parent"),
            None => None,
        },
        None => None,
    }
}

/// Position of the first of `items` that is a reference to `page`, or the
/// number of items if none is.
fn kid_position(items: &Vec<Object>, page: ObjectId) -> (index: usize)
    ensures
        index == first_kid((Object::Array(*items))@->Array_0, page, 0),
        index <= items@.len(),
{
    let ghost kids = (Object::Array(*items))@->Array_0;
    proof {
        (Object::Array(*items)).lemma_view();
    }
    let mut i: usize = 0;
    while i < items.len()
        invariant
            i <= items.len(),
            kids == (Object::Array(*items))@->Array_0,
            kids.len() == items.len(),
            forall|j: int| 0 <= j < items.len() ==> #[trigger] kids[j] == items[j]@,
            first_kid(kids, page, 0) == first_kid(kids, page, i as int),
        decreases items.len() - i,
    {
        let hit = match items[i].as_reference() {
            Some(id) => id.0 == page.0 && id.1 == page.1,
            None => false,
        };
        proof {
            assert(kids[i as int] == items[i as int]@);
            assert(hit <==> kids[i as int] == Value::Reference(page));
        }
        if hit {
            return i;
        }
        i += 1;
    }
    i
}

/// Takes the first reference to `page` out of the kids that the node under
/// `node` lists.
fn drop_kid(doc: &mut Document, node: ObjectId, page: ObjectId)
    requires
        old(doc).wf(),
    ensures
        final(doc).wf(),
        final(doc)@ == (DocumentView {
            objects: kid_dropped(old(doc)@.objects, node, page),
            ..old(doc)@
        }),
{
    let ghost before = doc@;
    let mut dict = match doc.get_object(node) {
        Some(object) => match object.as_dict() {
            Some(dict) => dict.clone(),
            None => {
                return ;
            },
        },
        None => {
            return ;
        },
    };
    let mut items = match dict.get(name_key("Kids")) {
        Some(kids) => {
            proof {
                kids.lemma_view();
            }
            match kids.clone() {
                Object::Array(items) => items,
                _ => {
                    return ;
                },
            }
        },
        None => {
            return ;
        },
    };
    let ghost kids = kids_of(before.objects[node])->0;
    proof {
        (Object::Array(items)).lemma_view();
    }
    let i = kid_position(&items, page);
    if i < items.len() {
        let ghost full = items;
        items.remove(i);
        proof {
            let shorter = Object::Array(items);
            shorter.lemma_view();
            assert(shorter@->Array_0 =~= kids.remove(i as int)) by {
                assert forall|j: int| 0 <= j < items@.len() implies shorter@->Array_0[j]
                    == kids.remove(i as int)[j] by {
                    if j < i {
                        assert(items@[j] == full@[j]);
                    } else {
                        assert(items@[j] == full@[j + 1]);
                    }
                }
            }
        }
    }
    let listed = Object::Array(items);
    proof {
        listed.lemma_view();
        assert(listed@ == Value::Array(without_kid(kids, page)));
    }
    dict.set(name_vec("Kids"), listed);
    let updated = Object::Dictionary(dict);
    proof {
        updated.lemma_view();
    }
    doc.insert_object(node, updated);
    proof {
        assert(node.0 <= before.max_id);
    }
}

/// Lowers by one the count of the node under `node` and of the nodes above
/// it, for at most `steps` nodes.
fn lower_counts(doc: &mut Document, node: ObjectId, steps: usize)
    requires
        old(doc).wf(),
    ensures
        final(doc).wf(),
        final(doc)@ == (DocumentView {
            objects: counts_lowered(old(doc)@.objects, node, steps as nat),
            ..old(doc)@
        }),
{
    let ghost before = doc@;
    let mut current = node;
    let mut left = steps;
    while left > 0
        invariant
            before == old(doc)@,
            doc.wf(),
            doc@.version == before.version,
            doc@.trailer == before.trailer,
            doc@.max_id == before.max_id,
            counts_lowered(before.objects, node, steps as nat) == counts_lowered(
                doc@.objects,
                current,
                left as nat,
            ),
        decreases left,
    {
        let ghost stage = doc@;
        let above = parent_in(doc, current);
        let mut dict = match doc.get_object(current) {
            Some(object) => match object.as_dict() {
                Some(dict) => dict.clone(),
                None => {
                    return ;
                },
            },
            None => {
                return ;
            },
        };
        let count = match dict.get(name_key("Count")) {
            Some(object) => object.as_i64(),
            None => None,
        };
        match count {
            Some(n) => {
                if n > i64::MIN {
                    let lowered = Object::Integer(n - 1);
                    proof {
                        lowered.lemma_view();
                    }
                    dict.set(name_vec("Count"), lowered);
                }
            },
            None => {},
        }
        let updated = Object::Dictionary(dict);
        proof {
            updated.lemma_view();
            assert(updated@ == count_lowered(stage.objects[current]));
            assert(current.0 <= before.max_id);
        }
        doc.insert_object(current, updated);
        match above {
            Some(up) => {
                current = up;
                left -= 1;
            },
            None => {
                return ;
            },
        }
    }
}

/// Takes the page under `page` out of the page tree.
fn remove_page(doc: &mut Document, page: ObjectId)
    requires
        old(doc).wf(),
    ensures
        final(doc).wf(),
        final(doc)@ == (DocumentView {
            objects: page_removed(old(doc)@.objects, page),
            ..old(doc)@
        }),
{
    let steps = doc.len();
    match parent_in(doc, page) {
        Some(parent) => {
            drop_kid(doc, parent, page);
            lower_counts(doc, parent, steps);
        },
        None => {
            assert(doc@ =~= (DocumentView {
                objects: page_removed(old(doc)@.objects, page),
                ..old(doc)@
            }));
        },
    }
}

/// Deletes the pages `numbers` of `doc`: each is taken out of the kids of
/// the node it names as its parent, and the counts from that node upwards
/// are lowered. A number that is given twice counts once. `pages` are the
/// pages of `doc` in their order before the call, and page numbers count
/// from 1 along them. The objects of the deleted pages stay in `doc`,
/// unlisted.
///
/// The deletion is carried out here, on the page tree alone, and not handed
/// to `lopdf::Document::delete_pages`. That method works on lopdf's own
/// document type, which this library does not hold: its documents are
/// values of `Document`, so that what a deletion leaves can be stated and
/// proved. It also does more and less than is wanted here: it takes the
/// page object away and with it every reference to the page in any array
/// or dictionary, and it walks up the parents without a bound, so that it
/// does not return where a node is its own ancestor. Here the walk ends
/// after as many nodes as the document has objects.
///
/// Fails, and leaves `doc` as it was, when `numbers` is empty or holds a
/// number that is not within `1..=pages.len()`.
#[verifier::loop_isolation(false)]
pub fn delete_pages(
    doc: &mut Document,
    pages: &Vec<ObjectId>,
    numbers: &Vec<u32>,
) -> (result: Result<(), PdfError>)
    requires
        old(doc).wf(),
    ensures
        final(doc).wf(),
        match result {
            Ok(()) => {
                &&& delete_failure(pages@.len(), numbers@) is None
                &&& final(doc)@ == (DocumentView {
                    objects: pages_removed(
                        old(doc)@.objects,
                        requested_pages(pages@, distinct_numbers(numbers@)),
                    ),
                    ..old(doc)@
                })
            },
            Err(error) => {
                &&& final(doc)@ == old(doc)@
                &&& delete_failure(pages@.len(), numbers@) == Some(error)
            },
        },
{
    if numbers.len() == 0 {
        return Err(PdfError::EmptyDeleteList);
    }
    let last: u32 = if pages.len() as u128 > u32::MAX as u128 {
        u32::MAX
    } else {
        pages.len() as u32
    };
    let mut distinct: Vec<u32> = Vec::new();
    let mut seen: BTreeSet<u32> = BTreeSet::new();
    let mut i: usize = 0;
    while i < numbers.len()
        invariant
            i <= numbers.len(),
            first_out_of_range(last, numbers@, 0) == first_out_of_range(last, numbers@, i as int),
            distinct@ == distinct_numbers(numbers@.take(i as int)),
            seen@ == numbers@.take(i as int).to_set(),
            forall|j: int| 0 <= j < distinct@.len() ==> 1 <= #[trigger] distinct@[j] <= last,
        decreases numbers.len() - i,
    {
        let number = numbers[i];
        if number == 0 || number > last {
            return Err(PdfError::InvalidPageNumber { page: number, last });
        }
        proof {
            let next = numbers@.take(i + 1);
            assert(next.drop_last() =~= numbers@.take(i as int));
            assert(next.last() == number);
            numbers@.take(i as int).lemma_push_to_set_commute(number);
            assert(next =~= numbers@.take(i as int).push(number));
        }
        if seen.insert(number) {
            distinct.push(number);
        }
        i += 1;
    }
    proof {
        assert(numbers@.take(numbers@.len() as int) =~= numbers@);
    }
    let ghost before = doc@;
    let mut k: usize = 0;
    while k < distinct.len()
        invariant
            k <= distinct.len(),
            doc.wf(),
            doc@ == (DocumentView {
                objects: pages_removed(
                    before.objects,
                    requested_pages(pages@, distinct@.take(k as int)),
                ),
                ..before
            }),
        decreases distinct.len() - k,
    {
        let number = distinct[k];
        assert(1 <= distinct@[k as int] <= last);
        let page = pages[(number - 1) as usize];
        proof {
            let done = requested_pages(pages@, distinct@.take(k as int));
            let next = requested_pages(pages@, distinct@.take(k + 1));
            assert(distinct@.take(k + 1) =~= distinct@.take(k as int).push(number));
            assert(next.drop_last() =~= done);
            assert(next.last() == page);
        }
        remove_page(doc, page);
        k += 1;
    }
    proof {
        assert(distinct@.take(distinct@.len() as int) =~= distinct@);
    }
    Ok(())
}

} // verus!
