//! What deleting pages leaves of a page tree of any shape.

use crate::document::DocumentView;
use crate::laws::{kept_pages, lemma_kept_pages, lemma_kept_pages_all, lemma_kept_pages_without};
use crate::names::{lemma_names_differ, name_bytes};
use crate::object::{lemma_get_after_set, ObjectId, Value};
use crate::page_tree::{
    catalog_of, document_pages, flat_page_tree, has_type, kids_of, lemma_pages_of_leaves,
    page_tree_of, pages_of_kids, pages_under, reference_under, references_to,
};
use crate::remover::{
    count_lowered, counts_lowered, delete_failure, distinct_numbers, first_kid, kid_dropped,
    lemma_distinct_numbers, lemma_first_out_of_range, page_limit, page_removed, pages_removed,
    parent_of, without_kid,
};
use crate::splitter::requested_pages;
use vstd::prelude::*;

verus! {

/// What the walk through a page tree reads of an object: whether it is a
/// page, whether it is a node, the kids it lists, the parent it names, and,
/// of a catalog, the root of the page tree that it names.
pub open spec fn shape_of(value: Value) -> (
    bool,
    bool,
    Option<Seq<Value>>,
    Option<ObjectId>,
    Option<ObjectId>,
) {
    (
        has_type(value, "Page"),
        has_type(value, "Pages"),
        kids_of(value),
        match value {
            Value::Dictionary(entries) => reference_under(entries, name_bytes("Parent")),
            _ => None,
        },
        match value {
            Value::Dictionary(entries) => reference_under(entries, name_bytes("Pages")),
            _ => None,
        },
    )
}

/// Lowering a count changes nothing that the walk reads.
pub proof fn lemma_count_keeps_shape(value: Value)
    ensures
        shape_of(count_lowered(value)) == shape_of(value),
{
    lemma_names_differ();
    match value {
        Value::Dictionary(node) => match crate::object::entries_get(node, name_bytes("Count")) {
            Some(Value::Integer(count)) => {
                let lowered = Value::Integer((count - 1) as i64);
                lemma_get_after_set(node, name_bytes("Count"), lowered, name_bytes("Type"));
                lemma_get_after_set(node, name_bytes("Count"), lowered, name_bytes("Kids"));
                lemma_get_after_set(node, name_bytes("Count"), lowered, name_bytes("Parent"));
                lemma_get_after_set(node, name_bytes("Count"), lowered, name_bytes("Pages"));
            },
            _ => {},
        },
        _ => {},
    }
}

/// Lowering the counts along the parents changes nothing that the walk
/// reads, of any object.
pub proof fn lemma_counts_keep_shape(objects: Map<ObjectId, Value>, node: ObjectId, steps: nat)
    ensures
        forall|x: ObjectId|
            #![trigger counts_lowered(objects, node, steps).contains_key(x)]
            #![trigger counts_lowered(objects, node, steps)[x]]
            counts_lowered(objects, node, steps).contains_key(x) == objects.contains_key(x)
                && shape_of(counts_lowered(objects, node, steps)[x]) == shape_of(objects[x]),
    decreases steps,
{
    if steps == 0 || !objects.contains_key(node) || !(objects[node] is Dictionary) {
    } else {
        let lowered = objects.insert(node, count_lowered(objects[node]));
        let after = counts_lowered(objects, node, steps);
        lemma_count_keeps_shape(objects[node]);
        match parent_of(objects, node) {
            Some(above) => {
                lemma_counts_keep_shape(lowered, above, (steps - 1) as nat);
                assert(after == counts_lowered(lowered, above, (steps - 1) as nat));
            },
            None => {
                assert(after == lowered);
            },
        }
        assert forall|x: ObjectId|
            #![trigger after.contains_key(x)]
            #![trigger after[x]]
            after.contains_key(x) == objects.contains_key(x) && shape_of(after[x]) == shape_of(
                objects[x],
            ) by {
            assert(lowered.contains_key(x) == objects.contains_key(x));
            assert(shape_of(lowered[x]) == shape_of(objects[x]));
            if parent_of(objects, node) is Some {
                let above = parent_of(objects, node)->0;
                let later = counts_lowered(lowered, above, (steps - 1) as nat);
                assert(later.contains_key(x) == lowered.contains_key(x));
                assert(shape_of(later[x]) == shape_of(lowered[x]));
            }
        }
    }
}

/// What taking a page out of the tree changes of what the walk reads: the
/// node that the page names as its parent lists its kids without the first
/// reference to the page, and nothing else is different.
pub proof fn lemma_removal_changes_kids_only(objects: Map<ObjectId, Value>, page: ObjectId)
    ensures
        forall|x: ObjectId|
            #![trigger page_removed(objects, page).contains_key(x)]
            page_removed(objects, page).contains_key(x) == objects.contains_key(x),
        forall|x: ObjectId|
            #![trigger page_removed(objects, page)[x]]
            parent_of(objects, page) != Some(x) ==> shape_of(page_removed(objects, page)[x])
                == shape_of(objects[x]),
        parent_of(objects, page) matches Some(node) ==> {
            let before = shape_of(objects[node]);
            let after = shape_of(page_removed(objects, page)[node]);
            &&& after.0 == before.0
            &&& after.1 == before.1
            &&& after.3 == before.3
            &&& after.4 == before.4
            &&& after.2 == (match before.2 {
                Some(kids) => if objects.contains_key(node) {
                    Some(without_kid(kids, page))
                } else {
                    Some(kids)
                },
                None => None,
            })
        },
{
    lemma_names_differ();
    match parent_of(objects, page) {
        Some(node) => {
            let dropped = kid_dropped(objects, node, page);
            lemma_counts_keep_shape(dropped, node, objects.dom().len());
            if objects.contains_key(node) && kids_of(objects[node]) is Some {
                let entries = objects[node]->Dictionary_0;
                let listed = Value::Array(without_kid(kids_of(objects[node])->0, page));
                lemma_get_after_set(entries, name_bytes("Kids"), listed, name_bytes("Type"));
                lemma_get_after_set(entries, name_bytes("Kids"), listed, name_bytes("Parent"));
                lemma_get_after_set(entries, name_bytes("Kids"), listed, name_bytes("Pages"));
                assert(shape_of(dropped[node]).2 == Some(
                    without_kid(kids_of(objects[node])->0, page),
                ));
            }
            assert forall|x: ObjectId|
                #![trigger page_removed(objects, page)[x]]
                x != node implies shape_of(page_removed(objects, page)[x]) == shape_of(
                objects[x],
            ) by {
                assert(counts_lowered(dropped, node, objects.dom().len()).contains_key(x)
                    == dropped.contains_key(x));
                if objects.contains_key(x) {
                    assert(dropped[x] == objects[x]);
                } else {
                    assert(!dropped.contains_key(x));
                }
            }
            assert forall|x: ObjectId|
                #![trigger page_removed(objects, page).contains_key(x)]
                page_removed(objects, page).contains_key(x) == objects.contains_key(x) by {
                assert(counts_lowered(dropped, node, objects.dom().len()).contains_key(x)
                    == dropped.contains_key(x));
            }
        },
        None => {},
    }
}


/// The tree under the object `id`, followed for `depth` levels, is proper:
/// every node lists each kid once, and every kid that is listed names the
/// node that lists it as its parent.
pub open spec fn proper_tree(objects: Map<ObjectId, Value>, id: ObjectId, depth: nat) -> bool
    decreases depth, 0nat,
{
    depth == 0 || (objects.contains_key(id) && !has_type(objects[id], "Page") && has_type(
        objects[id],
        "Pages",
    ) && kids_of(objects[id]) is Some ==> proper_kids(
        objects,
        id,
        kids_of(objects[id])->0,
        kids_of(objects[id])->0.len(),
        (depth - 1) as nat,
    ))
}

/// The first `n` of the kids that `node` lists are proper: no reference
/// among them is listed twice, and what each refers to names `node` as its
/// parent and has a proper tree under it.
pub open spec fn proper_kids(
    objects: Map<ObjectId, Value>,
    node: ObjectId,
    kids: Seq<Value>,
    n: nat,
    depth: nat,
) -> bool
    decreases depth, n + 1,
{
    n == 0 || n > kids.len() || {
        &&& proper_kids(objects, node, kids, (n - 1) as nat, depth)
        &&& kids[n - 1] matches Value::Reference(kid) ==> {
            &&& parent_of(objects, kid) == Some(node)
            &&& proper_tree(objects, kid, depth)
            &&& forall|j: int| 0 <= j < n - 1 ==> #[trigger] kids[j] != kids[n - 1]
        }
    }
}

/// What being proper says of one of the kids.
pub proof fn lemma_proper_kid(
    objects: Map<ObjectId, Value>,
    node: ObjectId,
    kids: Seq<Value>,
    n: nat,
    depth: nat,
    at: int,
)
    requires
        proper_kids(objects, node, kids, n, depth),
        0 <= at < n <= kids.len(),
    ensures
        proper_kids(objects, node, kids, at as nat, depth),
        kids[at] matches Value::Reference(kid) ==> {
            &&& parent_of(objects, kid) == Some(node)
            &&& proper_tree(objects, kid, depth)
            &&& forall|j: int| 0 <= j < at ==> #[trigger] kids[j] != kids[at]
        },
    decreases n,
{
    if at < n - 1 {
        lemma_proper_kid(objects, node, kids, (n - 1) as nat, depth, at);
    } else if at > 0 {
        lemma_proper_kid(objects, node, kids, (n - 1) as nat, depth, at - 1);
    }
}

/// The pages under kids depend on the kids that are looked at only.
pub proof fn lemma_pages_of_same_kids(
    objects: Map<ObjectId, Value>,
    kids: Seq<Value>,
    others: Seq<Value>,
    n: nat,
    depth: nat,
)
    requires
        n <= kids.len(),
        n <= others.len(),
        forall|j: int| 0 <= j < n ==> #[trigger] kids[j] == others[j],
    ensures
        pages_of_kids(objects, kids, n, depth) == pages_of_kids(objects, others, n, depth),
    decreases n,
{
    if n > 0 {
        lemma_pages_of_same_kids(objects, kids, others, (n - 1) as nat, depth);
        assert(kids[n - 1] == others[n - 1]);
    }
}

/// All pages but `page`.
pub open spec fn other_than(page: ObjectId) -> spec_fn(ObjectId) -> bool {
    |id: ObjectId| id != page
}

/// Taking a page out of the tree takes it, and nothing else, out of the
/// pages under any object but the page itself, where the tree under that
/// object is proper.
pub proof fn lemma_pages_under_after_removal(
    objects: Map<ObjectId, Value>,
    page: ObjectId,
    id: ObjectId,
    depth: nat,
)
    requires
        parent_of(objects, page) is Some,
        has_type(objects[page], "Page"),
        id != page,
        proper_tree(objects, id, depth),
    ensures
        pages_under(page_removed(objects, page), id, depth) == pages_under(
            objects,
            id,
            depth,
        ).filter(other_than(page)),
    decreases depth, 0nat,
{
    let after = page_removed(objects, page);
    let node = parent_of(objects, page)->0;
    lemma_removal_changes_kids_only(objects, page);
    lemma_names_differ();
    reveal_with_fuel(Seq::filter, 2);
    assert(after.contains_key(id) == objects.contains_key(id));
    assert(shape_of(after[id]).0 == shape_of(objects[id]).0);
    assert(shape_of(after[id]).1 == shape_of(objects[id]).1);
    if depth == 0 || !objects.contains_key(id) {
    } else if has_type(objects[id], "Page") {
        assert(seq![id].filter(other_than(page)) =~= seq![id]);
    } else if has_type(objects[id], "Pages") && kids_of(objects[id]) is Some {
        let kids = kids_of(objects[id])->0;
        let below = (depth - 1) as nat;
        if id != node {
            assert(shape_of(after[id]) == shape_of(objects[id]));
            assert forall|j: int| 0 <= j < kids.len() implies #[trigger] kids[j]
                != Value::Reference(page) by {
                lemma_proper_kid(objects, id, kids, kids.len(), below, j);
            }
            lemma_kids_after_removal(objects, page, id, kids, kids.len(), below);
        } else {
            let at = first_kid(kids, page, 0);
            lemma_first_kid(kids, page, 0);
            if at < kids.len() {
                assert(kids_of(after[id]) == Some(kids.remove(at)));
                assert forall|j: int| 0 <= j < kids.len() && j != at implies #[trigger] kids[j]
                    != Value::Reference(page) by {
                    if j > at {
                        lemma_proper_kid(objects, id, kids, kids.len(), below, j);
                        assert(kids[at] != kids[j]);
                    }
                }
                lemma_kids_after_removal_at_node(objects, page, id, kids, at, kids.len(), below);
            } else {
                assert(kids_of(after[id]) == Some(kids));
                lemma_kids_after_removal(objects, page, id, kids, kids.len(), below);
            }
        }
    } else {
        assert(shape_of(after[id]).2 is Some == shape_of(objects[id]).2 is Some);
    }
}

/// `first_kid` stays within bounds, names a reference to the page, and
/// passes none on its way.
pub proof fn lemma_first_kid(kids: Seq<Value>, page: ObjectId, from: int)
    requires
        0 <= from <= kids.len(),
    ensures
        from <= first_kid(kids, page, from) <= kids.len(),
        first_kid(kids, page, from) < kids.len() ==> kids[first_kid(kids, page, from)]
            == Value::Reference(page),
        forall|j: int|
            from <= j < first_kid(kids, page, from) ==> #[trigger] kids[j] != Value::Reference(
                page,
            ),
    decreases kids.len() - from,
{
    if from < kids.len() && kids[from] != Value::Reference(page) {
        lemma_first_kid(kids, page, from + 1);
    }
}

/// Taking a page out of the tree takes it, and nothing else, out of the
/// pages under kids none of which refers to the page.
pub proof fn lemma_kids_after_removal(
    objects: Map<ObjectId, Value>,
    page: ObjectId,
    node: ObjectId,
    kids: Seq<Value>,
    n: nat,
    depth: nat,
)
    requires
        parent_of(objects, page) is Some,
        has_type(objects[page], "Page"),
        n <= kids.len(),
        proper_kids(objects, node, kids, n, depth),
        forall|j: int| 0 <= j < n ==> #[trigger] kids[j] != Value::Reference(page),
    ensures
        pages_of_kids(page_removed(objects, page), kids, n, depth) == pages_of_kids(
            objects,
            kids,
            n,
            depth,
        ).filter(other_than(page)),
    decreases depth, n + 1,
{
    let after = page_removed(objects, page);
    reveal_with_fuel(Seq::filter, 2);
    if n > 0 {
        lemma_kids_after_removal(objects, page, node, kids, (n - 1) as nat, depth);
        let before = pages_of_kids(objects, kids, (n - 1) as nat, depth);
        match kids[n - 1] {
            Value::Reference(kid) => {
                assert(kid != page);
                lemma_pages_under_after_removal(objects, page, kid, depth);
                Seq::filter_distributes_over_add(
                    before,
                    pages_under(objects, kid, depth),
                    other_than(page),
                );
            },
            _ => {},
        }
    }
}

/// Taking a page out of the tree takes it, and nothing else, out of the
/// pages under the kids of the node that listed it.
pub proof fn lemma_kids_after_removal_at_node(
    objects: Map<ObjectId, Value>,
    page: ObjectId,
    node: ObjectId,
    kids: Seq<Value>,
    at: int,
    n: nat,
    depth: nat,
)
    requires
        parent_of(objects, page) is Some,
        has_type(objects[page], "Page"),
        0 <= at < n <= kids.len(),
        kids[at] == Value::Reference(page),
        proper_kids(objects, node, kids, kids.len(), depth),
        forall|j: int|
            0 <= j < kids.len() && j != at ==> #[trigger] kids[j] != Value::Reference(page),
    ensures
        pages_of_kids(page_removed(objects, page), kids.remove(at), (n - 1) as nat, depth)
            == pages_of_kids(objects, kids, n, depth).filter(other_than(page)),
    decreases depth, n + 1,
{
    let after = page_removed(objects, page);
    let fewer = kids.remove(at);
    let rest = other_than(page);
    reveal_with_fuel(Seq::filter, 2);
    lemma_removal_changes_kids_only(objects, page);
    if n == at + 1 {
        lemma_proper_kid(objects, node, kids, kids.len(), depth, at);
        lemma_pages_of_same_kids(after, fewer, kids, at as nat, depth);
        lemma_kids_after_removal(objects, page, node, kids, at as nat, depth);
        let before = pages_of_kids(objects, kids, at as nat, depth);
        let under = pages_under(objects, page, depth);
        Seq::filter_distributes_over_add(before, under, rest);
        assert(under.filter(rest) =~= Seq::<ObjectId>::empty()) by {
            if depth > 0 {
                assert(under == seq![page]);
            }
        }
        assert(before.filter(rest) + under.filter(rest) =~= before.filter(rest));
    } else {
        lemma_kids_after_removal_at_node(objects, page, node, kids, at, (n - 1) as nat, depth);
        assert(fewer[n - 2] == kids[n - 1]);
        let before = pages_of_kids(objects, kids, (n - 1) as nat, depth);
        match kids[n - 1] {
            Value::Reference(kid) => {
                assert(kid != page);
                lemma_proper_kid(objects, node, kids, kids.len(), depth, n - 1);
                lemma_pages_under_after_removal(objects, page, kid, depth);
                Seq::filter_distributes_over_add(before, pages_under(objects, kid, depth), rest);
            },
            _ => {},
        }
    }
}


/// A proper tree is still proper after a page was taken out of it.
pub proof fn lemma_proper_after_removal(
    objects: Map<ObjectId, Value>,
    page: ObjectId,
    id: ObjectId,
    depth: nat,
)
    requires
        parent_of(objects, page) is Some,
        proper_tree(objects, id, depth),
    ensures
        proper_tree(page_removed(objects, page), id, depth),
    decreases depth, 0nat,
{
    let after = page_removed(objects, page);
    let node = parent_of(objects, page)->0;
    lemma_removal_changes_kids_only(objects, page);
    assert(after.contains_key(id) == objects.contains_key(id));
    assert(shape_of(after[id]).0 == shape_of(objects[id]).0);
    assert(shape_of(after[id]).1 == shape_of(objects[id]).1);
    if depth > 0 && objects.contains_key(id) && !has_type(objects[id], "Page") && has_type(
        objects[id],
        "Pages",
    ) {
        let below = (depth - 1) as nat;
        if kids_of(objects[id]) is Some {
            let kids = kids_of(objects[id])->0;
            let at = first_kid(kids, page, 0);
            lemma_first_kid(kids, page, 0);
            if id == node && at < kids.len() {
                assert(kids_of(after[id]) == Some(kids.remove(at)));
                lemma_proper_kids_after_removal_at_node(
                    objects,
                    page,
                    id,
                    kids,
                    at,
                    (kids.len() - 1) as nat,
                    below,
                );
            } else {
                assert(kids_of(after[id]) == Some(kids));
                lemma_proper_kids_after_removal(objects, page, id, kids, kids.len(), below);
            }
        } else {
            assert(shape_of(after[id]).2 is None);
        }
    }
}

/// Proper kids are still proper after a page was taken out of the tree.
pub proof fn lemma_proper_kids_after_removal(
    objects: Map<ObjectId, Value>,
    page: ObjectId,
    node: ObjectId,
    kids: Seq<Value>,
    n: nat,
    depth: nat,
)
    requires
        parent_of(objects, page) is Some,
        n <= kids.len(),
        proper_kids(objects, node, kids, n, depth),
    ensures
        proper_kids(page_removed(objects, page), node, kids, n, depth),
    decreases depth, n + 1,
{
    let after = page_removed(objects, page);
    lemma_removal_changes_kids_only(objects, page);
    if n > 0 {
        lemma_proper_kids_after_removal(objects, page, node, kids, (n - 1) as nat, depth);
        match kids[n - 1] {
            Value::Reference(kid) => {
                lemma_proper_after_removal(objects, page, kid, depth);
                assert(after.contains_key(kid) == objects.contains_key(kid));
                assert(shape_of(after[kid]).3 == shape_of(objects[kid]).3);
            },
            _ => {},
        }
    }
}

/// The kids of the node that listed the page are proper without it.
pub proof fn lemma_proper_kids_after_removal_at_node(
    objects: Map<ObjectId, Value>,
    page: ObjectId,
    node: ObjectId,
    kids: Seq<Value>,
    at: int,
    n: nat,
    depth: nat,
)
    requires
        parent_of(objects, page) is Some,
        0 <= at < kids.len(),
        n <= kids.len() - 1,
        proper_kids(objects, node, kids, kids.len(), depth),
    ensures
        proper_kids(page_removed(objects, page), node, kids.remove(at), n, depth),
    decreases depth, n + 1,
{
    let after = page_removed(objects, page);
    let fewer = kids.remove(at);
    lemma_removal_changes_kids_only(objects, page);
    if n > 0 {
        lemma_proper_kids_after_removal_at_node(
            objects,
            page,
            node,
            kids,
            at,
            (n - 1) as nat,
            depth,
        );
        let from = if n - 1 < at {
            n - 1
        } else {
            n as int
        };
        assert(fewer[n - 1] == kids[from]);
        lemma_proper_kid(objects, node, kids, kids.len(), depth, from);
        match kids[from] {
            Value::Reference(kid) => {
                lemma_proper_after_removal(objects, page, kid, depth);
                assert(after.contains_key(kid) == objects.contains_key(kid));
                assert(shape_of(after[kid]).3 == shape_of(objects[kid]).3);
                assert forall|j: int| 0 <= j < n - 1 implies #[trigger] fewer[j] != fewer[n
                    - 1] by {
                    let origin = if j < at {
                        j
                    } else {
                        j + 1
                    };
                    assert(fewer[j] == kids[origin]);
                    assert(kids[origin] != kids[from]);
                }
            },
            _ => {},
        }
    }
}

/// What a walk through a proper tree finds as pages are objects of type
/// `Page`, and each but the object that the walk starts at names a parent.
pub proof fn lemma_pages_found_are_pages(
    objects: Map<ObjectId, Value>,
    id: ObjectId,
    depth: nat,
    found: ObjectId,
)
    requires
        proper_tree(objects, id, depth),
        pages_under(objects, id, depth).contains(found),
    ensures
        objects.contains_key(found),
        has_type(objects[found], "Page"),
        found != id ==> parent_of(objects, found) is Some,
    decreases depth, 0nat,
{
    if depth > 0 && objects.contains_key(id) {
        if has_type(objects[id], "Page") {
            assert(pages_under(objects, id, depth)[0] == id);
        } else if has_type(objects[id], "Pages") && kids_of(objects[id]) is Some {
            let kids = kids_of(objects[id])->0;
            lemma_pages_found_under_kids(objects, id, kids, kids.len(), (depth - 1) as nat, found);
        }
    }
}

/// What a walk finds as pages under proper kids are objects of type `Page`
/// that name a parent.
pub proof fn lemma_pages_found_under_kids(
    objects: Map<ObjectId, Value>,
    node: ObjectId,
    kids: Seq<Value>,
    n: nat,
    depth: nat,
    found: ObjectId,
)
    requires
        n <= kids.len(),
        proper_kids(objects, node, kids, n, depth),
        pages_of_kids(objects, kids, n, depth).contains(found),
    ensures
        objects.contains_key(found),
        has_type(objects[found], "Page"),
        parent_of(objects, found) is Some,
    decreases depth, n + 1,
{
    if n > 0 {
        let before = pages_of_kids(objects, kids, (n - 1) as nat, depth);
        match kids[n - 1] {
            Value::Reference(kid) => {
                let under = pages_under(objects, kid, depth);
                let all = before + under;
                let k = choose|k: int| 0 <= k < all.len() && all[k] == found;
                if k < before.len() {
                    assert(before[k] == found);
                    lemma_pages_found_under_kids(objects, node, kids, (n - 1) as nat, depth, found);
                } else {
                    assert(under[k - before.len()] == found);
                    lemma_pages_found_are_pages(objects, kid, depth, found);
                }
            },
            _ => {
                lemma_pages_found_under_kids(objects, node, kids, (n - 1) as nat, depth, found);
            },
        }
    }
}

/// Leaving out of a list that holds nothing twice all that equals one of
/// its items is taking that item out at its place.
pub proof fn lemma_filter_is_remove(pages: Seq<ObjectId>, at: int)
    requires
        pages.no_duplicates(),
        0 <= at < pages.len(),
    ensures
        pages.filter(other_than(pages[at])) == pages.remove(at),
    decreases pages.len(),
{
    let rest = other_than(pages[at]);
    let front = pages.drop_last();
    reveal_with_fuel(Seq::filter, 2);
    if at == pages.len() - 1 {
        lemma_filter_keeps_all(front, pages[at]);
        assert(pages.remove(at) =~= front);
    } else {
        lemma_filter_is_remove(front, at);
        assert(front[at] == pages[at]);
        assert(pages.last() != pages[at]);
        assert(front.remove(at).push(pages.last()) =~= pages.remove(at));
    }
}

/// Leaving out of a list all that equals something it does not hold leaves
/// the list.
pub proof fn lemma_filter_keeps_all(pages: Seq<ObjectId>, absent: ObjectId)
    requires
        !pages.contains(absent),
    ensures
        pages.filter(other_than(absent)) == pages,
    decreases pages.len(),
{
    reveal_with_fuel(Seq::filter, 2);
    if pages.len() > 0 {
        let front = pages.drop_last();
        assert(!front.contains(absent)) by {
            if front.contains(absent) {
                let k = choose|k: int| 0 <= k < front.len() && front[k] == absent;
                assert(pages[k] == absent);
            }
        }
        lemma_filter_keeps_all(front, absent);
        assert(pages[pages.len() - 1] != absent);
        assert(front.push(pages.last()) =~= pages);
    }
}


/// Two documents hold objects under the same identifiers, and of each the
/// same kind, the same parent and, of a catalog, the same root; the kids
/// that a node lists may differ.
pub open spec fn same_but_kids(objects: Map<ObjectId, Value>, other: Map<ObjectId, Value>) -> bool {
    forall|x: ObjectId|
        #![trigger other.contains_key(x)]
        #![trigger other[x]]
        {
            &&& other.contains_key(x) == objects.contains_key(x)
            &&& shape_of(other[x]).0 == shape_of(objects[x]).0
            &&& shape_of(other[x]).1 == shape_of(objects[x]).1
            &&& shape_of(other[x]).3 == shape_of(objects[x]).3
            &&& shape_of(other[x]).4 == shape_of(objects[x]).4
        }
}

/// Taking the pages of the first `j` of distinct numbers out of a proper
/// tree, one after the other, leaves a proper tree whose pages are the
/// pages of the other numbers.
proof fn lemma_delete_steps_any_tree(
    objects: Map<ObjectId, Value>,
    root: ObjectId,
    pages: Seq<ObjectId>,
    distinct: Seq<u32>,
    depth: nat,
    j: nat,
)
    requires
        !has_type(objects[root], "Page"),
        proper_tree(objects, root, depth),
        pages == pages_under(objects, root, depth),
        pages.no_duplicates(),
        pages.len() <= u32::MAX,
        distinct.no_duplicates(),
        forall|k: int| 0 <= k < distinct.len() ==> 1 <= #[trigger] distinct[k] <= pages.len(),
        j <= distinct.len(),
    ensures
        ({
            let done = distinct.take(j as int);
            let after = pages_removed(objects, requested_pages(pages, done));
            let kept = kept_pages(pages, done.to_set(), pages.len());
            &&& same_but_kids(objects, after)
            &&& proper_tree(after, root, depth)
            &&& pages_under(after, root, depth) == kept
            &&& kept.len() == pages.len() - j
        }),
    decreases j,
{
    let done = distinct.take(j as int);
    if j == 0 {
        assert(done =~= Seq::<u32>::empty());
        assert(done.to_set() =~= Set::<u32>::empty());
        assert(requested_pages(pages, done) =~= Seq::<ObjectId>::empty());
        lemma_kept_pages_all(pages, pages.len());
        assert(pages.take(pages.len() as int) =~= pages);
    } else {
        let earlier = distinct.take(j - 1);
        let number = distinct[j - 1];
        let page = pages[number - 1];
        lemma_delete_steps_any_tree(objects, root, pages, distinct, depth, (j - 1) as nat);
        let before = pages_removed(objects, requested_pages(pages, earlier));
        let kept = kept_pages(pages, earlier.to_set(), pages.len());
        assert(done =~= earlier.push(number));
        earlier.lemma_push_to_set_commute(number);
        assert(requested_pages(pages, done).drop_last() =~= requested_pages(pages, earlier));
        assert(requested_pages(pages, done).last() == page);
        assert(!earlier.to_set().contains(number)) by {
            if earlier.contains(number) {
                let k = choose|k: int| 0 <= k < earlier.len() && earlier[k] == number;
                assert(distinct[k] == distinct[j - 1]);
            }
        }
        assert(pages.contains(page)) by {
            assert(pages[number - 1] == page);
        }
        lemma_pages_found_are_pages(objects, root, depth, page);
        assert(before.contains_key(page) == objects.contains_key(page));
        assert(shape_of(before[page]).0 == shape_of(objects[page]).0);
        assert(shape_of(before[page]).3 == shape_of(objects[page]).3);
        assert(before.contains_key(root) == objects.contains_key(root));
        assert(shape_of(before[root]).0 == shape_of(objects[root]).0);
        assert(parent_of(before, page) is Some);
        lemma_pages_under_after_removal(before, page, root, depth);
        lemma_proper_after_removal(before, page, root, depth);
        lemma_removal_changes_kids_only(before, page);
        lemma_kept_pages(pages, earlier.to_set(), pages.len());
        lemma_kept_pages_without(pages, earlier.to_set(), number, pages.len());
        let at = kept_pages(pages, earlier.to_set(), (number - 1) as nat).len() as int;
        lemma_filter_is_remove(kept, at);
        let after = page_removed(before, page);
        assert(same_but_kids(objects, after)) by {
            assert forall|x: ObjectId|
                #![trigger after.contains_key(x)]
                #![trigger after[x]]
                {
                    &&& after.contains_key(x) == objects.contains_key(x)
                    &&& shape_of(after[x]).0 == shape_of(objects[x]).0
                    &&& shape_of(after[x]).1 == shape_of(objects[x]).1
                    &&& shape_of(after[x]).3 == shape_of(objects[x]).3
                    &&& shape_of(after[x]).4 == shape_of(objects[x]).4
                } by {
                assert(before.contains_key(x) == objects.contains_key(x));
                assert(shape_of(before[x]).0 == shape_of(objects[x]).0);
                if parent_of(before, page) != Some(x) {
                    assert(shape_of(after[x]) == shape_of(before[x]));
                }
            }
        }
    }
}

/// Deleting pages from a document whose page tree is proper, of whatever
/// shape, leaves a document whose pages are those whose numbers were not
/// given, in their order: as many as there were, less the numbers given,
/// each counted once. The place of a page in that order, counted from 1, is
/// its new number. `pages` are the pages of the document, as a walk finds
/// them that follows the tree for `depth` levels; none is found twice.
pub proof fn lemma_delete_from_any_tree(
    doc: DocumentView,
    pages: Seq<ObjectId>,
    numbers: Seq<u32>,
    depth: nat,
)
    requires
        page_tree_of(doc) is Some,
        !has_type(doc.objects[page_tree_of(doc)->0], "Page"),
        proper_tree(doc.objects, page_tree_of(doc)->0, depth),
        pages == document_pages(doc, depth),
        pages.no_duplicates(),
        pages.len() <= u32::MAX,
        delete_failure(pages.len(), numbers) is None,
    ensures
        ({
            let after = DocumentView {
                objects: pages_removed(
                    doc.objects,
                    requested_pages(pages, distinct_numbers(numbers)),
                ),
                ..doc
            };
            let remaining = kept_pages(pages, numbers.to_set(), pages.len());
            &&& page_tree_of(after) == page_tree_of(doc)
            &&& document_pages(after, depth) == remaining
            &&& numbers.to_set().finite()
            &&& remaining.len() == pages.len() - numbers.to_set().len()
        }),
{
    let root = page_tree_of(doc)->0;
    let distinct = distinct_numbers(numbers);
    lemma_distinct_numbers(numbers);
    lemma_first_out_of_range(page_limit(pages.len()), numbers, 0);
    assert forall|k: int| 0 <= k < distinct.len() implies 1 <= #[trigger] distinct[k]
        <= pages.len() by {
        assert(distinct.to_set().contains(distinct[k]));
        assert(numbers.contains(distinct[k]));
        let i = choose|i: int| 0 <= i < numbers.len() && numbers[i] == distinct[k];
        assert(1 <= numbers[i] <= page_limit(pages.len()));
    }
    lemma_delete_steps_any_tree(doc.objects, root, pages, distinct, depth, distinct.len());
    assert(distinct.take(distinct.len() as int) =~= distinct);
    distinct.unique_seq_to_set();
    vstd::seq_lib::seq_to_set_is_finite(numbers);
    let objects = pages_removed(doc.objects, requested_pages(pages, distinct));
    let catalog = catalog_of(doc)->0;
    assert(objects.contains_key(catalog) == doc.objects.contains_key(catalog));
    assert(shape_of(objects[catalog]).4 == shape_of(doc.objects[catalog]).4);
}


/// The first `n` kids of the root of a flat page tree are proper.
proof fn lemma_flat_kids_are_proper(
    objects: Map<ObjectId, Value>,
    root: ObjectId,
    pages: Seq<ObjectId>,
    n: nat,
    depth: nat,
)
    requires
        n <= pages.len(),
        pages.no_duplicates(),
        forall|i: int|
            0 <= i < pages.len() ==> parent_of(objects, #[trigger] pages[i]) == Some(root)
                && has_type(objects[pages[i]], "Page"),
    ensures
        proper_kids(objects, root, references_to(pages), n, depth),
    decreases n,
{
    let kids = references_to(pages);
    if n > 0 {
        lemma_flat_kids_are_proper(objects, root, pages, (n - 1) as nat, depth);
        assert(kids.len() == pages.len());
        assert(kids[n - 1] == Value::Reference(pages[n - 1]));
        assert(parent_of(objects, pages[n - 1]) == Some(root));
        assert(has_type(objects[pages[n - 1]], "Page"));
        assert(proper_tree(objects, pages[n - 1], depth));
        assert forall|j: int| 0 <= j < n - 1 implies #[trigger] kids[j] != kids[n - 1] by {
            assert(kids[j] == Value::Reference(pages[j]));
            assert(pages[j] != pages[n - 1]);
        }
    }
}

/// A flat page tree with distinct pages of type `Page` is a proper tree,
/// and a walk through it for two levels or more finds its pages.
pub proof fn lemma_flat_tree_is_proper(doc: DocumentView, pages: Seq<ObjectId>, depth: nat)
    requires
        flat_page_tree(doc, pages),
        pages.no_duplicates(),
        forall|i: int| 0 <= i < pages.len() ==> has_type(doc.objects[#[trigger] pages[i]], "Page"),
        depth >= 2,
    ensures
        !has_type(doc.objects[page_tree_of(doc)->0], "Page"),
        proper_tree(doc.objects, page_tree_of(doc)->0, depth),
        document_pages(doc, depth) == pages,
{
    let root = page_tree_of(doc)->0;
    let objects = doc.objects;
    lemma_names_differ();
    assert forall|i: int| 0 <= i < pages.len() implies parent_of(objects, #[trigger] pages[i])
        == Some(root) && has_type(objects[pages[i]], "Page") && objects.contains_key(pages[i]) by {
        assert(objects.contains_key(pages[i]));
    }
    lemma_flat_kids_are_proper(objects, root, pages, pages.len(), (depth - 1) as nat);
    lemma_pages_of_leaves(objects, pages, pages.len(), (depth - 1) as nat);
    assert(pages.take(pages.len() as int) =~= pages);
    assert(references_to(pages).len() == pages.len());
    assert(kids_of(objects[root]) == Some(references_to(pages)));
}

} // verus!
