//! What holds of the operations taken together.

use crate::closure::{closure, lemma_reachable_step, lemma_root_reachable, reachable, refers_to};
use crate::deep_copy::deep_copied;
use crate::document::DocumentView;
use crate::error::{ErrorKind, PdfError};
use crate::extractor::extract_failure;
use crate::merger::{
    counted, lemma_appended_has_node, merge_outcome, merge_stages, pages_appended, shift_map,
    shifted, shifted_all, MergeInput,
};
use crate::names::{lemma_names_differ, name_bytes};
use crate::object::{
    entries_find, entries_get, entries_set, find_from, lemma_find_from, lemma_get_after_set,
    lemma_set_twice, Entries, ObjectId, Value,
};
use crate::page_tree::{
    catalog_of, document_pages, flat_page_tree, has_page_node, has_type, kids_are_clear, kids_of,
    lemma_catalog_entries, lemma_flat_tree_lists_pages, lemma_pages_of_joined_kids,
    lemma_pages_of_kids_unchanged, lemma_pages_of_leaves, lemma_tree_node_entries,
    listed_by_root, page_tree_of, pages_of_kids, pages_under, references_to, with_kids,
};
use crate::pages::{
    copies_of, lemma_first_unusable, pages_copied, pages_copied_with, usable_page,
};
use crate::refs::{lemma_entries_refs_contains, value_refs};
use crate::remover::{
    count_lowered, counts_lowered, delete_failure, distinct_numbers, first_kid, first_out_of_range,
    kid_dropped, lemma_distinct_numbers, lemma_first_out_of_range, lemma_page_removed_dom,
    page_limit, page_removed, pages_removed, parent_of,
};
use crate::rewrite::{
    lemma_get_of_rewritten, lemma_refs_of_rewritten, lemma_rewrite_keeps_kind,
    lemma_rewrite_value, rewrite_id, rewrite_ids, rewrite_value, with_parent,
};
use crate::rotator::{
    allowed_angle, current_rotation, lemma_with_rotation, rotate_failure, turned, with_rotation,
};
use crate::splitter::{
    first_unknown_page, lemma_first_unknown_page, requested_pages, split_failure,
};
use vstd::prelude::*;

verus! {

/// A cycle of references is copied as a cycle among the copies: where an
/// object that is copied and another refer to each other, the copy of each
/// refers to the copy of the other. What a copy refers to is, position by
/// position, what its original refers to, redirected; so it refers to
/// another original only where that original has the identifier of its own
/// copy.
pub proof fn lemma_cycle_is_copied(
    objects: Map<ObjectId, Value>,
    roots: Seq<ObjectId>,
    before: DocumentView,
    after: DocumentView,
    mapping: Map<ObjectId, ObjectId>,
    a: ObjectId,
    b: ObjectId,
)
    requires
        deep_copied(objects, roots, before, after, mapping),
        roots.contains(a),
        refers_to(objects, a, b),
        refers_to(objects, b, a),
    ensures
        mapping.contains_key(a),
        mapping.contains_key(b),
        after.objects.contains_key(mapping[a]),
        after.objects.contains_key(mapping[b]),
        refers_to(after.objects, mapping[a], mapping[b]),
        refers_to(after.objects, mapping[b], mapping[a]),
        value_refs(after.objects[mapping[a]]) == rewrite_ids(value_refs(objects[a]), mapping),
        value_refs(after.objects[mapping[b]]) == rewrite_ids(value_refs(objects[b]), mapping),
{
    let reach = closure(objects, roots);
    let k = choose|k: int| 0 <= k < roots.len() && roots[k] == a;
    lemma_root_reachable(objects, roots, k);
    lemma_reachable_step(objects, roots, a, b);
    assert(reach.contains(a));
    assert(reach.contains(b));
    lemma_refs_of_rewritten(objects[a], mapping);
    lemma_refs_of_rewritten(objects[b], mapping);
    let refs_a = value_refs(objects[a]);
    let refs_b = value_refs(objects[b]);
    let i = choose|i: int| 0 <= i < refs_a.len() && refs_a[i] == b;
    let j = choose|j: int| 0 <= j < refs_b.len() && refs_b[j] == a;
    assert(rewrite_ids(refs_a, mapping)[i] == mapping[b]);
    assert(rewrite_ids(refs_b, mapping)[j] == mapping[a]);
}

/// A document made of pages has a flat page tree whose pages are the copies
/// of the pages it was made of, in their order and as many.
pub proof fn lemma_copied_pages_form_tree(
    source: DocumentView,
    roots: Seq<ObjectId>,
    out: DocumentView,
    mapping: Map<ObjectId, ObjectId>,
)
    requires
        pages_copied_with(source, roots, out, mapping),
    ensures
        flat_page_tree(out, copies_of(roots, mapping)),
        listed_by_root(out) == Some(copies_of(roots, mapping)),
        catalog_of(out) is Some,
        out.objects.contains_key(catalog_of(out)->0),
        out.objects[catalog_of(out)->0] matches Value::Dictionary(catalog) && entries_get(
            catalog,
            name_bytes("Type"),
        ) == Some(Value::Name(name_bytes("Catalog"))),
        copies_of(roots, mapping).len() == roots.len(),
        forall|i: int|
            0 <= i < roots.len() ==> #[trigger] copies_of(roots, mapping)[i] == mapping[roots[i]],
        forall|i: int, j: int|
            0 <= i < roots.len() && 0 <= j < roots.len() ==> (copies_of(roots, mapping)[i]
                == copies_of(roots, mapping)[j] <==> roots[i] == roots[j]),
{
    let objects = source.objects;
    let reach = closure(objects, roots);
    let n = reach.len();
    let tree = ((n + 1) as u32, 0u16);
    let catalog = ((n + 2) as u32, 0u16);
    let kids = copies_of(roots, mapping);
    lemma_tree_node_entries(kids);
    lemma_catalog_entries(tree);
    assert(catalog_of(out) == Some(catalog)) by {
        reveal_with_fuel(find_from, 2);
    }
    assert(page_tree_of(out) == Some(tree));
    assert forall|i: int| 0 <= i < roots.len() implies reach.contains(#[trigger] roots[i]) by {
        lemma_root_reachable(objects, roots, i);
        assert(usable_page(objects, roots[i]));
    }
    assert forall|i: int| 0 <= i < kids.len() implies {
        &&& out.objects.contains_key(#[trigger] kids[i])
        &&& out.objects[kids[i]] matches Value::Dictionary(page)
        &&& entries_get(page, name_bytes("Parent")) == Some(Value::Reference(tree))
    } by {
        let id = roots[i];
        assert(reach.contains(roots[i]));
        assert(usable_page(objects, roots[i]));
        assert(kids[i] == mapping[id]);
        lemma_rewrite_keeps_kind(objects[id], mapping);
        let redirected = rewrite_value(objects[id], mapping);
        lemma_get_after_set(
            redirected->Dictionary_0,
            name_bytes("Parent"),
            Value::Reference(tree),
            name_bytes("Parent"),
        );
    }
    assert forall|i: int, j: int| 0 <= i < roots.len() && 0 <= j < roots.len() implies (kids[i]
        == kids[j] <==> roots[i] == roots[j]) by {
        assert(reach.contains(roots[i]));
        assert(reach.contains(roots[j]));
    }
    lemma_flat_tree_lists_pages(out, kids);
}

/// The document made of one page of another has exactly one page.
pub proof fn lemma_extracted_has_one_page(source: DocumentView, page: ObjectId, out: DocumentView)
    requires
        pages_copied(source, seq![page], out),
    ensures
        exists|copy: ObjectId|
            #[trigger] flat_page_tree(out, seq![copy]) && listed_by_root(out) == Some(seq![copy]),
{
    let mapping = choose|mapping: Map<ObjectId, ObjectId>|
        pages_copied_with(source, seq![page], out, mapping);
    lemma_copied_pages_form_tree(source, seq![page], out, mapping);
    assert(copies_of(seq![page], mapping) =~= seq![mapping[page]]);
}

/// The document made of a list of pages of another lists as many pages as
/// were asked for, in the order in which they were asked for, and lists the
/// same page twice exactly where the same page was asked for twice.
pub proof fn lemma_split_keeps_order(source: DocumentView, roots: Seq<ObjectId>, out: DocumentView)
    requires
        pages_copied(source, roots, out),
    ensures
        exists|kids: Seq<ObjectId>|
            {
                &&& #[trigger] flat_page_tree(out, kids)
                &&& listed_by_root(out) == Some(kids)
                &&& kids.len() == roots.len()
                &&& forall|i: int, j: int|
                    0 <= i < roots.len() && 0 <= j < roots.len() ==> (kids[i] == kids[j]
                        <==> roots[i] == roots[j])
            },
{
    let mapping = choose|mapping: Map<ObjectId, ObjectId>|
        pages_copied_with(source, roots, out, mapping);
    lemma_copied_pages_form_tree(source, roots, out, mapping);
    assert(flat_page_tree(out, copies_of(roots, mapping)));
}

/// Merging a single document gives that document, unchanged.
pub proof fn lemma_merge_single(inputs: Seq<MergeInput>, result: Result<DocumentView, PdfError>)
    requires
        inputs.len() == 1,
        merge_outcome(inputs, result),
    ensures
        result == Ok::<DocumentView, PdfError>(inputs[0].document@),
{
}

/// A dictionary in which a name was given a value refers to nothing but
/// what that value refers to and what the dictionary referred to before.
pub proof fn lemma_refs_after_set(entries: Entries, key: Seq<u8>, value: Value, id: ObjectId)
    requires
        value_refs(Value::Dictionary(entries_set(entries, key, value))).contains(id),
    ensures
        value_refs(value).contains(id) || value_refs(Value::Dictionary(entries)).contains(id),
{
    let after = entries_set(entries, key, value);
    let at = entries_find(entries, key);
    lemma_find_from(entries, key, 0);
    lemma_entries_refs_contains(after, after.len(), id);
    lemma_entries_refs_contains(entries, entries.len(), id);
    let i = choose|i: int| 0 <= i < after.len() && #[trigger] value_refs(after[i].1).contains(id);
    if i != at {
        assert(after[i] == entries[i]);
        assert(value_refs(entries[i].1).contains(id));
    }
}

/// In a document made of pages, what a copy refers to is held by the
/// document, unless it is what the original referred to without the source
/// holding it. So no reference that led somewhere in the source dangles in
/// the copy: that holds of the page itself, of what it names as its
/// contents and its resources, and of all that these reach.
pub proof fn lemma_copied_references_resolve(
    source: DocumentView,
    roots: Seq<ObjectId>,
    out: DocumentView,
    mapping: Map<ObjectId, ObjectId>,
    original: ObjectId,
    target: ObjectId,
)
    requires
        pages_copied_with(source, roots, out, mapping),
        closure(source.objects, roots).contains(original),
        value_refs(out.objects[mapping[original]]).contains(target),
    ensures
        out.objects.contains_key(target) || (value_refs(source.objects[original]).contains(target)
            && !source.objects.contains_key(target)),
{
    let objects = source.objects;
    let reach = closure(objects, roots);
    let redirected = rewrite_value(objects[original], mapping);
    let tree = ((reach.len() + 1) as u32, 0u16);
    if roots.contains(original) && target == tree {
    } else {
        assert(value_refs(redirected).contains(target)) by {
            if roots.contains(original) {
                match redirected {
                    Value::Dictionary(entries) => {
                        lemma_refs_after_set(
                            entries,
                            name_bytes("Parent"),
                            Value::Reference(tree),
                            target,
                        );
                    },
                    _ => {},
                }
            }
        }
        lemma_refs_of_rewritten(objects[original], mapping);
        let refs = value_refs(objects[original]);
        let k = choose|k: int|
            0 <= k < rewrite_ids(refs, mapping).len() && rewrite_ids(refs, mapping)[k] == target;
        let named = refs[k];
        assert(rewrite_id(named, mapping) == target);
        assert(refers_to(objects, original, named));
        if mapping.contains_key(named) {
            assert(reach.contains(named));
        } else {
            assert(reachable(objects, roots, original));
            lemma_reachable_step(objects, roots, original, named);
            assert(!reach.contains(named));
        }
    }
}

/// What a node holds after its kids and then its count were set: the kids
/// and the count that were set, and under every other name what it held.
proof fn lemma_node_after_update(node: Entries, kids: Seq<Value>, count: i64)
    ensures
        ({
            let after = entries_set(
                entries_set(node, name_bytes("Kids"), Value::Array(kids)),
                name_bytes("Count"),
                Value::Integer(count),
            );
            &&& entries_get(after, name_bytes("Kids")) == Some(Value::Array(kids))
            &&& entries_get(after, name_bytes("Count")) == Some(Value::Integer(count))
            &&& entries_get(after, name_bytes("Type")) == entries_get(node, name_bytes("Type"))
            &&& entries_get(after, name_bytes("Parent")) == entries_get(
                node,
                name_bytes("Parent"),
            )
            &&& entries_get(after, name_bytes("Pages")) == entries_get(node, name_bytes("Pages"))
        }),
{
    lemma_names_differ();
    let listed = entries_set(node, name_bytes("Kids"), Value::Array(kids));
    lemma_get_after_set(node, name_bytes("Kids"), Value::Array(kids), name_bytes("Type"));
    lemma_get_after_set(node, name_bytes("Kids"), Value::Array(kids), name_bytes("Parent"));
    lemma_get_after_set(node, name_bytes("Kids"), Value::Array(kids), name_bytes("Pages"));
    lemma_get_after_set(listed, name_bytes("Count"), Value::Integer(count), name_bytes("Kids"));
    lemma_get_after_set(listed, name_bytes("Count"), Value::Integer(count), name_bytes("Type"));
    lemma_get_after_set(listed, name_bytes("Count"), Value::Integer(count), name_bytes("Parent"));
    lemma_get_after_set(listed, name_bytes("Count"), Value::Integer(count), name_bytes("Pages"));
}

/// Merging a document that has a flat page tree with a second document
/// gives a document with a flat page tree whose pages are those of the
/// first and, behind them, the copies of those of the second: as many as
/// both have together, counted so in the node, and each with the node of
/// the first document as its parent.
pub proof fn lemma_merge_two(inputs: Seq<MergeInput>, first_pages: Seq<ObjectId>, out: DocumentView)
    requires
        inputs.len() == 2,
        flat_page_tree(inputs[0].document@, first_pages),
        merge_outcome(inputs, Ok(out)),
    ensures
        flat_page_tree(
            out,
            first_pages + shifted_all(inputs[1].pages@, inputs[0].document@.max_id),
        ),
        page_tree_of(out) == page_tree_of(inputs[0].document@),
        listed_by_root(out) == Some(
            first_pages + shifted_all(inputs[1].pages@, inputs[0].document@.max_id),
        ),
        (first_pages + shifted_all(inputs[1].pages@, inputs[0].document@.max_id)).len()
            == first_pages.len() + inputs[1].pages@.len(),
{
    let first = inputs[0].document@;
    let second = inputs[1].document@;
    let pages = inputs[1].pages@;
    let tree = page_tree_of(first)->0;
    let offset = first.max_id;
    let states = choose|states: Seq<DocumentView>|
        {
            &&& #[trigger] merge_stages(first, tree, inputs, states)
            &&& states.len() == inputs.len()
            &&& has_page_node(states.last(), tree)
            &&& kids_of(states.last().objects[tree])->0.len() <= i64::MAX
            &&& out == counted(states.last(), tree)
        };
    let joined = states[1];
    assert(states.last() == joined);
    assert(pages_appended(states[0], tree, second, pages, joined));
    lemma_appended_has_node(first, tree, second, pages, joined);
    let copies = shifted_all(pages, offset);
    let all = first_pages + copies;
    let node = first.objects[tree]->Dictionary_0;
    let kids = references_to(first_pages) + references_to(copies);
    assert(kids =~= references_to(all));
    lemma_node_after_update(node, kids, kids.len() as i64);
    let objects = second.objects;
    let reach = closure(objects, pages);
    lemma_first_unusable(objects, pages, 0);
    assert(out.objects.contains_key(tree));
    let catalog = catalog_of(first)->0;
    assert(out.objects.contains_key(catalog));
    assert(page_tree_of(out) == Some(tree)) by {
        if catalog != tree {
            assert(joined.objects.contains_key(catalog));
            assert(out.objects[catalog] == first.objects[catalog]);
        }
    }
    assert forall|i: int| 0 <= i < all.len() implies {
        &&& out.objects.contains_key(#[trigger] all[i])
        &&& out.objects[all[i]] matches Value::Dictionary(page)
        &&& entries_get(page, name_bytes("Parent")) == Some(Value::Reference(tree))
    } by {
        if i < first_pages.len() {
            let id = first_pages[i];
            assert(all[i] == id);
            assert(first.objects.contains_key(first_pages[i]));
            assert(id != tree);
            assert(joined.objects.contains_key(id));
        } else {
            let k = i - first_pages.len();
            let id = pages[k];
            assert(all[i] == shifted(id, offset));
            lemma_root_reachable(objects, pages, k);
            assert(usable_page(objects, pages[k]));
            assert(reach.contains(id));
            assert(!first.objects.contains_key(shifted(id, offset)));
            assert(joined.objects.contains_key(shifted(id, offset)));
            let redirected = rewrite_value(objects[id], shift_map(reach, offset));
            lemma_rewrite_keeps_kind(objects[id], shift_map(reach, offset));
            lemma_get_after_set(
                redirected->Dictionary_0,
                name_bytes("Parent"),
                Value::Reference(tree),
                name_bytes("Parent"),
            );
        }
    }
    lemma_flat_tree_lists_pages(out, all);
}

/// The copy of an object keeps the type of the object, also where it got a
/// parent.
pub proof fn lemma_copy_keeps_type(
    value: Value,
    mapping: Map<ObjectId, ObjectId>,
    parent: ObjectId,
    text: &str,
)
    requires
        has_type(value, text),
    ensures
        has_type(rewrite_value(value, mapping), text),
        has_type(with_parent(rewrite_value(value, mapping), parent), text),
{
    lemma_names_differ();
    let entries = value->Dictionary_0;
    lemma_rewrite_value(value, mapping);
    lemma_get_of_rewritten(entries, mapping, name_bytes("Type"));
    lemma_rewrite_value(Value::Name(name_bytes(text)), mapping);
    let redirected = rewrite_value(value, mapping)->Dictionary_0;
    lemma_get_after_set(
        redirected,
        name_bytes("Parent"),
        Value::Reference(parent),
        name_bytes("Type"),
    );
}

/// Merging two documents gives a document whose pages are the pages of the
/// first and, behind them, the copies of the pages of the second: as many
/// as both have together. That holds of a first document with a page tree
/// of any shape, followed to any depth, where the root of the tree is of
/// type `Pages`, the walk below the root comes only to objects that the
/// document holds and never back to the root, and the pages of the second
/// document are of type `Page`.
pub proof fn lemma_merge_two_joins_pages(inputs: Seq<MergeInput>, out: DocumentView, depth: nat)
    requires
        inputs.len() == 2,
        merge_outcome(inputs, Ok(out)),
        depth >= 2,
        page_tree_of(inputs[0].document@) is Some,
        inputs[0].document@.objects.contains_key(page_tree_of(inputs[0].document@)->0),
        has_type(
            inputs[0].document@.objects[page_tree_of(inputs[0].document@)->0],
            "Pages",
        ),
        kids_of(inputs[0].document@.objects[page_tree_of(inputs[0].document@)->0]) is Some,
        kids_are_clear(
            inputs[0].document@.objects,
            kids_of(inputs[0].document@.objects[page_tree_of(inputs[0].document@)->0])->0,
            kids_of(inputs[0].document@.objects[page_tree_of(inputs[0].document@)->0])->0.len(),
            (depth - 1) as nat,
            page_tree_of(inputs[0].document@)->0,
        ),
        forall|i: int|
            0 <= i < inputs[1].pages@.len() ==> has_type(
                inputs[1].document@.objects[#[trigger] inputs[1].pages@[i]],
                "Page",
            ),
    ensures
        page_tree_of(out) == page_tree_of(inputs[0].document@),
        document_pages(out, depth) == document_pages(inputs[0].document@, depth) + shifted_all(
            inputs[1].pages@,
            inputs[0].document@.max_id,
        ),
        document_pages(out, depth).len() == document_pages(inputs[0].document@, depth).len()
            + inputs[1].pages@.len(),
{
    let first = inputs[0].document@;
    let second = inputs[1].document@;
    let pages = inputs[1].pages@;
    let tree = page_tree_of(first)->0;
    let offset = first.max_id;
    let below = (depth - 1) as nat;
    lemma_names_differ();
    let states = choose|states: Seq<DocumentView>|
        {
            &&& #[trigger] merge_stages(first, tree, inputs, states)
            &&& states.len() == inputs.len()
            &&& has_page_node(states.last(), tree)
            &&& kids_of(states.last().objects[tree])->0.len() <= i64::MAX
            &&& out == counted(states.last(), tree)
        };
    let joined = states[1];
    assert(states.last() == joined);
    assert(pages_appended(states[0], tree, second, pages, joined));
    lemma_appended_has_node(first, tree, second, pages, joined);
    let copies = shifted_all(pages, offset);
    let node = first.objects[tree]->Dictionary_0;
    let old_kids = kids_of(first.objects[tree])->0;
    let kids = old_kids + references_to(copies);
    lemma_node_after_update(node, kids, kids.len() as i64);
    let objects = second.objects;
    let reach = closure(objects, pages);
    lemma_first_unusable(objects, pages, 0);
    assert(out.objects.contains_key(tree));
    assert(has_type(out.objects[tree], "Pages"));
    assert(kids_of(out.objects[tree]) == Some(kids));
    let catalog = catalog_of(first)->0;
    assert(out.objects.contains_key(catalog));
    assert(page_tree_of(out) == Some(tree)) by {
        if catalog != tree {
            assert(joined.objects.contains_key(catalog));
            assert(out.objects[catalog] == first.objects[catalog]);
        }
    }
    assert forall|x: ObjectId|
        first.objects.contains_key(x) && x != tree implies #[trigger] out.objects.contains_key(x)
        && out.objects[x] == first.objects[x] by {
        assert(joined.objects.contains_key(x));
    }
    assert forall|i: int| 0 <= i < copies.len() implies out.objects.contains_key(
        #[trigger] copies[i],
    ) && has_type(out.objects[copies[i]], "Page") by {
        let id = pages[i];
        assert(copies[i] == shifted(id, offset));
        lemma_root_reachable(objects, pages, i);
        assert(usable_page(objects, pages[i]));
        assert(reach.contains(id));
        assert(!first.objects.contains_key(shifted(id, offset)));
        assert(joined.objects.contains_key(shifted(id, offset)));
        lemma_copy_keeps_type(objects[id], shift_map(reach, offset), tree, "Page");
    }
    lemma_pages_of_joined_kids(out.objects, old_kids, references_to(copies), kids.len(), below);
    lemma_pages_of_kids_unchanged(
        first.objects,
        out.objects,
        old_kids,
        old_kids.len(),
        below,
        tree,
    );
    lemma_pages_of_leaves(out.objects, copies, copies.len(), below);
    assert(copies.take(copies.len() as int) =~= copies);
    assert(references_to(copies).len() == copies.len());
    assert(pages_under(out.objects, tree, depth) == pages_of_kids(
        out.objects,
        kids,
        kids.len(),
        below,
    ));
    assert(pages_under(first.objects, tree, depth) == pages_of_kids(
        first.objects,
        old_kids,
        old_kids.len(),
        below,
    ));
}

/// Those of the first `n` of `pages` whose number is not in `deleted`, in
/// their order. Page numbers count from 1.
pub open spec fn kept_pages(pages: Seq<ObjectId>, deleted: Set<u32>, n: nat) -> Seq<ObjectId>
    decreases n,
{
    if n == 0 || n > pages.len() {
        Seq::empty()
    } else {
        let before = kept_pages(pages, deleted, (n - 1) as nat);
        if deleted.contains(n as u32) {
            before
        } else {
            before.push(pages[n - 1])
        }
    }
}

/// What `kept_pages` holds: the pages whose number is not deleted, none
/// twice where no page is listed twice.
pub proof fn lemma_kept_pages(pages: Seq<ObjectId>, deleted: Set<u32>, n: nat)
    requires
        pages.no_duplicates(),
        n <= pages.len() <= u32::MAX,
    ensures
        kept_pages(pages, deleted, n).no_duplicates(),
        kept_pages(pages, deleted, n).len() <= n,
        forall|id: ObjectId|
            #![trigger kept_pages(pages, deleted, n).contains(id)]
            kept_pages(pages, deleted, n).contains(id) <==> exists|i: int|
                0 <= i < n && #[trigger] pages[i] == id && !deleted.contains((i + 1) as u32),
    decreases n,
{
    let kept = kept_pages(pages, deleted, n);
    if n > 0 {
        let before = kept_pages(pages, deleted, (n - 1) as nat);
        lemma_kept_pages(pages, deleted, (n - 1) as nat);
        assert forall|id: ObjectId|
            #![trigger kept.contains(id)]
            kept.contains(id) <==> exists|i: int|
                0 <= i < n && #[trigger] pages[i] == id && !deleted.contains((i + 1) as u32) by {
            if kept.contains(id) {
                let k = choose|k: int| 0 <= k < kept.len() && kept[k] == id;
                if k < before.len() {
                    assert(before[k] == id);
                    assert(before.contains(id));
                    let i = choose|i: int|
                        0 <= i < n - 1 && #[trigger] pages[i] == id && !deleted.contains(
                            (i + 1) as u32,
                        );
                    assert(0 <= i < n && pages[i] == id);
                } else {
                    assert(pages[n - 1] == id);
                }
            }
            if exists|i: int|
                0 <= i < n && #[trigger] pages[i] == id && !deleted.contains((i + 1) as u32) {
                let i = choose|i: int|
                    0 <= i < n && #[trigger] pages[i] == id && !deleted.contains((i + 1) as u32);
                if i < n - 1 {
                    assert(before.contains(id));
                    let k = choose|k: int| 0 <= k < before.len() && before[k] == id;
                    assert(kept[k] == id);
                } else {
                    assert(kept[kept.len() - 1] == id);
                }
            }
        }
        assert forall|a: int, b: int| 0 <= a < b < kept.len() implies kept[a] != kept[b] by {
            if b == before.len() {
                assert(kept[a] == before[a]);
                assert(before.contains(before[a]));
                let i = choose|i: int|
                    0 <= i < n - 1 && #[trigger] pages[i] == before[a] && !deleted.contains(
                        (i + 1) as u32,
                    );
                assert(pages[i] != pages[n - 1]);
            } else {
                assert(kept[a] == before[a]);
                assert(kept[b] == before[b]);
            }
        }
    }
}

/// Deleting one more page takes that page, and nothing else, out of the
/// pages that are kept.
pub proof fn lemma_kept_pages_without(
    pages: Seq<ObjectId>,
    deleted: Set<u32>,
    number: u32,
    n: nat,
)
    requires
        pages.no_duplicates(),
        n <= pages.len() <= u32::MAX,
        1 <= number <= pages.len(),
        !deleted.contains(number),
    ensures
        ({
            let before = kept_pages(pages, deleted, n);
            let after = kept_pages(pages, deleted.insert(number), n);
            let at = kept_pages(pages, deleted, (number - 1) as nat).len() as int;
            if n < number {
                after == before
            } else {
                &&& at < before.len()
                &&& before[at] == pages[number - 1]
                &&& after == before.remove(at)
            }
        }),
    decreases n,
{
    let more = deleted.insert(number);
    let before = kept_pages(pages, deleted, n);
    let after = kept_pages(pages, more, n);
    let at = kept_pages(pages, deleted, (number - 1) as nat).len() as int;
    if n > 0 {
        lemma_kept_pages_without(pages, deleted, number, (n - 1) as nat);
        let shorter = kept_pages(pages, deleted, (n - 1) as nat);
        if n == number {
            assert(before == shorter.push(pages[n - 1]));
            assert(after == shorter);
            assert(before.remove(at) =~= shorter);
        } else if n > number {
            assert(more.contains(n as u32) <==> deleted.contains(n as u32));
            if !deleted.contains(n as u32) {
                assert(before.remove(at) =~= shorter.remove(at).push(pages[n - 1]));
            }
        } else {
            assert(more.contains(n as u32) <==> deleted.contains(n as u32));
        }
    }
}

/// With no page deleted, all pages are kept.
pub proof fn lemma_kept_pages_all(pages: Seq<ObjectId>, n: nat)
    requires
        n <= pages.len(),
    ensures
        kept_pages(pages, Set::empty(), n) == pages.take(n as int),
    decreases n,
{
    if n > 0 {
        lemma_kept_pages_all(pages, (n - 1) as nat);
        assert(pages.take(n as int) =~= pages.take(n - 1).push(pages[n - 1]));
    } else {
        assert(pages.take(0) =~= Seq::<ObjectId>::empty());
    }
}

/// Among distinct pages, the first kid that refers to a page is the one at
/// the place of that page.
proof fn lemma_first_kid_of_distinct(pages: Seq<ObjectId>, at: int, from: int)
    requires
        pages.no_duplicates(),
        0 <= from <= at < pages.len(),
    ensures
        first_kid(references_to(pages), pages[at], from) == at,
    decreases at - from,
{
    let kids = references_to(pages);
    assert(kids[from] == Value::Reference(pages[from]));
    if from < at {
        assert(pages[from] != pages[at]);
        lemma_first_kid_of_distinct(pages, at, from + 1);
    }
}

/// Taking a page out of a flat page tree with distinct pages leaves a flat
/// page tree with the other pages, in their order.
proof fn lemma_remove_from_flat_tree(doc: DocumentView, pages: Seq<ObjectId>, at: int)
    requires
        doc.objects.dom().finite(),
        flat_page_tree(doc, pages),
        pages.no_duplicates(),
        0 <= at < pages.len(),
    ensures
        flat_page_tree(
            DocumentView { objects: page_removed(doc.objects, pages[at]), ..doc },
            pages.remove(at),
        ),
        page_removed(doc.objects, pages[at]).dom() == doc.objects.dom(),
{
    let objects = doc.objects;
    let page = pages[at];
    let tree = page_tree_of(doc)->0;
    let node = objects[tree]->Dictionary_0;
    let rest = pages.remove(at);
    lemma_names_differ();
    assert(objects.contains_key(pages[at]));
    assert(parent_of(objects, page) == Some(tree));
    lemma_first_kid_of_distinct(pages, at, 0);
    assert(references_to(pages).remove(at) =~= references_to(rest));
    let listed = with_kids(objects[tree], references_to(rest));
    let dropped = objects.insert(tree, listed);
    assert(kid_dropped(objects, tree, page) == dropped);
    assert(objects.dom().len() > 0) by {
        if objects.dom().len() == 0 {
            objects.dom().lemma_len0_is_empty();
            assert(objects.dom().contains(tree));
        }
    }
    lemma_get_after_set(
        node,
        name_bytes("Kids"),
        Value::Array(references_to(rest)),
        name_bytes("Parent"),
    );
    lemma_get_after_set(
        node,
        name_bytes("Kids"),
        Value::Array(references_to(rest)),
        name_bytes("Count"),
    );
    assert(parent_of(dropped, tree) is None);
    let lowered = dropped.insert(tree, count_lowered(listed));
    assert(counts_lowered(dropped, tree, objects.dom().len()) == lowered);
    assert(page_removed(objects, page) == lowered);
    assert(lowered.dom() =~= objects.dom());
    lemma_node_after_update(node, references_to(rest), (pages.len() - 1) as i64);
    let after = DocumentView { objects: lowered, ..doc };
    let catalog = catalog_of(doc)->0;
    assert(page_tree_of(after) == Some(tree)) by {
        if catalog != tree {
            assert(lowered[catalog] == objects[catalog]);
        }
    }
    assert forall|i: int| 0 <= i < rest.len() implies {
        &&& lowered.contains_key(#[trigger] rest[i])
        &&& lowered[rest[i]] matches Value::Dictionary(entries)
        &&& entries_get(entries, name_bytes("Parent")) == Some(Value::Reference(tree))
    } by {
        let origin = if i < at {
            i
        } else {
            i + 1
        };
        assert(rest[i] == pages[origin]);
        assert(objects.contains_key(pages[origin]));
        assert(pages[origin] != tree);
    }
}

/// Taking the pages of the first `j` of distinct numbers out of a flat page
/// tree with distinct pages, one after the other, leaves a flat page tree
/// with the pages of the other numbers.
proof fn lemma_delete_steps(doc: DocumentView, pages: Seq<ObjectId>, distinct: Seq<u32>, j: nat)
    requires
        doc.objects.dom().finite(),
        flat_page_tree(doc, pages),
        pages.no_duplicates(),
        pages.len() <= u32::MAX,
        distinct.no_duplicates(),
        forall|k: int| 0 <= k < distinct.len() ==> 1 <= #[trigger] distinct[k] <= pages.len(),
        j <= distinct.len(),
    ensures
        ({
            let done = distinct.take(j as int);
            let objects = pages_removed(doc.objects, requested_pages(pages, done));
            let kept = kept_pages(pages, done.to_set(), pages.len());
            &&& flat_page_tree(DocumentView { objects, ..doc }, kept)
            &&& objects.dom() == doc.objects.dom()
            &&& kept.len() == pages.len() - j
        }),
    decreases j,
{
    let done = distinct.take(j as int);
    if j == 0 {
        assert(done =~= Seq::<u32>::empty());
        assert(done.to_set() =~= Set::<u32>::empty());
        assert(requested_pages(pages, done) =~= Seq::<ObjectId>::empty());
        lemma_kept_pages_all(pages, pages.len());
        assert(pages.take(pages.len() as int) =~= pages);
        assert(DocumentView { objects: doc.objects, ..doc } == doc);
    } else {
        let earlier = distinct.take(j - 1);
        let number = distinct[j - 1];
        let page = pages[number - 1];
        lemma_delete_steps(doc, pages, distinct, (j - 1) as nat);
        let objects = pages_removed(doc.objects, requested_pages(pages, earlier));
        let kept = kept_pages(pages, earlier.to_set(), pages.len());
        assert(done =~= earlier.push(number));
        earlier.lemma_push_to_set_commute(number);
        assert(requested_pages(pages, done).drop_last() =~= requested_pages(pages, earlier));
        assert(requested_pages(pages, done).last() == page);
        assert(!earlier.to_set().contains(number)) by {
            if earlier.contains(number) {
                let k = choose|k: int| 0 <= k < earlier.len() && earlier[k] == number;
                assert(distinct[k] == distinct[j - 1]);
            }
        }
        lemma_kept_pages(pages, earlier.to_set(), pages.len());
        lemma_kept_pages_without(pages, earlier.to_set(), number, pages.len());
        let at = kept_pages(pages, earlier.to_set(), (number - 1) as nat).len() as int;
        lemma_remove_from_flat_tree(DocumentView { objects, ..doc }, kept, at);
    }
}

/// Deleting pages from a document that has a flat page tree with distinct
/// pages leaves a flat page tree with the pages whose numbers were not
/// given, in their order: as many as there were, less the numbers given,
/// each counted once. The place of a page in that order, counted from 1, is
/// its new number.
pub proof fn lemma_delete_from_flat_tree(doc: DocumentView, pages: Seq<ObjectId>, numbers: Seq<u32>)
    requires
        doc.objects.dom().finite(),
        flat_page_tree(doc, pages),
        pages.no_duplicates(),
        pages.len() <= u32::MAX,
        delete_failure(pages.len(), numbers) is None,
    ensures
        ({
            let after = DocumentView {
                objects: pages_removed(
                    doc.objects,
                    requested_pages(pages, distinct_numbers(numbers)),
                ),
                ..doc
            };
            let remaining = kept_pages(pages, numbers.to_set(), pages.len());
            &&& flat_page_tree(after, remaining)
            &&& listed_by_root(after) == Some(remaining)
            &&& numbers.to_set().finite()
            &&& remaining.len() == pages.len() - numbers.to_set().len()
        }),
{
    let distinct = distinct_numbers(numbers);
    lemma_distinct_numbers(numbers);
    lemma_first_out_of_range(page_limit(pages.len()), numbers, 0);
    assert forall|k: int| 0 <= k < distinct.len() implies 1 <= #[trigger] distinct[k]
        <= pages.len() by {
        assert(distinct.to_set().contains(distinct[k]));
        assert(numbers.contains(distinct[k]));
        let i = choose|i: int| 0 <= i < numbers.len() && numbers[i] == distinct[k];
        assert(1 <= numbers[i] <= page_limit(pages.len()));
    }
    lemma_delete_steps(doc, pages, distinct, distinct.len());
    assert(distinct.take(distinct.len() as int) =~= distinct);
    distinct.unique_seq_to_set();
    vstd::seq_lib::seq_to_set_is_finite(numbers);
    lemma_flat_tree_lists_pages(
        DocumentView {
            objects: pages_removed(doc.objects, requested_pages(pages, distinct)),
            ..doc
        },
        kept_pages(pages, numbers.to_set(), pages.len()),
    );
}

/// A request that cannot name pages of the document is refused as an
/// invalid argument or as something not found, whatever the document
/// holds: the page number 0, a page number beyond the last page, an empty
/// list of pages to split off or to delete, a list that holds such a
/// number, an angle that is no quarter turn. Since every operation reports
/// a failure exactly where its failure function gives one, and then hands
/// out no document and changes none, such a request leaves nothing to be
/// written.
pub proof fn lemma_invalid_requests_fail(
    doc: DocumentView,
    pages: Seq<ObjectId>,
    numbers: Seq<u32>,
    at: int,
    angle: i32,
)
    ensures
        extract_failure(doc, pages, 0) == Some(PdfError::PageNumberZero),
        forall|number: u32|
            number > pages.len() ==> (#[trigger] extract_failure(doc, pages, number))
                == Some(PdfError::PageNotFound { page: number, page_count: pages.len() as usize }),
        split_failure(doc, pages, Seq::empty()) == Some(PdfError::EmptyPageList),
        delete_failure(pages.len(), Seq::empty()) == Some(PdfError::EmptyDeleteList),
        !allowed_angle(angle) ==> rotate_failure(doc, pages, numbers, angle) == Some(
            PdfError::InvalidRotation { angle },
        ),
        0 <= at < numbers.len() && (numbers[at] == 0 || numbers[at] > pages.len()) ==> {
            &&& split_failure(doc, pages, numbers) matches Some(error)
            &&& error.spec_kind() == ErrorKind::InvalidArgument || error.spec_kind()
                == ErrorKind::NotFound
            &&& delete_failure(pages.len(), numbers) matches Some(refusal)
            &&& refusal.spec_kind() == ErrorKind::InvalidArgument
            &&& allowed_angle(angle) ==> {
                &&& rotate_failure(doc, pages, numbers, angle) matches Some(missing)
                &&& missing.spec_kind() == ErrorKind::NotFound
            }
        },
{
    if 0 <= at < numbers.len() && (numbers[at] == 0 || numbers[at] > pages.len()) {
        lemma_first_unknown_page(pages.len(), numbers, 0);
        lemma_first_out_of_range(page_limit(pages.len()), numbers, 0);
        let unknown = first_unknown_page(pages.len(), numbers, 0);
        if unknown > at {
            assert(1 <= numbers[at] <= pages.len());
        }
        let bad = first_out_of_range(page_limit(pages.len()), numbers, 0);
        if bad > at {
            assert(1 <= numbers[at] <= page_limit(pages.len()));
        }
    }
}

/// A stored rotation is always within one turn, from 0 up to but not
/// including 360, and differs from the sum of the rotation before and the
/// angle by whole turns only.
pub proof fn lemma_turned_within_turn(current: i64, angle: i32)
    ensures
        0 <= turned(current, angle) < 360,
        (turned(current, angle) - (current + angle)) % 360 == 0,
{
}

/// Turning by one angle and then by another leaves the rotation that their
/// sum modulo 360 gives: turns add up.
pub proof fn lemma_turns_add_up(current: i64, first: i32, second: i32)
    ensures
        turned(turned(current, first), second) == (current + first + second) % 360,
{
}

/// Two quarter turns leave on every page what a half turn leaves.
pub proof fn lemma_two_quarter_turns(value: Value)
    requires
        value is Dictionary,
    ensures
        with_rotation(with_rotation(value, 90), 90) == with_rotation(value, 180),
        0 <= current_rotation(with_rotation(value, 180)->Dictionary_0) < 360,
{
    let entries = value->Dictionary_0;
    let current = current_rotation(entries);
    let once = turned(current, 90);
    lemma_with_rotation(value, 90);
    lemma_with_rotation(value, 180);
    lemma_turns_add_up(current, 90, 90);
    assert(turned(once, 90) == turned(current, 180));
    lemma_set_twice(
        entries,
        name_bytes("Rotate"),
        Value::Integer(once),
        Value::Integer(turned(once, 90)),
    );
}

/// Deleting pages takes no object from the document and adds none: the
/// pages that were deleted stay, unlisted.
pub proof fn lemma_delete_keeps_objects(objects: Map<ObjectId, Value>, targets: Seq<ObjectId>)
    ensures
        pages_removed(objects, targets).dom() == objects.dom(),
    decreases targets.len(),
{
    if targets.len() > 0 {
        lemma_delete_keeps_objects(objects, targets.drop_last());
        lemma_page_removed_dom(pages_removed(objects, targets.drop_last()), targets.last());
    }
}

} // verus!
