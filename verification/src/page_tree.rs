//! The page tree: the catalog, the node that lists the pages, and the
//! pages that name that node as their parent.

use crate::document::{Document, DocumentView};
use crate::error::PdfError;
use crate::names::{lemma_names_differ, name_bytes, name_key, name_vec};
use crate::object::{
    entries_get, entries_set, find_from, Dictionary, Entries, Object, ObjectId, Value,
};
use vstd::prelude::*;

verus! {

/// References to `ids`, in their order.
pub open spec fn references_to(ids: Seq<ObjectId>) -> Seq<Value> {
    ids.map_values(|id: ObjectId| Value::Reference(id))
}

/// The node of a page tree that lists `kids` as its pages.
pub open spec fn tree_node_value(kids: Seq<ObjectId>) -> Value {
    Value::Dictionary(
        seq![
            (name_bytes("Type"), Value::Name(name_bytes("Pages"))),
            (name_bytes("Kids"), Value::Array(references_to(kids))),
            (name_bytes("Count"), Value::Integer(kids.len() as i64)),
        ],
    )
}

/// The catalog of a document whose page tree starts at `tree`.
pub open spec fn catalog_value(tree: ObjectId) -> Value {
    Value::Dictionary(
        seq![
            (name_bytes("Type"), Value::Name(name_bytes("Catalog"))),
            (name_bytes("Pages"), Value::Reference(tree)),
        ],
    )
}

/// What `value`, a node of a page tree, lists as its kids.
pub open spec fn kids_of(value: Value) -> Option<Seq<Value>> {
    match value {
        Value::Dictionary(node) => match entries_get(node, name_bytes("Kids")) {
            Some(Value::Array(kids)) => Some(kids),
            _ => None,
        },
        _ => None,
    }
}

/// `value`, a node of a page tree, with `kids` as what it lists.
pub open spec fn with_kids(value: Value, kids: Seq<Value>) -> Value {
    match value {
        Value::Dictionary(node) => Value::Dictionary(
            entries_set(node, name_bytes("Kids"), Value::Array(kids)),
        ),
        _ => value,
    }
}

/// `value`, a node of a page tree, with `count` as its count.
pub open spec fn with_count(value: Value, count: i64) -> Value {
    match value {
        Value::Dictionary(node) => Value::Dictionary(
            entries_set(node, name_bytes("Count"), Value::Integer(count)),
        ),
        _ => value,
    }
}

/// The document holds under `tree` a dictionary that lists kids.
pub open spec fn has_page_node(doc: DocumentView, tree: ObjectId) -> bool {
    doc.objects.contains_key(tree) && kids_of(doc.objects[tree]) is Some
}

/// The identifier that `entries` hold under `key`, if what they hold there
/// is a reference.
pub open spec fn reference_under(entries: Entries, key: Seq<u8>) -> Option<ObjectId> {
    match entries_get(entries, key) {
        Some(Value::Reference(id)) => Some(id),
        _ => None,
    }
}

/// The identifier of the catalog: what the trailer refers to as `Root`.
pub open spec fn catalog_of(doc: DocumentView) -> Option<ObjectId> {
    reference_under(doc.trailer, name_bytes("Root"))
}

/// The identifier of the root of the page tree: what the catalog, a
/// dictionary that the document holds, refers to as `Pages`.
pub open spec fn page_tree_of(doc: DocumentView) -> Option<ObjectId> {
    match catalog_of(doc) {
        Some(catalog) => if doc.objects.contains_key(catalog) {
            match doc.objects[catalog] {
                Value::Dictionary(entries) => reference_under(entries, name_bytes("Pages")),
                _ => None,
            }
        } else {
            None
        },
        None => None,
    }
}

/// The document has a flat page tree whose pages are `pages`, in this
/// order: the catalog names a node of kind `Pages` that the document holds;
/// that node lists references to exactly `pages` as its `Kids` and their
/// number as its `Count`, and names no parent; and each page is a
/// dictionary that the document holds and that names the node as its
/// `Parent`.
pub open spec fn flat_page_tree(doc: DocumentView, pages: Seq<ObjectId>) -> bool {
    &&& page_tree_of(doc) is Some
    &&& doc.objects.contains_key(page_tree_of(doc)->0)
    &&& doc.objects[page_tree_of(doc)->0] matches Value::Dictionary(node)
    &&& entries_get(node, name_bytes("Type")) == Some(Value::Name(name_bytes("Pages")))
    &&& entries_get(node, name_bytes("Kids")) == Some(Value::Array(references_to(pages)))
    &&& entries_get(node, name_bytes("Count")) == Some(Value::Integer(pages.len() as i64))
    &&& entries_get(node, name_bytes("Parent")) is None
    &&& pages.len() <= i64::MAX
    &&& forall|i: int|
        0 <= i < pages.len() ==> {
            &&& doc.objects.contains_key(#[trigger] pages[i])
            &&& doc.objects[pages[i]] matches Value::Dictionary(page)
            &&& entries_get(page, name_bytes("Parent")) == Some(
                Value::Reference(page_tree_of(doc)->0),
            )
        }
}

/// What a node made by `tree_node_value` holds under the names of a node.
pub proof fn lemma_tree_node_entries(kids: Seq<ObjectId>)
    ensures
        ({
            let node = tree_node_value(kids)->Dictionary_0;
            &&& entries_get(node, name_bytes("Type")) == Some(Value::Name(name_bytes("Pages")))
            &&& entries_get(node, name_bytes("Kids")) == Some(Value::Array(references_to(kids)))
            &&& entries_get(node, name_bytes("Count")) == Some(Value::Integer(kids.len() as i64))
            &&& entries_get(node, name_bytes("Parent")) is None
        }),
{
    lemma_names_differ();
    reveal_with_fuel(find_from, 4);
}

/// What a catalog made by `catalog_value` holds under the names of a
/// catalog.
pub proof fn lemma_catalog_entries(tree: ObjectId)
    ensures
        entries_get(catalog_value(tree)->Dictionary_0, name_bytes("Pages")) == Some(
            Value::Reference(tree),
        ),
        entries_get(catalog_value(tree)->Dictionary_0, name_bytes("Type")) == Some(
            Value::Name(name_bytes("Catalog")),
        ),
{
    lemma_names_differ();
    reveal_with_fuel(find_from, 3);
}

/// The identifier that `dict` holds under the name written as `text`, if
/// what it holds there is a reference.
pub fn reference_in(dict: &Dictionary, text: &str) -> (id: Option<ObjectId>)
    ensures
        id == reference_under(dict@, name_bytes(text)),
{
    match dict.get(name_key(text)) {
        Some(object) => object.as_reference(),
        None => None,
    }
}

/// The identifier of the root of the page tree, as the catalog gives it.
pub fn find_page_tree(doc: &Document) -> (tree: Option<ObjectId>)
    ensures
        tree == page_tree_of(doc@),
{
    match reference_in(doc.trailer(), "Root") {
        Some(catalog) => match doc.get_object(catalog) {
            Some(object) => match object.as_dict() {
                Some(dict) => reference_in(dict, "Pages"),
                None => None,
            },
            None => None,
        },
        None => None,
    }
}

/// The kids that the node under `tree` lists, copied; `None` where the
/// document holds no dictionary with an array of kids there.
pub fn kids_at(doc: &Document, tree: ObjectId) -> (kids: Option<Vec<Object>>)
    ensures
        match kids {
            Some(items) => has_page_node(doc@, tree) && (Object::Array(items))@ == Value::Array(
                kids_of(doc@.objects[tree])->0,
            ),
            None => !has_page_node(doc@, tree),
        },
{
    match doc.get_object(tree) {
        Some(object) => match object.as_dict() {
            Some(node) => match node.get(name_key("Kids")) {
                Some(kids) => {
                    proof {
                        kids.lemma_view();
                    }
                    match kids.clone() {
                        Object::Array(items) => {
                            proof {
                                (Object::Array(items)).lemma_view();
                            }
                            Some(items)
                        },
                        _ => None,
                    }
                },
                None => None,
            },
            None => None,
        },
        None => None,
    }
}


/// `value` is a dictionary whose `Type` is the name written as `text`.
pub open spec fn has_type(value: Value, text: &str) -> bool {
    value matches Value::Dictionary(entries) && entries_get(entries, name_bytes("Type")) == Some(
        Value::Name(name_bytes(text)),
    )
}

/// The pages under the object `id`, in their order, as a walk finds them
/// that follows the page tree for `depth` levels: an object of type `Page`
/// is a page; under one of type `Pages` are the pages under its kids; any
/// other object, and one that the document does not hold, has no pages
/// under it.
pub open spec fn pages_under(objects: Map<ObjectId, Value>, id: ObjectId, depth: nat) -> Seq<
    ObjectId,
>
    decreases depth, 0nat,
{
    if depth == 0 || !objects.contains_key(id) {
        Seq::empty()
    } else if has_type(objects[id], "Page") {
        seq![id]
    } else if has_type(objects[id], "Pages") && kids_of(objects[id]) is Some {
        pages_of_kids(
            objects,
            kids_of(objects[id])->0,
            kids_of(objects[id])->0.len(),
            (depth - 1) as nat,
        )
    } else {
        Seq::empty()
    }
}

/// The pages under the first `n` of `kids`, in their order: for each kid
/// that is a reference, the pages under what it refers to.
pub open spec fn pages_of_kids(
    objects: Map<ObjectId, Value>,
    kids: Seq<Value>,
    n: nat,
    depth: nat,
) -> Seq<ObjectId>
    decreases depth, n + 1,
{
    if n == 0 || n > kids.len() {
        Seq::empty()
    } else {
        let before = pages_of_kids(objects, kids, (n - 1) as nat, depth);
        match kids[n - 1] {
            Value::Reference(kid) => before + pages_under(objects, kid, depth),
            _ => before,
        }
    }
}

/// The pages of a document, as a walk finds them that follows the page
/// tree from its root for `depth` levels.
pub open spec fn document_pages(doc: DocumentView, depth: nat) -> Seq<ObjectId> {
    match page_tree_of(doc) {
        Some(root) => pages_under(doc.objects, root, depth),
        None => Seq::empty(),
    }
}

/// A walk from the object `id` for `depth` levels comes only to objects
/// that the document holds, and never to `root`.
pub open spec fn walk_is_clear(
    objects: Map<ObjectId, Value>,
    id: ObjectId,
    depth: nat,
    root: ObjectId,
) -> bool
    decreases depth, 0nat,
{
    depth == 0 || {
        &&& objects.contains_key(id)
        &&& id != root
        &&& has_type(objects[id], "Pages") && !has_type(objects[id], "Page") && kids_of(
            objects[id],
        ) is Some ==> kids_are_clear(
            objects,
            kids_of(objects[id])->0,
            kids_of(objects[id])->0.len(),
            (depth - 1) as nat,
            root,
        )
    }
}

/// A walk from each of the first `n` of `kids` that is a reference, for
/// `depth` levels, comes only to objects that the document holds, and never
/// to `root`.
pub open spec fn kids_are_clear(
    objects: Map<ObjectId, Value>,
    kids: Seq<Value>,
    n: nat,
    depth: nat,
    root: ObjectId,
) -> bool
    decreases depth, n + 1,
{
    n == 0 || n > kids.len() || {
        &&& kids_are_clear(objects, kids, (n - 1) as nat, depth, root)
        &&& kids[n - 1] matches Value::Reference(kid) ==> walk_is_clear(objects, kid, depth, root)
    }
}

/// The pages under an object are the same in two documents that hold the
/// same under every identifier but `root` and those that only the second
/// holds something under, where the walk comes to neither.
pub proof fn lemma_pages_under_unchanged(
    objects: Map<ObjectId, Value>,
    other: Map<ObjectId, Value>,
    id: ObjectId,
    depth: nat,
    root: ObjectId,
)
    requires
        forall|x: ObjectId|
            objects.contains_key(x) && x != root ==> #[trigger] other.contains_key(x) && other[x]
                == objects[x],
        walk_is_clear(objects, id, depth, root),
    ensures
        pages_under(other, id, depth) == pages_under(objects, id, depth),
    decreases depth, 0nat,
{
    if depth > 0 {
        assert(other.contains_key(id));
        if !has_type(objects[id], "Page") && has_type(objects[id], "Pages") && kids_of(
            objects[id],
        ) is Some {
            let kids = kids_of(objects[id])->0;
            lemma_pages_of_kids_unchanged(
                objects,
                other,
                kids,
                kids.len(),
                (depth - 1) as nat,
                root,
            );
        }
    }
}

/// The pages under kids are the same in two documents that hold the same
/// under every identifier that the walk comes to.
pub proof fn lemma_pages_of_kids_unchanged(
    objects: Map<ObjectId, Value>,
    other: Map<ObjectId, Value>,
    kids: Seq<Value>,
    n: nat,
    depth: nat,
    root: ObjectId,
)
    requires
        forall|x: ObjectId|
            objects.contains_key(x) && x != root ==> #[trigger] other.contains_key(x) && other[x]
                == objects[x],
        kids_are_clear(objects, kids, n, depth, root),
    ensures
        pages_of_kids(other, kids, n, depth) == pages_of_kids(objects, kids, n, depth),
    decreases depth, n + 1,
{
    if n > 0 && n <= kids.len() {
        lemma_pages_of_kids_unchanged(objects, other, kids, (n - 1) as nat, depth, root);
        match kids[n - 1] {
            Value::Reference(kid) => {
                lemma_pages_under_unchanged(objects, other, kid, depth, root);
            },
            _ => {},
        }
    }
}

/// The pages under kids that are listed one list behind another are the
/// pages under the first list and, behind them, the pages under the second.
pub proof fn lemma_pages_of_joined_kids(
    objects: Map<ObjectId, Value>,
    front: Seq<Value>,
    back: Seq<Value>,
    n: nat,
    depth: nat,
)
    requires
        n <= front.len() + back.len(),
    ensures
        pages_of_kids(objects, front + back, n, depth) == (if n <= front.len() {
            pages_of_kids(objects, front, n, depth)
        } else {
            pages_of_kids(objects, front, front.len(), depth) + pages_of_kids(
                objects,
                back,
                (n - front.len()) as nat,
                depth,
            )
        }),
    decreases n,
{
    let joined = front + back;
    if n > 0 {
        lemma_pages_of_joined_kids(objects, front, back, (n - 1) as nat, depth);
        if n <= front.len() {
            assert(joined[n - 1] == front[n - 1]);
        } else {
            assert(joined[n - 1] == back[n - 1 - front.len()]);
            let a = pages_of_kids(objects, front, front.len(), depth);
            let b = pages_of_kids(objects, back, (n - 1 - front.len()) as nat, depth);
            match joined[n - 1] {
                Value::Reference(kid) => {
                    assert((a + b) + pages_under(objects, kid, depth) =~= a + (b + pages_under(
                        objects,
                        kid,
                        depth,
                    )));
                },
                _ => {},
            }
            if n - 1 == front.len() {
                assert(a + b =~= a);
            }
        }
    }
}

/// The pages under kids that refer to pages are these pages.
pub proof fn lemma_pages_of_leaves(
    objects: Map<ObjectId, Value>,
    ids: Seq<ObjectId>,
    n: nat,
    depth: nat,
)
    requires
        n <= ids.len(),
        depth >= 1,
        forall|i: int|
            0 <= i < ids.len() ==> objects.contains_key(#[trigger] ids[i]) && has_type(
                objects[ids[i]],
                "Page",
            ),
    ensures
        pages_of_kids(objects, references_to(ids), n, depth) == ids.take(n as int),
    decreases n,
{
    if n > 0 {
        lemma_pages_of_leaves(objects, ids, (n - 1) as nat, depth);
        assert(objects.contains_key(ids[n - 1]));
        assert(references_to(ids)[n - 1] == Value::Reference(ids[n - 1]));
        assert(pages_under(objects, ids[n - 1], depth) == seq![ids[n - 1]]);
        assert(ids.take(n as int) =~= ids.take(n - 1) + seq![ids[n - 1]]);
    } else {
        assert(ids.take(0) =~= Seq::<ObjectId>::empty());
    }
}

/// The identifiers that the first `n` of `kids` refer to: of each kid that
/// is a reference, what it refers to; other kids are passed over.
pub open spec fn referenced_ids(kids: Seq<Value>, n: nat) -> Seq<ObjectId>
    decreases n,
{
    if n == 0 || n > kids.len() {
        Seq::empty()
    } else {
        let before = referenced_ids(kids, (n - 1) as nat);
        match kids[n - 1] {
            Value::Reference(id) => before.push(id),
            _ => before,
        }
    }
}

/// The pages that the root of the page tree lists: what its kids refer to,
/// in their order. `None` where the catalog names no root that lists kids.
/// Nodes below the root are not looked into.
pub open spec fn listed_by_root(doc: DocumentView) -> Option<Seq<ObjectId>> {
    match page_tree_of(doc) {
        Some(tree) => if has_page_node(doc, tree) {
            let kids = kids_of(doc.objects[tree])->0;
            Some(referenced_ids(kids, kids.len()))
        } else {
            None
        },
        None => None,
    }
}

/// Kids that are references to `ids` refer to `ids`.
pub proof fn lemma_referenced_ids(ids: Seq<ObjectId>, n: nat)
    requires
        n <= ids.len(),
    ensures
        referenced_ids(references_to(ids), n) == ids.take(n as int),
    decreases n,
{
    if n > 0 {
        lemma_referenced_ids(ids, (n - 1) as nat);
        assert(ids.take(n as int) =~= ids.take(n - 1).push(ids[n - 1]));
    } else {
        assert(ids.take(0) =~= Seq::<ObjectId>::empty());
    }
}

/// The root of a flat page tree lists the pages of the tree.
pub proof fn lemma_flat_tree_lists_pages(doc: DocumentView, pages: Seq<ObjectId>)
    requires
        flat_page_tree(doc, pages),
    ensures
        listed_by_root(doc) == Some(pages),
{
    lemma_referenced_ids(pages, pages.len());
    assert(pages.take(pages.len() as int) =~= pages);
    assert(references_to(pages).len() == pages.len());
}

/// The pages that the root of the page tree lists.
pub fn listed_pages(doc: &Document) -> (pages: Option<Vec<ObjectId>>)
    ensures
        match pages {
            Some(ids) => listed_by_root(doc@) == Some(ids@),
            None => listed_by_root(doc@).is_none(),
        },
{
    let tree = match find_page_tree(doc) {
        Some(tree) => tree,
        None => {
            return None;
        },
    };
    let kids = match kids_at(doc, tree) {
        Some(kids) => kids,
        None => {
            return None;
        },
    };
    let ghost listed = kids_of(doc@.objects[tree])->0;
    proof {
        (Object::Array(kids)).lemma_view();
    }
    let mut ids: Vec<ObjectId> = Vec::new();
    let mut i: usize = 0;
    while i < kids.len()
        invariant
            i <= kids.len(),
            listed.len() == kids.len(),
            forall|j: int| 0 <= j < kids.len() ==> #[trigger] listed[j] == kids[j]@,
            ids@ == referenced_ids(listed, i as nat),
        decreases kids.len() - i,
    {
        proof {
            assert(listed[i as int] == kids[i as int]@);
        }
        match kids[i].as_reference() {
            Some(id) => {
                ids.push(id);
            },
            None => {},
        }
        i += 1;
    }
    Some(ids)
}

/// References to `ids`, in their order, as the items of an array.
pub fn make_references(ids: &Vec<ObjectId>) -> (items: Vec<Object>)
    ensures
        (Object::Array(items))@ == Value::Array(references_to(ids@)),
{
    let mut items: Vec<Object> = Vec::new();
    let mut i: usize = 0;
    while i < ids.len()
        invariant
            i <= ids.len(),
            items.len() == i,
            forall|j: int| 0 <= j < i ==> #[trigger] items[j]@ == Value::Reference(ids@[j]),
        decreases ids.len() - i,
    {
        let item = Object::Reference(ids[i]);
        proof {
            item.lemma_view();
        }
        items.push(item);
        i += 1;
    }
    proof {
        let array = Object::Array(items);
        array.lemma_view();
        assert(array@->Array_0 =~= references_to(ids@));
    }
    items
}

/// Builds the page tree of `target` around `pages`: takes two fresh
/// identifiers, stores under the first a node that lists `pages`, in their
/// order, as its kids and their number as its count, stores under the
/// second a catalog that names the node, and has the trailer name the
/// catalog as `Root`. Returns the identifiers of node and catalog.
///
/// The pages themselves are not touched: that each names the node as its
/// parent is for the caller to see to.
///
/// Fails, and leaves `target` as it was, when the counter cannot give two
/// more identifiers or the number of pages does not fit a count.
pub fn assemble(
    target: &mut Document,
    pages: &Vec<ObjectId>,
) -> (result: Result<(ObjectId, ObjectId), PdfError>)
    requires
        old(target).wf(),
    ensures
        final(target).wf(),
        ({
            let before = old(target)@;
            let after = final(target)@;
            match result {
                Ok((tree, catalog)) => {
                    &&& before.max_id + 2 <= u32::MAX
                    &&& pages@.len() <= i64::MAX
                    &&& tree == ((before.max_id + 1) as u32, 0u16)
                    &&& catalog == ((before.max_id + 2) as u32, 0u16)
                    &&& after == (DocumentView {
                        version: before.version,
                        trailer: entries_set(
                            before.trailer,
                            name_bytes("Root"),
                            Value::Reference(catalog),
                        ),
                        objects: before.objects.insert(tree, tree_node_value(pages@)).insert(
                            catalog,
                            catalog_value(tree),
                        ),
                        max_id: catalog.0,
                    })
                },
                Err(error) => {
                    &&& after == before
                    &&& if before.max_id + 2 > u32::MAX {
                        error == PdfError::IdentifiersExhausted
                    } else {
                        pages@.len() > i64::MAX && error == PdfError::TooManyPages
                    }
                },
            }
        }),
{
    let base = target.max_id();
    if base > u32::MAX - 2 {
        return Err(PdfError::IdentifiersExhausted);
    }
    if pages.len() as u128 > i64::MAX as u128 {
        return Err(PdfError::TooManyPages);
    }
    let tree: ObjectId = (base + 1, 0);
    let catalog: ObjectId = (base + 2, 0);
    let kids = Object::Array(make_references(pages));
    let kind = Object::Name(name_vec("Pages"));
    let count = Object::Integer(pages.len() as i64);
    let mut node = Dictionary::new();
    proof {
        kind.lemma_view();
        count.lemma_view();
    }
    node.push_entry(name_vec("Type"), kind);
    node.push_entry(name_vec("Kids"), kids);
    node.push_entry(name_vec("Count"), count);
    let node_object = Object::Dictionary(node);
    let catalog_kind = Object::Name(name_vec("Catalog"));
    let tree_ref = Object::Reference(tree);
    let mut root = Dictionary::new();
    proof {
        catalog_kind.lemma_view();
        tree_ref.lemma_view();
    }
    root.push_entry(name_vec("Type"), catalog_kind);
    root.push_entry(name_vec("Pages"), tree_ref);
    let root_object = Object::Dictionary(root);
    let catalog_ref = Object::Reference(catalog);
    proof {
        node_object.lemma_view();
        root_object.lemma_view();
        catalog_ref.lemma_view();
        assert(node@ =~= tree_node_value(pages@)->Dictionary_0);
        assert(root@ =~= catalog_value(tree)->Dictionary_0);
    }
    target.insert_object(tree, node_object);
    target.insert_object(catalog, root_object);
    target.set_trailer(name_vec("Root"), catalog_ref);
    Ok((tree, catalog))
}

} // verus!
