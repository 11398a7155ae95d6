//! A new document made of pages taken from another: the pages with all
//! they reach, copied, and a page tree built around the copies.

use crate::closure::{closure, lemma_root_reachable, search_limit, search_order, within_limit};
use crate::deep_copy::manual_deep_copy;
use crate::document::{Document, DocumentView};
use crate::error::PdfError;
use crate::names::name_bytes;
use crate::object::{ObjectId, Value};
use crate::page_tree::{assemble, catalog_value, tree_node_value};
use crate::rewrite::{
    lemma_rewrite_keeps_kind, rewrite_references, rewrite_value, with_parent, ParentPatch,
};
use std::collections::BTreeMap;
use vstd::pervasive::unreached;
use vstd::prelude::*;

verus! {

/// The object under `id` can be a page of a new document: it exists and is
/// a dictionary.
pub open spec fn usable_page(objects: Map<ObjectId, Value>, id: ObjectId) -> bool {
    objects.contains_key(id) && objects[id] is Dictionary
}

/// Index of the first of `roots`, at or after `from`, that is not a usable
/// page, or the number of roots if all are.
pub open spec fn first_unusable(
    objects: Map<ObjectId, Value>,
    roots: Seq<ObjectId>,
    from: int,
) -> int
    decreases roots.len() - from,
{
    if from < 0 || from >= roots.len() {
        roots.len() as int
    } else if !usable_page(objects, roots[from]) {
        from
    } else {
        first_unusable(objects, roots, from + 1)
    }
}

/// Why the pages `roots` of `source` cannot be made into a new document, or
/// `None` if they can. The reasons, in the order in which they are looked
/// for: the search for what the pages reach exceeds its limit; there are
/// more objects to copy than identifiers; one of the pages does not exist or
/// is not a dictionary (the first such page decides); the page tree does not
/// fit behind the copies.
pub open spec fn copy_failure(source: DocumentView, roots: Seq<ObjectId>) -> Option<PdfError> {
    let objects = source.objects;
    let limit = search_limit(objects, roots);
    let bad = first_unusable(objects, roots, 0);
    if !within_limit(objects, roots, limit) {
        Some(PdfError::LoopLimit { limit: limit as u128 })
    } else if closure(objects, roots).len() > u32::MAX {
        Some(PdfError::IdentifiersExhausted)
    } else if bad < roots.len() {
        if objects.contains_key(roots[bad]) {
            Some(PdfError::NotADictionary { number: roots[bad].0, generation: roots[bad].1 })
        } else {
            Some(PdfError::PageNotMapped { number: roots[bad].0, generation: roots[bad].1 })
        }
    } else if closure(objects, roots).len() + 2 > u32::MAX {
        Some(PdfError::IdentifiersExhausted)
    } else if roots.len() > i64::MAX {
        Some(PdfError::TooManyPages)
    } else {
        None
    }
}

/// The copies of `roots` under `mapping`, in the order of `roots`.
pub open spec fn copies_of(
    roots: Seq<ObjectId>,
    mapping: Map<ObjectId, ObjectId>,
) -> Seq<ObjectId> {
    roots.map_values(|id: ObjectId| mapping[id])
}

/// `out` is the document made of the pages `roots` of `source`, with
/// `mapping` leading from the objects copied to their copies.
///
/// With `n` objects in the closure of the pages: the copies have the
/// numbers 1 to `n`, in the order in which a breadth-first search from the
/// pages meets the originals, the node of the page tree has `n + 1` and the
/// catalog `n + 2`, all with generation 0, and `out` holds nothing else. Each copy
/// holds what its original holds with every reference into the closure
/// redirected to the copy it names; the copy of a page has, beyond that,
/// the node as its `Parent`. The node lists the copies of `roots`, in the
/// order of `roots`, a page as often as it is listed there. The trailer
/// names the catalog as `Root` and holds nothing else.
pub open spec fn pages_copied_with(
    source: DocumentView,
    roots: Seq<ObjectId>,
    out: DocumentView,
    mapping: Map<ObjectId, ObjectId>,
) -> bool {
    let objects = source.objects;
    let reach = closure(objects, roots);
    let n = reach.len();
    let tree = ((n + 1) as u32, 0u16);
    let catalog = ((n + 2) as u32, 0u16);
    &&& reach.finite()
    &&& n + 2 <= u32::MAX
    &&& roots.len() <= i64::MAX
    &&& mapping.dom() == reach
    &&& forall|i: int|
        0 <= i < search_order(objects, roots).len() ==> #[trigger] mapping[search_order(
            objects,
            roots,
        )[i]] == ((1 + i) as u32, 0u16)
    &&& forall|a: ObjectId, b: ObjectId|
        reach.contains(a) && reach.contains(b) && a != b ==> #[trigger] mapping[a]
            != #[trigger] mapping[b]
    &&& forall|id: ObjectId|
        reach.contains(id) ==> {
            &&& (#[trigger] mapping[id]).1 == 0
            &&& 1 <= mapping[id].0 <= n
            &&& out.objects.contains_key(mapping[id])
            &&& out.objects[mapping[id]] == (if roots.contains(id) {
                with_parent(rewrite_value(objects[id], mapping), tree)
            } else {
                rewrite_value(objects[id], mapping)
            })
        }
    &&& forall|i: int| 0 <= i < roots.len() ==> usable_page(objects, #[trigger] roots[i])
    &&& out.objects.contains_key(tree)
    &&& out.objects[tree] == tree_node_value(copies_of(roots, mapping))
    &&& out.objects.contains_key(catalog)
    &&& out.objects[catalog] == catalog_value(tree)
    &&& forall|id: ObjectId| #[trigger]
        out.objects.contains_key(id) ==> id == tree || id == catalog || mapping.values().contains(
            id,
        )
    &&& out.max_id == n + 2
    &&& out.version == source.version
    &&& out.trailer == seq![(name_bytes("Root"), Value::Reference(catalog))]
}

/// `out` is the document made of the pages `roots` of `source`.
pub open spec fn pages_copied(
    source: DocumentView,
    roots: Seq<ObjectId>,
    out: DocumentView,
) -> bool {
    exists|mapping: Map<ObjectId, ObjectId>| pages_copied_with(source, roots, out, mapping)
}

/// `first_unusable` stays within bounds, names an unusable page, and passes
/// none on its way.
pub proof fn lemma_first_unusable(objects: Map<ObjectId, Value>, roots: Seq<ObjectId>, from: int)
    requires
        0 <= from <= roots.len(),
    ensures
        from <= first_unusable(objects, roots, from) <= roots.len(),
        first_unusable(objects, roots, from) < roots.len() ==> !usable_page(
            objects,
            roots[first_unusable(objects, roots, from)],
        ),
        forall|i: int|
            from <= i < first_unusable(objects, roots, from) ==> usable_page(
                objects,
                #[trigger] roots[i],
            ),
    decreases roots.len() - from,
{
    if from < roots.len() && usable_page(objects, roots[from]) {
        lemma_first_unusable(objects, roots, from + 1);
    }
}

/// Checks that every one of `pages` is an object of `source` and a
/// dictionary. The first that is not decides the failure.
pub fn check_pages(source: &Document, pages: &Vec<ObjectId>) -> (result: Result<(), PdfError>)
    ensures
        ({
            let objects = source@.objects;
            let bad = first_unusable(objects, pages@, 0);
            match result {
                Ok(()) => bad == pages@.len(),
                Err(error) => bad < pages@.len() && error == (if objects.contains_key(pages@[bad]) {
                    PdfError::NotADictionary { number: pages@[bad].0, generation: pages@[bad].1 }
                } else {
                    PdfError::PageNotMapped { number: pages@[bad].0, generation: pages@[bad].1 }
                }),
            }
        }),
{
    let mut i: usize = 0;
    while i < pages.len()
        invariant
            i <= pages.len(),
            first_unusable(source@.objects, pages@, 0) == first_unusable(
                source@.objects,
                pages@,
                i as int,
            ),
        decreases pages.len() - i,
    {
        let page = pages[i];
        match source.get_object(page) {
            Some(object) => {
                if object.as_dict().is_none() {
                    return Err(
                        PdfError::NotADictionary { number: page.0, generation: page.1 },
                    );
                }
            },
            None => {
                return Err(PdfError::PageNotMapped { number: page.0, generation: page.1 });
            },
        }
        i += 1;
    }
    Ok(())
}

/// What holds between the copies of the roots and the roots: a copy is
/// among the former exactly if its original is among the latter.
proof fn lemma_copies_of_roots(
    reach: Set<ObjectId>,
    roots: Seq<ObjectId>,
    mapping: Map<ObjectId, ObjectId>,
    id: ObjectId,
)
    requires
        mapping.dom() == reach,
        forall|a: ObjectId, b: ObjectId|
            reach.contains(a) && reach.contains(b) && a != b ==> #[trigger] mapping[a]
                != #[trigger] mapping[b],
        forall|i: int| 0 <= i < roots.len() ==> reach.contains(#[trigger] roots[i]),
        reach.contains(id),
    ensures
        copies_of(roots, mapping).contains(mapping[id]) <==> roots.contains(id),
{
    let kids = copies_of(roots, mapping);
    if kids.contains(mapping[id]) {
        let i = choose|i: int| 0 <= i < kids.len() && kids[i] == mapping[id];
        assert(kids[i] == mapping[roots[i]]);
        assert(reach.contains(roots[i]));
        assert(roots[i] == id);
    }
    if roots.contains(id) {
        let i = choose|i: int| 0 <= i < roots.len() && roots[i] == id;
        assert(kids[i] == mapping[id]);
    }
}

/// Makes a new document of the pages `roots` of `source`: copies the pages
/// and all they reach under fresh identifiers, redirects the references
/// among the copies, builds a page tree that lists the copies of the pages
/// in the order of `roots`, and makes each of these copies name the node of
/// that tree as its parent. The new document has the format version of
/// `source`.
#[verifier::loop_isolation(false)]
pub fn copy_pages(source: &Document, roots: &Vec<ObjectId>) -> (result: Result<Document, PdfError>)
    ensures
        match result {
            Ok(out) => {
                &&& copy_failure(source@, roots@) is None
                &&& out.wf()
                &&& pages_copied(source@, roots@, out@)
            },
            Err(error) => copy_failure(source@, roots@) == Some(error),
        },
{
    let ghost objects = source@.objects;
    let ghost reach = closure(objects, roots@);
    let mut target = Document::with_version(source.version());
    let ghost blank = target@;
    let mapping = match manual_deep_copy(source, &mut target, roots) {
        Ok(mapping) => mapping,
        Err(error) => {
            return Err(error);
        },
    };
    let ghost middle = target@;
    proof {
        lemma_first_unusable(objects, roots@, 0);
        assert forall|i: int| 0 <= i < roots@.len() implies (reach.contains(#[trigger] roots@[i])
            <==> objects.contains_key(roots@[i])) by {
            lemma_root_reachable(objects, roots@, i);
        }
    }
    let mut kids: Vec<ObjectId> = Vec::new();
    let mut i: usize = 0;
    while i < roots.len()
        invariant
            i <= roots.len(),
            target@ == middle,
            kids@ == copies_of(roots@.take(i as int), mapping@),
            forall|j: int| 0 <= j < i ==> usable_page(objects, #[trigger] roots@[j]),
        decreases roots.len() - i,
    {
        let root = roots[i];
        proof {
            lemma_first_unusable(objects, roots@, 0);
            if first_unusable(objects, roots@, 0) < i {
                assert(usable_page(objects, roots@[first_unusable(objects, roots@, 0)]));
            }
        }
        match mapping.get(&root) {
            None => {
                proof {
                    assert(!reach.contains(roots@[i as int]));
                    assert(!usable_page(objects, roots@[i as int]));
                    if first_unusable(objects, roots@, 0) > i {
                        assert(usable_page(objects, roots@[i as int]));
                    }
                }
                return Err(PdfError::PageNotMapped { number: root.0, generation: root.1 });
            },
            Some(copy) => {
                proof {
                    assert(reach.contains(roots@[i as int]));
                    lemma_rewrite_keeps_kind(objects[root], mapping@);
                }
                let is_dictionary = match target.get_object(*copy) {
                    Some(object) => object.as_dict().is_some(),
                    None => unreached(),
                };
                if !is_dictionary {
                    proof {
                        assert(!usable_page(objects, roots@[i as int]));
                        if first_unusable(objects, roots@, 0) > i {
                            assert(usable_page(objects, roots@[i as int]));
                        }
                    }
                    return Err(PdfError::NotADictionary { number: root.0, generation: root.1 });
                }
                kids.push(*copy);
                proof {
                    assert(roots@.take(i + 1) =~= roots@.take(i as int).push(root));
                    assert(kids@ =~= copies_of(roots@.take(i + 1), mapping@));
                }
            },
        }
        i += 1;
    }
    proof {
        assert(roots@.take(roots@.len() as int) =~= roots@);
        lemma_first_unusable(objects, roots@, 0);
        if first_unusable(objects, roots@, 0) < roots@.len() {
            assert(usable_page(objects, roots@[first_unusable(objects, roots@, 0)]));
        }
    }
    let (tree, catalog) = match assemble(&mut target, &kids) {
        Ok(ids) => ids,
        Err(error) => {
            return Err(error);
        },
    };
    let ghost built = target@;
    let ghost page_copies = kids@;
    let patch = ParentPatch { pages: kids, parent: tree };
    let no_mapping: BTreeMap<ObjectId, ObjectId> = BTreeMap::new();
    proof {
        assert(no_mapping@.values() =~= Set::<ObjectId>::empty());
        assert forall|k: int| 0 <= k < page_copies.len() implies built.objects.contains_key(
            #[trigger] page_copies[k],
        ) && built.objects[page_copies[k]] is Dictionary by {
            assert(page_copies[k] == mapping@[roots@[k]]);
            assert(reach.contains(roots@[k]));
            assert(usable_page(objects, roots@[k]));
            lemma_rewrite_keeps_kind(objects[roots@[k]], mapping@);
            assert(middle.objects.contains_key(mapping@[roots@[k]]));
        }
    }
    match rewrite_references(&mut target, &no_mapping, Some(&patch)) {
        Ok(()) => {},
        Err(_) => unreached(),
    }
    proof {
        let out = target@;
        assert forall|id: ObjectId| reach.contains(id) implies {
            &&& out.objects.contains_key(#[trigger] mapping@[id])
            &&& out.objects[mapping@[id]] == (if roots@.contains(id) {
                with_parent(rewrite_value(objects[id], mapping@), tree)
            } else {
                rewrite_value(objects[id], mapping@)
            })
        } by {
            lemma_copies_of_roots(reach, roots@, mapping@, id);
            assert(built.objects.contains_key(mapping@[id]));
            assert(out.objects.dom().contains(mapping@[id]));
        }
        assert forall|id: ObjectId| #[trigger] out.objects.contains_key(id) implies id == tree || id
            == catalog || mapping@.values().contains(id) by {
            assert(built.objects.contains_key(id));
            if id != tree && id != catalog {
                assert(middle.objects.contains_key(id));
            }
        }
        assert(!page_copies.contains(tree) && !page_copies.contains(catalog)) by {
            if page_copies.contains(tree) {
                let k = choose|k: int| 0 <= k < page_copies.len() && page_copies[k] == tree;
                assert(page_copies[k] == mapping@[roots@[k]]);
                assert(reach.contains(roots@[k]));
            }
            if page_copies.contains(catalog) {
                let k = choose|k: int| 0 <= k < page_copies.len() && page_copies[k] == catalog;
                assert(page_copies[k] == mapping@[roots@[k]]);
                assert(reach.contains(roots@[k]));
            }
        }
        assert(built.objects.contains_key(tree));
        assert(built.objects.contains_key(catalog));
        assert(out.objects.dom().contains(tree));
        assert(out.objects.dom().contains(catalog));
        assert(out.trailer =~= seq![(name_bytes("Root"), Value::Reference(catalog))]);
        assert(pages_copied_with(source@, roots@, out, mapping@));
    }
    Ok(target)
}

} // verus!
