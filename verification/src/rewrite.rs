//! Redirecting the references inside an object along a mapping of
//! identifiers.

use crate::document::Document;
use crate::error::PdfError;
use crate::names::{name_bytes, name_vec};
use crate::object::{
    copy_bytes, entries_get, entries_set, find_from, lemma_find_from, lemma_set_twice, Dictionary,
    Entries, Object, ObjectId, Stream, StreamValue, Value,
};
use crate::refs::{entries_refs, items_refs, value_refs};
use std::collections::{BTreeMap, BTreeSet};
use vstd::pervasive::unreached;
use vstd::prelude::*;
use vstd::std_specs::iter::IteratorSpec;

verus! {

/// Where `id` points after redirection: to its image under `mapping`, or
/// where it pointed before if the mapping does not hold it.
pub open spec fn rewrite_id(id: ObjectId, mapping: Map<ObjectId, ObjectId>) -> ObjectId {
    if mapping.contains_key(id) {
        mapping[id]
    } else {
        id
    }
}

/// `value` with every reference in it redirected along `mapping`, through
/// arrays, dictionaries and stream dictionaries alike. Nothing else changes.
pub open spec fn rewrite_value(value: Value, mapping: Map<ObjectId, ObjectId>) -> Value
    decreases value,
{
    match value {
        Value::Reference(id) => Value::Reference(rewrite_id(id, mapping)),
        Value::Array(items) => Value::Array(
            Seq::new(
                items.len(),
                |i: int|
                    if 0 <= i < items.len() {
                        rewrite_value(items[i], mapping)
                    } else {
                        Value::Null
                    },
            ),
        ),
        Value::Dictionary(entries) => Value::Dictionary(rewrite_entries(entries, mapping)),
        Value::Stream(stream) => Value::Stream(
            StreamValue {
                dict: rewrite_entries(stream.dict, mapping),
                content: stream.content,
                allows_compression: stream.allows_compression,
                start_position: stream.start_position,
            },
        ),
        _ => value,
    }
}

/// The entries of a dictionary with the references in their values
/// redirected along `mapping`. Names and order stay.
pub open spec fn rewrite_entries(entries: Entries, mapping: Map<ObjectId, ObjectId>) -> Entries
    decreases entries,
{
    Seq::new(
        entries.len(),
        |i: int|
            if 0 <= i < entries.len() {
                (entries[i].0, rewrite_value(entries[i].1, mapping))
            } else {
                (Seq::empty(), Value::Null)
            },
    )
}

/// `rewrite_value`, one level deep.
pub proof fn lemma_rewrite_value(value: Value, mapping: Map<ObjectId, ObjectId>)
    ensures
        match value {
            Value::Reference(id) => rewrite_value(value, mapping) == Value::Reference(
                rewrite_id(id, mapping),
            ),
            Value::Array(items) => {
                &&& rewrite_value(value, mapping) is Array
                &&& rewrite_value(value, mapping)->Array_0.len() == items.len()
                &&& forall|i: int|
                    0 <= i < items.len() ==> #[trigger] rewrite_value(value, mapping)->Array_0[i]
                        == rewrite_value(items[i], mapping)
            },
            Value::Dictionary(entries) => rewrite_value(value, mapping) == Value::Dictionary(
                rewrite_entries(entries, mapping),
            ),
            Value::Stream(stream) => rewrite_value(value, mapping) == Value::Stream(
                StreamValue {
                    dict: rewrite_entries(stream.dict, mapping),
                    content: stream.content,
                    allows_compression: stream.allows_compression,
                    start_position: stream.start_position,
                },
            ),
            _ => rewrite_value(value, mapping) == value,
        },
{
    reveal_with_fuel(rewrite_value, 3);
}

/// `rewrite_entries`, entry by entry.
pub proof fn lemma_rewrite_entries(entries: Entries, mapping: Map<ObjectId, ObjectId>)
    ensures
        rewrite_entries(entries, mapping).len() == entries.len(),
        forall|i: int|
            0 <= i < entries.len() ==> #[trigger] rewrite_entries(entries, mapping)[i] == (
                entries[i].0,
                rewrite_value(entries[i].1, mapping),
            ),
{
    reveal_with_fuel(rewrite_entries, 3);
}

/// Redirecting references moves no entry and renames none: a name is found
/// at the same place as before.
pub proof fn lemma_find_in_rewritten(
    entries: Entries,
    mapping: Map<ObjectId, ObjectId>,
    key: Seq<u8>,
    start: int,
)
    requires
        0 <= start <= entries.len(),
    ensures
        find_from(rewrite_entries(entries, mapping), key, start) == find_from(entries, key, start),
    decreases entries.len() - start,
{
    lemma_rewrite_entries(entries, mapping);
    if start < entries.len() {
        assert(rewrite_entries(entries, mapping)[start].0 == entries[start].0);
        if entries[start].0 != key {
            lemma_find_in_rewritten(entries, mapping, key, start + 1);
        }
    }
}

/// What a dictionary holds under a name after its references were
/// redirected is what it held there, redirected.
pub proof fn lemma_get_of_rewritten(
    entries: Entries,
    mapping: Map<ObjectId, ObjectId>,
    key: Seq<u8>,
)
    ensures
        entries_get(rewrite_entries(entries, mapping), key) == (match entries_get(entries, key) {
            Some(value) => Some(rewrite_value(value, mapping)),
            None => None,
        }),
{
    lemma_rewrite_entries(entries, mapping);
    lemma_find_in_rewritten(entries, mapping, key, 0);
    lemma_find_from(entries, key, 0);
}

/// The identifiers of `ids`, each redirected along `mapping`.
pub open spec fn rewrite_ids(
    ids: Seq<ObjectId>,
    mapping: Map<ObjectId, ObjectId>,
) -> Seq<ObjectId> {
    ids.map_values(|id: ObjectId| rewrite_id(id, mapping))
}

/// What a rewritten value refers to is what the value referred to,
/// redirected: position by position, nothing added and nothing dropped.
pub proof fn lemma_refs_of_rewritten(value: Value, mapping: Map<ObjectId, ObjectId>)
    ensures
        value_refs(rewrite_value(value, mapping)) == rewrite_ids(value_refs(value), mapping),
    decreases value, 0nat,
{
    lemma_rewrite_value(value, mapping);
    match value {
        Value::Reference(id) => {
            assert(seq![rewrite_id(id, mapping)] =~= rewrite_ids(seq![id], mapping));
        },
        Value::Array(items) => {
            lemma_refs_of_rewritten_items(
                items,
                rewrite_value(value, mapping)->Array_0,
                mapping,
                items.len(),
            );
        },
        Value::Dictionary(entries) => {
            lemma_refs_of_rewritten_entries(entries, mapping, entries.len());
        },
        Value::Stream(stream) => {
            lemma_refs_of_rewritten_entries(stream.dict, mapping, stream.dict.len());
        },
        _ => {
            assert(Seq::<ObjectId>::empty() =~= rewrite_ids(Seq::<ObjectId>::empty(), mapping));
        },
    }
}

proof fn lemma_refs_of_rewritten_items(
    items: Seq<Value>,
    after: Seq<Value>,
    mapping: Map<ObjectId, ObjectId>,
    n: nat,
)
    requires
        n <= items.len(),
        after.len() == items.len(),
        forall|i: int|
            0 <= i < items.len() ==> #[trigger] after[i] == rewrite_value(items[i], mapping),
    ensures
        items_refs(after, n) == rewrite_ids(items_refs(items, n), mapping),
    decreases items, n,
{
    if n == 0 {
        assert(Seq::<ObjectId>::empty() =~= rewrite_ids(Seq::<ObjectId>::empty(), mapping));
    } else {
        lemma_refs_of_rewritten_items(items, after, mapping, (n - 1) as nat);
        lemma_refs_of_rewritten(items[n - 1], mapping);
        assert(after[n - 1] == rewrite_value(items[n - 1], mapping));
        assert(rewrite_ids(items_refs(items, (n - 1) as nat) + value_refs(items[n - 1]), mapping)
            =~= rewrite_ids(items_refs(items, (n - 1) as nat), mapping) + rewrite_ids(
            value_refs(items[n - 1]),
            mapping,
        ));
    }
}

proof fn lemma_refs_of_rewritten_entries(entries: Entries, mapping: Map<ObjectId, ObjectId>, n: nat)
    requires
        n <= entries.len(),
    ensures
        entries_refs(rewrite_entries(entries, mapping), n) == rewrite_ids(
            entries_refs(entries, n),
            mapping,
        ),
    decreases entries, n,
{
    lemma_rewrite_entries(entries, mapping);
    if n == 0 {
        assert(Seq::<ObjectId>::empty() =~= rewrite_ids(Seq::<ObjectId>::empty(), mapping));
    } else {
        lemma_refs_of_rewritten_entries(entries, mapping, (n - 1) as nat);
        lemma_refs_of_rewritten(entries[n - 1].1, mapping);
        assert(rewrite_entries(entries, mapping)[n - 1] == (
            entries[n - 1].0,
            rewrite_value(entries[n - 1].1, mapping),
        ));
        assert(rewrite_ids(
            entries_refs(entries, (n - 1) as nat) + value_refs(entries[n - 1].1),
            mapping,
        ) =~= rewrite_ids(entries_refs(entries, (n - 1) as nat), mapping) + rewrite_ids(
            value_refs(entries[n - 1].1),
            mapping,
        ));
    }
}

/// A copy of `object` in which every reference is redirected along
/// `id_map`.
pub fn rewritten(object: &Object, id_map: &BTreeMap<ObjectId, ObjectId>) -> (copy: Object)
    ensures
        copy@ == rewrite_value(object@, id_map@),
    decreases object@, 1nat,
{
    proof {
        object.lemma_view();
        lemma_rewrite_value(object@, id_map@);
    }
    let copy = match object {
        Object::Null => Object::Null,
        Object::Boolean(b) => Object::Boolean(*b),
        Object::Integer(n) => Object::Integer(*n),
        Object::Real(bits) => Object::Real(*bits),
        Object::Name(bytes) => Object::Name(copy_bytes(bytes.as_slice())),
        Object::String(bytes, format) => Object::String(copy_bytes(bytes.as_slice()), *format),
        Object::Array(items) => {
            let mut copies: Vec<Object> = Vec::new();
            let mut i: usize = 0;
            while i < items.len()
                invariant
                    i <= items.len(),
                    copies.len() == i,
                    object@ is Array,
                    object@->Array_0.len() == items.len(),
                    forall|j: int|
                        0 <= j < items.len() ==> #[trigger] object@->Array_0[j] == items[j]@,
                    forall|j: int|
                        0 <= j < i ==> #[trigger] copies[j]@ == rewrite_value(
                            items[j]@,
                            id_map@,
                        ),
                decreases items.len() - i,
            {
                assert(object@->Array_0[i as int] == items[i as int]@);
                copies.push(rewritten(&items[i], id_map));
                i += 1;
            }
            Object::Array(copies)
        },
        Object::Dictionary(dict) => {
            proof {
                assert(decreases_to!(object@ => object@->Dictionary_0));
            }
            Object::Dictionary(rewritten_entries(dict, id_map))
        },
        Object::Stream(stream) => {
            proof {
                assert(object@ == Value::Stream(stream@));
                assert(decreases_to!(object@ => object@->Stream_0));
                assert(decreases_to!(object@->Stream_0 => object@->Stream_0.dict));
            }
            Object::Stream(
                Stream {
                    dict: rewritten_entries(&stream.dict, id_map),
                    content: copy_bytes(stream.content.as_slice()),
                    allows_compression: stream.allows_compression,
                    start_position: stream.start_position,
                },
            )
        },
        Object::Reference(id) => {
            match id_map.get(id) {
                Some(new_id) => Object::Reference(*new_id),
                None => Object::Reference(*id),
            }
        },
    };
    proof {
        copy.lemma_view();
        if object@ is Array {
            assert(copy@->Array_0 =~= rewrite_value(object@, id_map@)->Array_0);
        }
    }
    copy
}

/// A copy of `dict` in which every reference is redirected along `id_map`.
fn rewritten_entries(
    dict: &Dictionary,
    id_map: &BTreeMap<ObjectId, ObjectId>,
) -> (copy: Dictionary)
    ensures
        copy@ == rewrite_entries(dict@, id_map@),
    decreases dict@, 0nat,
{
    proof {
        lemma_rewrite_entries(dict@, id_map@);
    }
    let mut copy = Dictionary::new();
    let mut i: usize = 0;
    while i < dict.len()
        invariant
            i <= dict@.len(),
            copy@.len() == i,
            forall|j: int|
                0 <= j < i ==> #[trigger] copy@[j] == (
                    dict@[j].0,
                    rewrite_value(dict@[j].1, id_map@),
                ),
        decreases dict@.len() - i,
    {
        let key = copy_bytes(dict.key_at(i).as_slice());
        let value = rewritten(dict.value_at(i), id_map);
        copy.push_entry(key, value);
        i += 1;
    }
    assert(copy@ =~= rewrite_entries(dict@, id_map@));
    copy
}

/// Redirects every reference inside `object` along `id_map`: one that the
/// mapping holds now points to its image, any other is left as it is. Never
/// fails.
pub fn update_references_recursive(
    object: &mut Object,
    id_map: &BTreeMap<ObjectId, ObjectId>,
) -> (result: Result<(), PdfError>)
    ensures
        result is Ok,
        final(object)@ == rewrite_value(old(object)@, id_map@),
{
    let copy = rewritten(object, id_map);
    *object = copy;
    Ok(())
}

/// A demand on the pages among the objects being rewritten: each of `pages`
/// is to name `parent` as the node of the page tree it hangs from.
pub struct ParentPatch {
    pub pages: Vec<ObjectId>,
    pub parent: ObjectId,
}

/// The pages that `patch` speaks of; none where there is no patch.
pub open spec fn patch_pages(patch: Option<&ParentPatch>) -> Seq<ObjectId> {
    match patch {
        Some(p) => p.pages@,
        None => Seq::empty(),
    }
}

/// `value` with its `Parent` entry naming `parent`; a value that is not a
/// dictionary is left as it is.
pub open spec fn with_parent(value: Value, parent: ObjectId) -> Value {
    match value {
        Value::Dictionary(entries) => Value::Dictionary(
            entries_set(entries, name_bytes("Parent"), Value::Reference(parent)),
        ),
        _ => value,
    }
}

/// What the object under `id` becomes when the copies that `mapping` leads
/// to are rewritten: a copy has its references redirected, and a page of the
/// patch gets its `Parent` after that.
pub open spec fn rewritten_object(
    value: Value,
    id: ObjectId,
    mapping: Map<ObjectId, ObjectId>,
    patch: Option<&ParentPatch>,
) -> Value {
    let redirected = if mapping.values().contains(id) {
        rewrite_value(value, mapping)
    } else {
        value
    };
    if patch_pages(patch).contains(id) {
        with_parent(redirected, patch->0.parent)
    } else {
        redirected
    }
}

/// Every copy that `mapping` leads to, and every page of `patch`, is held
/// by `objects`.
pub open spec fn copies_present(
    objects: Map<ObjectId, Value>,
    mapping: Map<ObjectId, ObjectId>,
    patch: Option<&ParentPatch>,
) -> bool {
    &&& forall|id: ObjectId| #[trigger] mapping.values().contains(id) ==> objects.contains_key(id)
    &&& forall|i: int|
        0 <= i < patch_pages(patch).len() ==> objects.contains_key(#[trigger] patch_pages(patch)[i])
}

/// Every page of `patch` that `objects` holds is a dictionary.
pub open spec fn pages_are_dictionaries(
    objects: Map<ObjectId, Value>,
    patch: Option<&ParentPatch>,
) -> bool {
    forall|i: int|
        0 <= i < patch_pages(patch).len() && objects.contains_key(#[trigger] patch_pages(patch)[i])
            ==> objects[patch_pages(patch)[i]] is Dictionary
}

/// Setting the parent twice is setting it once.
pub proof fn lemma_with_parent_twice(value: Value, parent: ObjectId)
    ensures
        with_parent(with_parent(value, parent), parent) == with_parent(value, parent),
{
    match value {
        Value::Dictionary(entries) => {
            lemma_set_twice(
                entries,
                name_bytes("Parent"),
                Value::Reference(parent),
                Value::Reference(parent),
            );
        },
        _ => {},
    }
}

/// Redirecting references leaves a dictionary a dictionary, and anything
/// else what it was not.
pub proof fn lemma_rewrite_keeps_kind(value: Value, mapping: Map<ObjectId, ObjectId>)
    ensures
        rewrite_value(value, mapping) is Dictionary <==> value is Dictionary,
{
    lemma_rewrite_value(value, mapping);
}

/// The identifiers that `mapping` leads to, each once.
pub fn mapping_images(mapping: &BTreeMap<ObjectId, ObjectId>) -> (images: Vec<ObjectId>)
    ensures
        images@.no_duplicates(),
        images@.to_set() == mapping@.values(),
{
    let mut images: Vec<ObjectId> = Vec::new();
    let mut seen: BTreeSet<ObjectId> = BTreeSet::new();
    let ghost mut origins: Seq<ObjectId> = Seq::empty();
    for key in it: mapping.keys()
        invariant
            it.seq() == mapping.keys().remaining(),
            origins.len() == it.index(),
            forall|j: int| 0 <= j < origins.len() ==> origins[j] == *it.seq()[j],
            images@.no_duplicates(),
            seen@ == images@.to_set(),
            forall|id: ObjectId|
                seen@.contains(id) <==> exists|j: int|
                    0 <= j < origins.len() && mapping@.contains_key(#[trigger] origins[j])
                        && mapping@[origins[j]] == id,
    {
        let ghost before = images@;
        let ghost seen_before = seen@;
        let ghost origins_before = origins;
        proof {
            origins = origins.push(*key);
            let all = mapping.keys().remaining();
            assert(all.unref().to_set().contains(all.unref()[it.index()]));
        }
        match mapping.get(key) {
            Some(image) => {
                if seen.insert(*image) {
                    images.push(*image);
                    proof {
                        before.lemma_push_to_set_commute(*image);
                        assert forall|i: int, j: int|
                            0 <= i < j < images@.len() implies images@[i] != images@[j] by {
                            if j == before.len() {
                                assert(before.to_set().contains(before[i]));
                            }
                        }
                    }
                }
                proof {
                    assert forall|id: ObjectId|
                        seen@.contains(id) <==> exists|j: int|
                            0 <= j < origins.len() && mapping@.contains_key(#[trigger] origins[j])
                                && mapping@[origins[j]] == id by {
                        if seen@.contains(id) {
                            if seen_before.contains(id) {
                                let j = choose|j: int|
                                    0 <= j < origins_before.len() && mapping@.contains_key(
                                        #[trigger] origins_before[j],
                                    ) && mapping@[origins_before[j]] == id;
                                assert(origins[j] == origins_before[j]);
                            } else {
                                assert(origins[origins.len() - 1] == *key);
                            }
                        }
                        if exists|j: int|
                            0 <= j < origins.len() && mapping@.contains_key(#[trigger] origins[j])
                                && mapping@[origins[j]] == id {
                            let j = choose|j: int|
                                0 <= j < origins.len() && mapping@.contains_key(
                                    #[trigger] origins[j],
                                ) && mapping@[origins[j]] == id;
                            if j < origins_before.len() {
                                assert(origins_before[j] == origins[j]);
                            }
                        }
                    }
                }
            },
            None => {
                proof {
                    assert(mapping@.contains_key(*key));
                }
                unreached::<()>()
            },
        }
    }
    proof {
        let all = mapping.keys().remaining();
        assert(origins =~= all.unref());
        assert(images@.to_set() =~= mapping@.values()) by {
            assert forall|id: ObjectId|
                images@.to_set().contains(id) <==> mapping@.values().contains(id) by {
                if images@.to_set().contains(id) {
                    let j = choose|j: int|
                        0 <= j < origins.len() && mapping@.contains_key(#[trigger] origins[j])
                            && mapping@[origins[j]] == id;
                    assert(mapping@.contains_key(origins[j]) && mapping@[origins[j]] == id);
                }
                if mapping@.values().contains(id) {
                    let k = choose|k: ObjectId| mapping@.contains_key(k) && mapping@[k] == id;
                    assert(origins.to_set().contains(k));
                    let j = choose|j: int| 0 <= j < origins.len() && origins[j] == k;
                    assert(mapping@.contains_key(origins[j]) && mapping@[origins[j]] == id);
                }
            }
        }
    }
    images
}

/// Rewrites the copies in `target` that `mapping` leads to: every reference
/// inside a copy that names an original of the mapping is made to name the
/// copy of that original, and every other reference is left as it is. After
/// that, each page of `patch` gets `Parent` set as the patch demands. No
/// other object changes.
///
/// Fails, and leaves `target` as it was, when a copy or a page of the patch
/// is not in `target`, or when a page of the patch is not a dictionary.
#[verifier::loop_isolation(false)]
pub fn rewrite_references(
    target: &mut Document,
    mapping: &BTreeMap<ObjectId, ObjectId>,
    patch: Option<&ParentPatch>,
) -> (result: Result<(), PdfError>)
    requires
        old(target).wf(),
    ensures
        final(target).wf(),
        ({
            let before = old(target)@;
            let after = final(target)@;
            match result {
                Ok(()) => {
                    &&& copies_present(before.objects, mapping@, patch)
                    &&& pages_are_dictionaries(before.objects, patch)
                    &&& after.version == before.version
                    &&& after.trailer == before.trailer
                    &&& after.max_id == before.max_id
                    &&& after.objects.dom() == before.objects.dom()
                    &&& forall|id: ObjectId| #[trigger]
                        before.objects.contains_key(id) ==> after.objects[id] == rewritten_object(
                            before.objects[id],
                            id,
                            mapping@,
                            patch,
                        )
                },
                Err(error) => {
                    &&& after == before
                    &&& if !copies_present(before.objects, mapping@, patch) {
                        &&& error matches PdfError::MissingCopy { number, generation }
                        &&& !before.objects.contains_key((number, generation))
                        &&& mapping@.values().contains((number, generation)) || patch_pages(
                            patch,
                        ).contains((number, generation))
                    } else {
                        &&& !pages_are_dictionaries(before.objects, patch)
                        &&& error matches PdfError::NotADictionary { number, generation }
                        &&& patch_pages(patch).contains((number, generation))
                        &&& !(before.objects[(number, generation)] is Dictionary)
                    }
                },
            }
        }),
{
    let ghost before = target@;
    let images = mapping_images(mapping);
    let mut i: usize = 0;
    while i < images.len()
        invariant
            i <= images.len(),
            target@ == before,
            forall|j: int| 0 <= j < i ==> before.objects.contains_key(#[trigger] images@[j]),
        decreases images.len() - i,
    {
        let id = images[i];
        if !target.has_object(id) {
            proof {
                assert(images@.to_set().contains(images@[i as int]));
            }
            return Err(PdfError::MissingCopy { number: id.0, generation: id.1 });
        }
        i += 1;
    }
    proof {
        assert forall|id: ObjectId|
            #[trigger] mapping@.values().contains(id) implies before.objects.contains_key(
            id,
        ) by {
            assert(images@.to_set().contains(id));
            let j = choose|j: int| 0 <= j < images@.len() && images@[j] == id;
            assert(before.objects.contains_key(images@[j]));
        }
    }
    match patch {
        Some(p) => {
            let mut k: usize = 0;
            while k < p.pages.len()
                invariant
                    k <= p.pages.len(),
                    target@ == before,
                    patch == Some(p),
                    forall|j: int|
                        0 <= j < k ==> before.objects.contains_key(#[trigger] p.pages@[j]),
                decreases p.pages.len() - k,
            {
                let id = p.pages[k];
                if !target.has_object(id) {
                    proof {
                        assert(patch_pages(patch)[k as int] == id);
                    }
                    return Err(PdfError::MissingCopy { number: id.0, generation: id.1 });
                }
                k += 1;
            }
            let mut k: usize = 0;
            while k < p.pages.len()
                invariant
                    k <= p.pages.len(),
                    target@ == before,
                    patch == Some(p),
                    forall|j: int|
                        0 <= j < p.pages@.len() ==> before.objects.contains_key(
                            #[trigger] p.pages@[j],
                        ),
                    forall|j: int|
                        0 <= j < k ==> before.objects[#[trigger] p.pages@[j]] is Dictionary,
                decreases p.pages.len() - k,
            {
                let id = p.pages[k];
                let is_dict = match target.get_object(id) {
                    Some(object) => object.as_dict().is_some(),
                    None => false,
                };
                if !is_dict {
                    proof {
                        assert(patch_pages(patch)[k as int] == id);
                        assert(before.objects.contains_key(p.pages@[k as int]));
                    }
                    return Err(PdfError::NotADictionary { number: id.0, generation: id.1 });
                }
                k += 1;
            }
        },
        None => {},
    }
    assert(copies_present(before.objects, mapping@, patch));
    assert(pages_are_dictionaries(before.objects, patch));
    let mut i: usize = 0;
    while i < images.len()
        invariant
            i <= images.len(),
            before == old(target)@,
            target.wf(),
            images@.no_duplicates(),
            images@.to_set() == mapping@.values(),
            forall|j: int|
                0 <= j < images@.len() ==> before.objects.contains_key(#[trigger] images@[j]),
            target@.version == before.version,
            target@.trailer == before.trailer,
            target@.max_id == before.max_id,
            target@.objects.dom() == before.objects.dom(),
            forall|id: ObjectId| #[trigger]
                before.objects.contains_key(id) ==> target@.objects[id] == (if images@.take(
                    i as int,
                ).contains(id) {
                    rewrite_value(before.objects[id], mapping@)
                } else {
                    before.objects[id]
                }),
        decreases images.len() - i,
    {
        let id = images[i];
        let ghost stage = target@;
        proof {
            assert(before.objects.contains_key(images@[i as int]));
            assert(!images@.take(i as int).contains(id)) by {
                let shorter = images@.take(i as int);
                if shorter.contains(id) {
                    let j = choose|j: int| 0 <= j < shorter.len() && shorter[j] == id;
                    assert(images@[j] == images@[i as int]);
                }
            }
        }
        let copy = match target.get_object(id) {
            Some(object) => rewritten(object, mapping),
            None => unreached(),
        };
        target.insert_object(id, copy);
        proof {
            assert(id.0 <= before.max_id);
            assert(target@.objects.dom() =~= before.objects.dom());
            assert(images@.take(i + 1) =~= images@.take(i as int).push(id));
            assert forall|x: ObjectId| #[trigger]
                before.objects.contains_key(x) implies target@.objects[x] == (if images@.take(
                i + 1,
            ).contains(x) {
                rewrite_value(before.objects[x], mapping@)
            } else {
                before.objects[x]
            }) by {
                if x != id {
                    assert(target@.objects[x] == stage.objects[x]);
                    let shorter = images@.take(i as int);
                    let longer = images@.take(i + 1);
                    if longer.contains(x) {
                        let j = choose|j: int| 0 <= j < longer.len() && longer[j] == x;
                        assert(shorter[j] == x);
                    }
                    if shorter.contains(x) {
                        let j = choose|j: int| 0 <= j < shorter.len() && shorter[j] == x;
                        assert(longer[j] == x);
                    }
                } else {
                    assert(images@.take(i + 1)[i as int] == x);
                }
            }
        }
        i += 1;
    }
    let ghost redirected = target@;
    proof {
        assert(images@.take(images@.len() as int) =~= images@);
        assert forall|id: ObjectId| #[trigger]
            before.objects.contains_key(id) implies redirected.objects[id] == rewritten_object(
            before.objects[id],
            id,
            mapping@,
            None,
        ) by {
            assert(images@.contains(id) <==> images@.to_set().contains(id));
        }
    }
    match patch {
        Some(p) => {
            let mut k: usize = 0;
            while k < p.pages.len()
                invariant
                    k <= p.pages.len(),
                    before == old(target)@,
                    target.wf(),
                    patch == Some(p),
                    forall|j: int|
                        0 <= j < p.pages@.len() ==> before.objects.contains_key(
                            #[trigger] p.pages@[j],
                        ) && before.objects[p.pages@[j]] is Dictionary,
                    target@.version == before.version,
                    target@.trailer == before.trailer,
                    target@.max_id == before.max_id,
                    target@.objects.dom() == before.objects.dom(),
                    forall|id: ObjectId| #[trigger]
                        before.objects.contains_key(id) ==> target@.objects[id] == (
                        if p.pages@.take(k as int).contains(id) {
                            with_parent(redirected.objects[id], p.parent)
                        } else {
                            redirected.objects[id]
                        }),
                decreases p.pages.len() - k,
            {
                let id = p.pages[k];
                let ghost stage = target@;
                proof {
                    assert(before.objects.contains_key(p.pages@[k as int]));
                    lemma_rewrite_keeps_kind(before.objects[id], mapping@);
                    lemma_with_parent_twice(redirected.objects[id], p.parent);
                }
                let mut dict = match target.get_object(id) {
                    Some(object) => match object.as_dict() {
                        Some(d) => d.clone(),
                        None => unreached(),
                    },
                    None => unreached(),
                };
                dict.set(name_vec("Parent"), Object::Reference(p.parent));
                let patched = Object::Dictionary(dict);
                proof {
                    patched.lemma_view();
                    (Object::Reference(p.parent)).lemma_view();
                    assert(patched@ == with_parent(stage.objects[id], p.parent));
                }
                target.insert_object(id, patched);
                proof {
                    assert(id.0 <= before.max_id);
                    assert(target@.objects.dom() =~= before.objects.dom());
                    assert(p.pages@.take(k + 1) =~= p.pages@.take(k as int).push(id));
                    assert forall|x: ObjectId| #[trigger]
                        before.objects.contains_key(x) implies target@.objects[x] == (
                    if p.pages@.take(k + 1).contains(x) {
                        with_parent(redirected.objects[x], p.parent)
                    } else {
                        redirected.objects[x]
                    }) by {
                        if x != id {
                            assert(target@.objects[x] == stage.objects[x]);
                            let shorter = p.pages@.take(k as int);
                            let longer = p.pages@.take(k + 1);
                            if longer.contains(x) {
                                let j = choose|j: int| 0 <= j < longer.len() && longer[j] == x;
                                assert(shorter[j] == x);
                            }
                            if shorter.contains(x) {
                                let j = choose|j: int| 0 <= j < shorter.len() && shorter[j] == x;
                                assert(longer[j] == x);
                            }
                        } else {
                            assert(p.pages@.take(k + 1)[k as int] == x);
                        }
                    }
                }
                k += 1;
            }
            proof {
                assert(p.pages@.take(p.pages@.len() as int) =~= p.pages@);
            }
        },
        None => {},
    }
    Ok(())
}

} // verus!
