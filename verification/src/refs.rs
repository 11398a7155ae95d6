//! Which identifiers an object refers to, and how a search takes note of
//! them.

use crate::error::PdfError;
use crate::object::{Dictionary, Entries, Object, ObjectId, Value};
use std::collections::{BTreeSet, VecDeque};
use vstd::prelude::*;
use vstd::seq_lib::seq_to_set_distributes_over_add;

verus! {

/// The identifiers that `value` refers to, in the order in which a walk
/// through arrays, dictionaries and stream dictionaries meets them. The
/// payload of a stream is not looked into.
pub open spec fn value_refs(value: Value) -> Seq<ObjectId>
    decreases value, 0nat,
{
    match value {
        Value::Reference(id) => seq![id],
        Value::Array(items) => items_refs(items, items.len()),
        Value::Dictionary(entries) => entries_refs(entries, entries.len()),
        Value::Stream(stream) => entries_refs(stream.dict, stream.dict.len()),
        _ => Seq::empty(),
    }
}

/// The identifiers that the first `n` of `items` refer to.
pub open spec fn items_refs(items: Seq<Value>, n: nat) -> Seq<ObjectId>
    decreases items, n,
{
    if n == 0 || n > items.len() {
        Seq::empty()
    } else {
        items_refs(items, (n - 1) as nat) + value_refs(items[n - 1])
    }
}

/// The identifiers that the values of the first `n` of `entries` refer to.
pub open spec fn entries_refs(entries: Entries, n: nat) -> Seq<ObjectId>
    decreases entries, n,
{
    if n == 0 || n > entries.len() {
        Seq::empty()
    } else {
        entries_refs(entries, (n - 1) as nat) + value_refs(entries[n - 1].1)
    }
}

/// An identifier is among those that the first `n` of `entries` refer to
/// exactly if the value of one of these entries refers to it.
pub proof fn lemma_entries_refs_contains(entries: Entries, n: nat, id: ObjectId)
    requires
        n <= entries.len(),
    ensures
        entries_refs(entries, n).contains(id) <==> exists|i: int|
            0 <= i < n && #[trigger] value_refs(entries[i].1).contains(id),
    decreases n,
{
    if n > 0 {
        let front = entries_refs(entries, (n - 1) as nat);
        let last = value_refs(entries[n - 1].1);
        lemma_entries_refs_contains(entries, (n - 1) as nat, id);
        if (front + last).contains(id) {
            let k = choose|k: int| 0 <= k < (front + last).len() && (front + last)[k] == id;
            if k < front.len() {
                assert(front[k] == id);
                assert(front.contains(id));
            } else {
                assert(last[k - front.len()] == id);
                assert(value_refs(entries[n - 1].1).contains(id));
            }
        }
        if exists|i: int| 0 <= i < n && #[trigger] value_refs(entries[i].1).contains(id) {
            let i = choose|i: int| 0 <= i < n && #[trigger] value_refs(entries[i].1).contains(id);
            if i < n - 1 {
                assert(front.contains(id));
                let k = choose|k: int| 0 <= k < front.len() && front[k] == id;
                assert((front + last)[k] == id);
            } else {
                let k = choose|k: int| 0 <= k < last.len() && last[k] == id;
                assert((front + last)[front.len() + k] == id);
            }
        }
    }
}

/// The queue of a search after it has met `ids` in turn: each identifier not
/// seen before joins the end.
pub open spec fn discover_queue(
    queue: Seq<ObjectId>,
    seen: Set<ObjectId>,
    ids: Seq<ObjectId>,
) -> Seq<ObjectId>
    decreases ids.len(),
{
    if ids.len() == 0 {
        queue
    } else {
        let before = discover_queue(queue, seen, ids.drop_last());
        if seen.contains(ids.last()) || ids.drop_last().contains(ids.last()) {
            before
        } else {
            before.push(ids.last())
        }
    }
}

/// Meeting `a` and then `b` is meeting `a + b`.
pub proof fn lemma_discover_concat(
    queue: Seq<ObjectId>,
    seen: Set<ObjectId>,
    a: Seq<ObjectId>,
    b: Seq<ObjectId>,
)
    ensures
        discover_queue(queue, seen, a + b) == discover_queue(
            discover_queue(queue, seen, a),
            seen + a.to_set(),
            b,
        ),
    decreases b.len(),
{
    if b.len() == 0 {
        assert(a + b =~= a);
    } else {
        let ab = a + b;
        assert(ab.drop_last() =~= a + b.drop_last());
        assert(ab.last() == b.last());
        lemma_discover_concat(queue, seen, a, b.drop_last());
        let id = b.last();
        assert((seen + a.to_set()).contains(id) <==> seen.contains(id) || a.contains(id));
        assert(ab.drop_last().contains(id) <==> a.contains(id) || b.drop_last().contains(id)) by {
            if ab.drop_last().contains(id) {
                let k = choose|k: int| 0 <= k < ab.drop_last().len() && ab.drop_last()[k] == id;
                if k < a.len() {
                    assert(a[k] == id);
                } else {
                    assert(b.drop_last()[k - a.len()] == id);
                }
            }
            if a.contains(id) {
                let k = choose|k: int| 0 <= k < a.len() && a[k] == id;
                assert(ab.drop_last()[k] == id);
            }
            if b.drop_last().contains(id) {
                let k = choose|k: int| 0 <= k < b.drop_last().len() && b.drop_last()[k] == id;
                assert(ab.drop_last()[a.len() + k] == id);
            }
        }
    }
}

/// What is met joins the end of the queue, whatever the queue holds: with
/// the first `n` of the queue left out before or after, the outcome is the
/// same.
pub proof fn lemma_discover_skip(
    queue: Seq<ObjectId>,
    seen: Set<ObjectId>,
    ids: Seq<ObjectId>,
    n: int,
)
    requires
        0 <= n <= queue.len(),
    ensures
        discover_queue(queue, seen, ids).len() >= queue.len(),
        discover_queue(queue.skip(n), seen, ids) == discover_queue(queue, seen, ids).skip(n),
    decreases ids.len(),
{
    if ids.len() > 0 {
        lemma_discover_skip(queue, seen, ids.drop_last(), n);
        let before = discover_queue(queue, seen, ids.drop_last());
        assert(before.skip(n).push(ids.last()) =~= before.push(ids.last()).skip(n));
    }
}

/// Takes note of `id`: unless it was seen before, it joins the queue.
pub fn note_reference(
    id: ObjectId,
    queue: &mut VecDeque<ObjectId>,
    processed: &mut BTreeSet<ObjectId>,
)
    ensures
        final(queue)@ == discover_queue(old(queue)@, old(processed)@, seq![id]),
        final(processed)@ == old(processed)@.insert(id),
{
    proof {
        assert(seq![id].drop_last() =~= Seq::<ObjectId>::empty());
        assert(!Seq::<ObjectId>::empty().contains(id));
        assert(discover_queue(old(queue)@, old(processed)@, Seq::<ObjectId>::empty()) == old(
            queue,
        )@);
    }
    if processed.insert(id) {
        queue.push_back(id);
    }
}

/// Takes note of every identifier that `object` refers to: each one not yet
/// in `processed` is put there and joins the end of `queue`, in the order in
/// which `value_refs` lists them. Never fails.
pub fn find_references_recursive(
    object: &Object,
    queue: &mut VecDeque<ObjectId>,
    processed: &mut BTreeSet<ObjectId>,
) -> (result: Result<(), PdfError>)
    ensures
        result is Ok,
        final(queue)@ == discover_queue(old(queue)@, old(processed)@, value_refs(object@)),
        final(processed)@ == old(processed)@ + value_refs(object@).to_set(),
    decreases object@, 1nat,
{
    proof {
        object.lemma_view();
    }
    match object {
        Object::Reference(id) => {
            note_reference(*id, queue, processed);
            assert(processed@ =~= old(processed)@ + seq![*id].to_set());
        },
        Object::Array(items) => {
            let mut i: usize = 0;
            while i < items.len()
                invariant
                    i <= items.len(),
                    object@ is Array,
                    object@->Array_0.len() == items.len(),
                    forall|j: int|
                        0 <= j < items.len() ==> #[trigger] object@->Array_0[j] == items[j]@,
                    queue@ == discover_queue(
                        old(queue)@,
                        old(processed)@,
                        items_refs(object@->Array_0, i as nat),
                    ),
                    processed@ == old(processed)@ + items_refs(object@->Array_0, i as nat).to_set(),
                decreases items.len() - i,
            {
                let ghost before = items_refs(object@->Array_0, i as nat);
                let ghost step = value_refs(items[i as int]@);
                assert(object@->Array_0[i as int] == items[i as int]@);
                let _ = find_references_recursive(&items[i], queue, processed);
                proof {
                    lemma_discover_concat(old(queue)@, old(processed)@, before, step);
                    seq_to_set_distributes_over_add(before, step);
                    assert(processed@ =~= old(processed)@ + (before + step).to_set());
                }
                i += 1;
            }
            assert(processed@ =~= old(processed)@ + value_refs(object@).to_set());
        },
        Object::Dictionary(dict) => {
            assert(object@ == Value::Dictionary(dict@));
            assert(decreases_to!(object@ => object@->Dictionary_0));
            find_references_in_entries(dict, queue, processed);
        },
        Object::Stream(stream) => {
            proof {
                assert(object@ == Value::Stream(stream@));
                assert(decreases_to!(object@ => object@->Stream_0));
                assert(decreases_to!(object@->Stream_0 => object@->Stream_0.dict));
            }
            find_references_in_entries(&stream.dict, queue, processed);
        },
        _ => {
            assert(processed@ =~= old(processed)@ + value_refs(object@).to_set());
        },
    }
    Ok(())
}

/// Takes note of every identifier that the values of `dict` refer to.
fn find_references_in_entries(
    dict: &Dictionary,
    queue: &mut VecDeque<ObjectId>,
    processed: &mut BTreeSet<ObjectId>,
)
    ensures
        final(queue)@ == discover_queue(
            old(queue)@,
            old(processed)@,
            entries_refs(dict@, dict@.len()),
        ),
        final(processed)@ == old(processed)@ + entries_refs(dict@, dict@.len()).to_set(),
    decreases dict@, 0nat,
{
    let mut i: usize = 0;
    while i < dict.len()
        invariant
            i <= dict@.len(),
            queue@ == discover_queue(old(queue)@, old(processed)@, entries_refs(dict@, i as nat)),
            processed@ == old(processed)@ + entries_refs(dict@, i as nat).to_set(),
        decreases dict@.len() - i,
    {
        let ghost before = entries_refs(dict@, i as nat);
        let ghost step = value_refs(dict@[i as int].1);
        let _ = find_references_recursive(dict.value_at(i), queue, processed);
        proof {
            lemma_discover_concat(old(queue)@, old(processed)@, before, step);
            seq_to_set_distributes_over_add(before, step);
            assert(processed@ =~= old(processed)@ + (before + step).to_set());
        }
        i += 1;
    }
    proof {
        assert(processed@ =~= old(processed)@ + entries_refs(dict@, dict@.len()).to_set());
    }
}

} // verus!
