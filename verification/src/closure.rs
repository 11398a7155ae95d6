//! What a set of objects reaches: the identifiers that can be arrived at
//! from given roots by following references, and the search that finds
//! them.

use crate::document::Document;
use crate::error::PdfError;
use crate::object::{ObjectId, Value};
use crate::refs::{discover_queue, find_references_recursive, lemma_discover_skip, value_refs};
use crate::transplant::present_ids;
use std::collections::{BTreeSet, VecDeque};
use vstd::pervasive::unreached;
use vstd::prelude::*;

verus! {

/// The object under `from` exists and refers to `to`.
pub open spec fn refers_to(objects: Map<ObjectId, Value>, from: ObjectId, to: ObjectId) -> bool {
    objects.contains_key(from) && value_refs(objects[from]).contains(to)
}

/// `path` starts at one of `roots`, and each of its identifiers names an
/// object that refers to the next.
pub open spec fn is_path(
    objects: Map<ObjectId, Value>,
    roots: Seq<ObjectId>,
    path: Seq<ObjectId>,
) -> bool {
    &&& path.len() > 0
    &&& roots.contains(path[0])
    &&& forall|i: int|
        0 <= i < path.len() - 1 ==> refers_to(objects, #[trigger] path[i], path[i + 1])
}

/// `id` is one of `roots` or can be arrived at from one of them by following
/// references through objects that exist. The object under `id` itself need
/// not exist.
pub open spec fn reachable(
    objects: Map<ObjectId, Value>,
    roots: Seq<ObjectId>,
    id: ObjectId,
) -> bool {
    exists|path: Seq<ObjectId>| is_path(objects, roots, path) && #[trigger] path.last() == id
}

/// Every identifier that a search from `roots` meets.
pub open spec fn met(objects: Map<ObjectId, Value>, roots: Seq<ObjectId>) -> Set<ObjectId> {
    Set::new(|id: ObjectId| reachable(objects, roots, id))
}

/// The closure of `roots`: the identifiers reachable from them under which
/// an object exists. A reference to an absent object adds nothing.
pub open spec fn closure(objects: Map<ObjectId, Value>, roots: Seq<ObjectId>) -> Set<ObjectId> {
    Set::new(|id: ObjectId| reachable(objects, roots, id) && objects.contains_key(id))
}

/// The number of identifiers a search may take up before it gives up: twice
/// the number of objects and of roots together.
pub open spec fn search_limit(objects: Map<ObjectId, Value>, roots: Seq<ObjectId>) -> nat {
    (2 * (objects.dom().len() + roots.len())) as nat
}

/// The work of a search: it takes up every root, as often as it is listed,
/// and once every other identifier it meets.
pub open spec fn search_work(objects: Map<ObjectId, Value>, roots: Seq<ObjectId>) -> nat {
    roots.len() + met(objects, roots).difference(roots.to_set()).len()
}

/// The search from `roots` meets finitely many identifiers and its work
/// stays within `limit`.
pub open spec fn within_limit(
    objects: Map<ObjectId, Value>,
    roots: Seq<ObjectId>,
    limit: nat,
) -> bool {
    met(objects, roots).finite() && search_work(objects, roots) <= limit
}

/// The queue of a breadth-first search from `roots` after `steps` of its
/// identifiers were looked at, from the front: the roots, and behind them,
/// for each identifier looked at that names an object and was not in the
/// queue before its place, the identifiers that this object refers to and
/// that the queue did not hold.
pub open spec fn search_queue(
    objects: Map<ObjectId, Value>,
    roots: Seq<ObjectId>,
    steps: nat,
) -> Seq<ObjectId>
    decreases steps,
{
    if steps == 0 {
        roots
    } else {
        let queue = search_queue(objects, roots, (steps - 1) as nat);
        let at = steps - 1;
        if at < queue.len() && objects.contains_key(queue[at]) && !queue.take(at).contains(
            queue[at],
        ) {
            discover_queue(queue, queue.to_set(), value_refs(objects[queue[at]]))
        } else {
            queue
        }
    }
}

/// The objects that `roots` reach, in the order in which a breadth-first
/// search meets them: the identifiers of its queue that name an object,
/// each at its first place in the queue.
pub open spec fn search_order(
    objects: Map<ObjectId, Value>,
    roots: Seq<ObjectId>,
) -> Seq<ObjectId> {
    present_ids(objects, search_queue(objects, roots, search_limit(objects, roots)))
}

/// Once a search has looked at its whole queue, the queue stays as it is.
pub proof fn lemma_search_queue_stable(
    objects: Map<ObjectId, Value>,
    roots: Seq<ObjectId>,
    from: nat,
    to: nat,
)
    requires
        search_queue(objects, roots, from).len() <= from <= to,
    ensures
        search_queue(objects, roots, to) == search_queue(objects, roots, from),
    decreases to,
{
    if to > from {
        lemma_search_queue_stable(objects, roots, from, (to - 1) as nat);
    }
}

/// A root is reachable.
pub proof fn lemma_root_reachable(objects: Map<ObjectId, Value>, roots: Seq<ObjectId>, k: int)
    requires
        0 <= k < roots.len(),
    ensures
        reachable(objects, roots, roots[k]),
{
    let path = seq![roots[k]];
    assert(is_path(objects, roots, path));
    assert(path.last() == roots[k]);
}

/// What an existing reachable object refers to is reachable.
pub proof fn lemma_reachable_step(
    objects: Map<ObjectId, Value>,
    roots: Seq<ObjectId>,
    from: ObjectId,
    to: ObjectId,
)
    requires
        reachable(objects, roots, from),
        refers_to(objects, from, to),
    ensures
        reachable(objects, roots, to),
{
    let path = choose|path: Seq<ObjectId>|
        is_path(objects, roots, path) && #[trigger] path.last() == from;
    let longer = path.push(to);
    assert forall|i: int| 0 <= i < longer.len() - 1 implies refers_to(
        objects,
        #[trigger] longer[i],
        longer[i + 1],
    ) by {
        if i < path.len() - 1 {
            assert(longer[i] == path[i]);
            assert(longer[i + 1] == path[i + 1]);
        }
    }
    assert(longer[0] == path[0]);
    assert(is_path(objects, roots, longer));
    assert(longer.last() == to);
}

/// A set that holds the roots and, with every existing object in it, what
/// that object refers to, holds everything reachable.
pub proof fn lemma_closed_set_holds_reachable(
    objects: Map<ObjectId, Value>,
    roots: Seq<ObjectId>,
    closed: Set<ObjectId>,
    id: ObjectId,
)
    requires
        forall|k: int| 0 <= k < roots.len() ==> closed.contains(#[trigger] roots[k]),
        forall|from: ObjectId, to: ObjectId|
            closed.contains(from) && #[trigger] refers_to(objects, from, to) ==> closed.contains(
                to,
            ),
        reachable(objects, roots, id),
    ensures
        closed.contains(id),
{
    let path = choose|path: Seq<ObjectId>|
        is_path(objects, roots, path) && #[trigger] path.last() == id;
    lemma_path_in_closed_set(objects, roots, closed, path, path.len() - 1);
}

proof fn lemma_path_in_closed_set(
    objects: Map<ObjectId, Value>,
    roots: Seq<ObjectId>,
    closed: Set<ObjectId>,
    path: Seq<ObjectId>,
    upto: int,
)
    requires
        forall|k: int| 0 <= k < roots.len() ==> closed.contains(#[trigger] roots[k]),
        forall|from: ObjectId, to: ObjectId|
            closed.contains(from) && #[trigger] refers_to(objects, from, to) ==> closed.contains(
                to,
            ),
        is_path(objects, roots, path),
        0 <= upto < path.len(),
    ensures
        closed.contains(path[upto]),
    decreases upto,
{
    if upto == 0 {
        let k = choose|k: int| 0 <= k < roots.len() && roots[k] == path[0];
        assert(closed.contains(roots[k]));
    } else {
        lemma_path_in_closed_set(objects, roots, closed, path, upto - 1);
        assert(refers_to(objects, path[upto - 1], path[upto - 1 + 1]));
    }
}

/// What `discover_queue` adds: the identifiers of `ids` not seen before,
/// each once, behind what the queue held.
pub proof fn lemma_discover_queue(queue: Seq<ObjectId>, seen: Set<ObjectId>, ids: Seq<ObjectId>)
    ensures
        ({
            let after = discover_queue(queue, seen, ids);
            &&& after.len() >= queue.len()
            &&& forall|j: int| 0 <= j < queue.len() ==> #[trigger] after[j] == queue[j]
            &&& forall|j: int|
                queue.len() <= j < after.len() ==> ids.contains(#[trigger] after[j])
                    && !seen.contains(after[j])
            &&& forall|i: int, j: int|
                queue.len() <= i < j < after.len() ==> #[trigger] after[i] != #[trigger] after[j]
            &&& forall|k: int|
                0 <= k < ids.len() ==> seen.contains(#[trigger] ids[k]) || exists|j: int|
                    queue.len() <= j < after.len() && #[trigger] after[j] == ids[k]
        }),
    decreases ids.len(),
{
    let after = discover_queue(queue, seen, ids);
    if ids.len() > 0 {
        let front = ids.drop_last();
        let id = ids.last();
        let before = discover_queue(queue, seen, front);
        lemma_discover_queue(queue, seen, front);
        assert forall|j: int|
            queue.len() <= j < after.len() implies ids.contains(#[trigger] after[j])
            && !seen.contains(after[j]) by {
            if j < before.len() {
                assert(after[j] == before[j]);
                assert(front.contains(before[j]));
                let k = choose|k: int| 0 <= k < front.len() && front[k] == before[j];
                assert(ids[k] == before[j]);
            } else {
                assert(after[j] == id);
                assert(ids[ids.len() - 1] == id);
            }
        }
        assert forall|i: int, j: int| queue.len() <= i < j < after.len() implies #[trigger] after[i]
            != #[trigger] after[j] by {
            if j >= before.len() {
                assert(after[j] == id);
                assert(after[i] == before[i]);
                assert(front.contains(before[i]));
            } else {
                assert(after[i] == before[i]);
                assert(after[j] == before[j]);
            }
        }
        assert forall|k: int| 0 <= k < ids.len() implies seen.contains(#[trigger] ids[k]) || exists|
            j: int,
        |
            queue.len() <= j < after.len() && #[trigger] after[j] == ids[k] by {
            if !seen.contains(ids[k]) {
                if k < front.len() {
                    assert(front[k] == ids[k]);
                    let j = choose|j: int|
                        queue.len() <= j < before.len() && #[trigger] before[j] == front[k];
                    assert(after[j] == ids[k]);
                } else {
                    if front.contains(id) {
                        let k2 = choose|k2: int| 0 <= k2 < front.len() && front[k2] == id;
                        assert(!seen.contains(front[k2]));
                        let j = choose|j: int|
                            queue.len() <= j < before.len() && #[trigger] before[j] == front[k2];
                        assert(after[j] == ids[k]);
                    } else {
                        assert(after[after.len() - 1] == ids[k]);
                    }
                }
            }
        }
    }
}


/// The state of a search is sound: the queue starts with the roots, holds
/// every other identifier once, holds reachable identifiers only, and what
/// the objects up to `head` refer to has been taken up.
pub open spec fn search_state(
    objects: Map<ObjectId, Value>,
    roots: Seq<ObjectId>,
    queue: Seq<ObjectId>,
    head: int,
) -> bool {
    &&& 0 <= head <= queue.len()
    &&& roots.len() <= queue.len()
    &&& forall|j: int| 0 <= j < roots.len() ==> #[trigger] queue[j] == roots[j]
    &&& forall|j: int| roots.len() <= j < queue.len() ==> !roots.contains(#[trigger] queue[j])
    &&& forall|i: int, j: int|
        roots.len() <= i < j < queue.len() ==> #[trigger] queue[i] != #[trigger] queue[j]
    &&& forall|j: int| 0 <= j < queue.len() ==> reachable(objects, roots, #[trigger] queue[j])
    &&& forall|j: int, to: ObjectId|
        0 <= j < head && #[trigger] refers_to(objects, queue[j], to) ==> queue.contains(to)
}

/// When a sound search has taken up its whole queue, the queue holds exactly
/// what the roots reach, and its length is the work of the search.
pub proof fn lemma_search_complete(
    objects: Map<ObjectId, Value>,
    roots: Seq<ObjectId>,
    queue: Seq<ObjectId>,
)
    requires
        search_state(objects, roots, queue, queue.len() as int),
    ensures
        queue.to_set() == met(objects, roots),
        met(objects, roots).finite(),
        search_work(objects, roots) == queue.len(),
{
    let all = queue.to_set();
    assert forall|id: ObjectId| reachable(objects, roots, id) implies all.contains(id) by {
        assert forall|from: ObjectId, to: ObjectId|
            all.contains(from) && #[trigger] refers_to(objects, from, to) implies all.contains(
            to,
        ) by {
            let j = choose|j: int| 0 <= j < queue.len() && queue[j] == from;
            assert(refers_to(objects, queue[j], to));
        }
        assert forall|k: int| 0 <= k < roots.len() implies all.contains(#[trigger] roots[k]) by {
            assert(queue[k] == roots[k]);
        }
        lemma_closed_set_holds_reachable(objects, roots, all, id);
    }
    assert(all =~= met(objects, roots));
    vstd::seq_lib::seq_to_set_is_finite(queue);
    lemma_search_count(objects, roots, queue);
}

/// The identifiers a sound search has queued behind the roots are as many
/// as the set of them, and none of them is a root.
proof fn lemma_search_count(
    objects: Map<ObjectId, Value>,
    roots: Seq<ObjectId>,
    queue: Seq<ObjectId>,
)
    requires
        roots.len() <= queue.len(),
        forall|j: int| 0 <= j < roots.len() ==> #[trigger] queue[j] == roots[j],
        forall|j: int| roots.len() <= j < queue.len() ==> !roots.contains(#[trigger] queue[j]),
        forall|i: int, j: int|
            roots.len() <= i < j < queue.len() ==> #[trigger] queue[i] != #[trigger] queue[j],
    ensures
        queue.skip(roots.len() as int).no_duplicates(),
        queue.skip(roots.len() as int).to_set() == queue.to_set().difference(roots.to_set()),
        queue.to_set().difference(roots.to_set()).len() == queue.len() - roots.len(),
{
    let found = queue.skip(roots.len() as int);
    assert(found.no_duplicates());
    assert forall|id: ObjectId| found.to_set().contains(id) <==> queue.to_set().difference(
        roots.to_set(),
    ).contains(id) by {
        if found.to_set().contains(id) {
            let j = choose|j: int| 0 <= j < found.len() && found[j] == id;
            assert(queue[roots.len() + j] == id);
        }
        if queue.to_set().contains(id) && !roots.to_set().contains(id) {
            let j = choose|j: int| 0 <= j < queue.len() && queue[j] == id;
            if j < roots.len() {
                assert(roots[j] == id);
            }
            assert(found[j - roots.len()] == id);
        }
    }
    assert(found.to_set() =~= queue.to_set().difference(roots.to_set()));
    found.unique_seq_to_set();
}

/// A sound search whose queue is longer than `limit` shows that the work of
/// the search from these roots is not within `limit`.
pub proof fn lemma_search_overrun(
    objects: Map<ObjectId, Value>,
    roots: Seq<ObjectId>,
    queue: Seq<ObjectId>,
    head: int,
    limit: nat,
)
    requires
        search_state(objects, roots, queue, head),
        queue.len() > limit,
    ensures
        !within_limit(objects, roots, limit),
{
    if met(objects, roots).finite() {
        lemma_search_count(objects, roots, queue);
        let found = queue.to_set().difference(roots.to_set());
        let all = met(objects, roots).difference(roots.to_set());
        assert(found.subset_of(all)) by {
            assert forall|id: ObjectId| found.contains(id) implies all.contains(id) by {
                let j = choose|j: int| 0 <= j < queue.len() && queue[j] == id;
                assert(reachable(objects, roots, queue[j]));
            }
        }
        vstd::set_lib::lemma_len_subset(found, all);
    }
}

/// Taking up an existing object keeps a search sound: what it refers to and
/// was not queued before joins the queue.
pub proof fn lemma_search_step(
    objects: Map<ObjectId, Value>,
    roots: Seq<ObjectId>,
    before: Seq<ObjectId>,
    head: int,
    after: Seq<ObjectId>,
)
    requires
        search_state(objects, roots, before, head),
        head < before.len(),
        objects.contains_key(before[head]),
        after == discover_queue(before, before.to_set(), value_refs(objects[before[head]])),
    ensures
        search_state(objects, roots, after, head + 1),
        after.to_set() == before.to_set() + value_refs(objects[before[head]]).to_set(),
        after.len() >= before.len(),
        forall|j: int| 0 <= j < before.len() ==> #[trigger] after[j] == before[j],
{
    let id = before[head];
    let refs = value_refs(objects[id]);
    lemma_discover_queue(before, before.to_set(), refs);
    assert(after.to_set() =~= before.to_set() + refs.to_set()) by {
        assert forall|x: ObjectId|
            after.to_set().contains(x) <==> before.to_set().contains(x) || refs.to_set().contains(
                x,
            ) by {
            if after.to_set().contains(x) {
                let j = choose|j: int| 0 <= j < after.len() && after[j] == x;
                if j < before.len() {
                    assert(before[j] == x);
                }
            }
            if before.to_set().contains(x) {
                let j = choose|j: int| 0 <= j < before.len() && before[j] == x;
                assert(after[j] == x);
            }
            if refs.to_set().contains(x) && !before.to_set().contains(x) {
                let k = choose|k: int| 0 <= k < refs.len() && refs[k] == x;
                assert(refs[k] == x);
            }
        }
    }
    assert forall|j: int| 0 <= j < roots.len() implies #[trigger] after[j] == roots[j] by {
        assert(after[j] == before[j]);
    }
    assert forall|j: int| roots.len() <= j < after.len() implies !roots.contains(
        #[trigger] after[j],
    ) by {
        if j >= before.len() {
            if roots.contains(after[j]) {
                let r = choose|r: int| 0 <= r < roots.len() && roots[r] == after[j];
                assert(before[r] == roots[r]);
                assert(before.to_set().contains(after[j]));
            }
        } else {
            assert(after[j] == before[j]);
        }
    }
    assert forall|i: int, j: int| roots.len() <= i < j < after.len() implies #[trigger] after[i]
        != #[trigger] after[j] by {
        if j >= before.len() && i < before.len() {
            assert(after[i] == before[i]);
            assert(before.to_set().contains(before[i]));
        } else if j < before.len() {
            assert(after[i] == before[i]);
            assert(after[j] == before[j]);
        }
    }
    assert forall|j: int| 0 <= j < after.len() implies reachable(
        objects,
        roots,
        #[trigger] after[j],
    ) by {
        if j >= before.len() {
            assert(refs.contains(after[j]));
            lemma_reachable_step(objects, roots, id, after[j]);
        } else {
            assert(after[j] == before[j]);
        }
    }
    assert forall|j: int, to: ObjectId|
        0 <= j < head + 1 && #[trigger] refers_to(objects, after[j], to) implies after.contains(
        to,
    ) by {
        assert(after[j] == before[j]);
        if j < head {
            assert(before.contains(to));
            let t = choose|t: int| 0 <= t < before.len() && before[t] == to;
            assert(after[t] == to);
        } else {
            let k = choose|k: int| 0 <= k < refs.len() && refs[k] == to;
            assert(refs.to_set().contains(refs[k]));
            assert(after.to_set().contains(to));
        }
    }
}

/// Passing over an identifier under which nothing exists, or one that was
/// taken up before, keeps a search sound.
pub proof fn lemma_search_skip(
    objects: Map<ObjectId, Value>,
    roots: Seq<ObjectId>,
    queue: Seq<ObjectId>,
    head: int,
)
    requires
        search_state(objects, roots, queue, head),
        head < queue.len(),
        !objects.contains_key(queue[head]) || exists|j: int|
            0 <= j < head && #[trigger] queue[j] == queue[head],
    ensures
        search_state(objects, roots, queue, head + 1),
{
    assert forall|j: int, to: ObjectId|
        0 <= j < head + 1 && #[trigger] refers_to(objects, queue[j], to) implies queue.contains(
        to,
    ) by {
        if j == head {
            let j0 = choose|j0: int| 0 <= j0 < head && #[trigger] queue[j0] == queue[head];
            assert(refers_to(objects, queue[j0], to));
        }
    }
}

/// The objects taken up so far: `done` holds the identifiers among the
/// first `head` of `queue` under which an object exists.
pub open spec fn taken_up(
    objects: Map<ObjectId, Value>,
    queue: Seq<ObjectId>,
    head: int,
    done: Set<ObjectId>,
) -> bool {
    forall|id: ObjectId|
        done.contains(id) <==> objects.contains_key(id) && exists|j: int|
            0 <= j < head && #[trigger] queue[j] == id
}

proof fn lemma_taken_up_next(
    objects: Map<ObjectId, Value>,
    before: Seq<ObjectId>,
    after: Seq<ObjectId>,
    head: int,
    done: Set<ObjectId>,
)
    requires
        taken_up(objects, before, head, done),
        0 <= head < before.len() <= after.len(),
        forall|j: int| 0 <= j < before.len() ==> #[trigger] after[j] == before[j],
    ensures
        objects.contains_key(before[head]) ==> taken_up(
            objects,
            after,
            head + 1,
            done.insert(before[head]),
        ),
        !objects.contains_key(before[head]) || done.contains(before[head]) ==> taken_up(
            objects,
            after,
            head + 1,
            done,
        ),
{
    let id = before[head];
    if objects.contains_key(id) {
        let more = done.insert(id);
        assert forall|x: ObjectId|
            more.contains(x) <==> objects.contains_key(x) && exists|j: int|
                0 <= j < head + 1 && #[trigger] after[j] == x by {
            if more.contains(x) {
                if x == id {
                    assert(after[head] == x);
                } else {
                    let j = choose|j: int| 0 <= j < head && #[trigger] before[j] == x;
                    assert(after[j] == x);
                }
            }
            if objects.contains_key(x) && exists|j: int|
                0 <= j < head + 1 && #[trigger] after[j] == x {
                let j = choose|j: int| 0 <= j < head + 1 && #[trigger] after[j] == x;
                assert(after[j] == before[j]);
            }
        }
    }
    if !objects.contains_key(id) || done.contains(id) {
        assert forall|x: ObjectId|
            done.contains(x) <==> objects.contains_key(x) && exists|j: int|
                0 <= j < head + 1 && #[trigger] after[j] == x by {
            if done.contains(x) {
                let j = choose|j: int| 0 <= j < head && #[trigger] before[j] == x;
                assert(after[j] == x);
            }
            if objects.contains_key(x) && exists|j: int|
                0 <= j < head + 1 && #[trigger] after[j] == x {
                let j = choose|j: int| 0 <= j < head + 1 && #[trigger] after[j] == x;
                assert(after[j] == before[j]);
                if j == head {
                    assert(done.contains(x));
                }
            }
        }
    }
}

/// A sequence without repetition stays so when something new joins it.
proof fn lemma_push_new(order: Seq<ObjectId>, id: ObjectId)
    requires
        order.no_duplicates(),
        !order.to_set().contains(id),
    ensures
        order.push(id).no_duplicates(),
        order.push(id).to_set() == order.to_set().insert(id),
{
    let longer = order.push(id);
    assert forall|i: int, j: int| 0 <= i < j < longer.len() implies longer[i] != longer[j] by {
        if j == order.len() {
            assert(longer[i] == order[i]);
            assert(order.to_set().contains(order[i]));
        } else {
            assert(longer[i] == order[i]);
            assert(longer[j] == order[j]);
        }
    }
    order.lemma_push_to_set_commute(id);
}

/// The identifiers of the objects that `roots` reach in `source`, each
/// once, in the order in which a breadth-first search from the roots meets
/// them. Identifiers under which `source` holds nothing are passed over.
/// Fails when the work of the search exceeds `search_limit`.
pub fn collect_reachable(
    source: &Document,
    roots: &[ObjectId],
) -> (result: Result<Vec<ObjectId>, PdfError>)
    ensures
        match result {
            Ok(order) => {
                &&& within_limit(
                    source@.objects,
                    roots@,
                    search_limit(source@.objects, roots@),
                )
                &&& order@ == search_order(source@.objects, roots@)
                &&& order@.no_duplicates()
                &&& order@.to_set() == closure(source@.objects, roots@)
            },
            Err(error) => {
                &&& !within_limit(source@.objects, roots@, search_limit(source@.objects, roots@))
                &&& error == (PdfError::LoopLimit {
                    limit: search_limit(source@.objects, roots@) as u128,
                })
            },
        },
{
    let ghost objects = source@.objects;
    let limit: u128 = 2 * (source.len() as u128 + roots.len() as u128);
    let mut queue: VecDeque<ObjectId> = VecDeque::new();
    let mut processed: BTreeSet<ObjectId> = BTreeSet::new();
    let mut k: usize = 0;
    while k < roots.len()
        invariant
            k <= roots.len(),
            queue@ == roots@.take(k as int),
            processed@ == queue@.to_set(),
        decreases roots.len() - k,
    {
        queue.push_back(roots[k]);
        processed.insert(roots[k]);
        proof {
            assert(queue@ =~= roots@.take(k + 1));
            assert(processed@ =~= queue@.to_set()) by {
                assert(roots@.take(k + 1) =~= roots@.take(k as int).push(roots@[k as int]));
                roots@.take(k as int).lemma_push_to_set_commute(roots@[k as int]);
            }
        }
        k += 1;
    }
    // Everything that was ever queued, in the order in which it was queued;
    // the queue holds what of it is still to be looked at.
    let ghost mut history: Seq<ObjectId> = queue@;
    proof {
        assert(roots@.take(roots@.len() as int) =~= roots@);
        assert forall|j: int| 0 <= j < history.len() implies reachable(
            objects,
            roots@,
            #[trigger] history[j],
        ) by {
            lemma_root_reachable(objects, roots@, j);
        }
        assert(history.take(0) =~= Seq::<ObjectId>::empty());
        assert(history.skip(0) =~= history);
    }
    let mut done: BTreeSet<ObjectId> = BTreeSet::new();
    let mut order: Vec<ObjectId> = Vec::new();
    let mut head: u128 = 0;
    while queue.len() > 0
        invariant
            objects == source@.objects,
            limit == search_limit(objects, roots@),
            search_state(objects, roots@, history, head as int),
            queue@ == history.skip(head as int),
            processed@ == history.to_set(),
            order@.no_duplicates(),
            done@ == order@.to_set(),
            taken_up(objects, history, head as int, done@),
            head <= limit,
            history == search_queue(objects, roots@, head as nat),
            order@ == present_ids(objects, history.take(head as int)),
        decreases limit - head,
    {
        if head >= limit {
            proof {
                lemma_search_overrun(objects, roots@, history, head as int, limit as nat);
            }
            return Err(PdfError::LoopLimit { limit });
        }
        let ghost before = history;
        let ghost done_before = done@;
        let id = match queue.pop_front() {
            Some(id) => id,
            None => unreached(),
        };
        proof {
            assert(id == before[head as int]);
            assert(queue@ =~= before.skip(head + 1));
            assert(before.take(head as int).contains(id) <==> exists|j: int|
                0 <= j < head && #[trigger] before[j] == id) by {
                let front = before.take(head as int);
                if front.contains(id) {
                    let j = choose|j: int| 0 <= j < front.len() && front[j] == id;
                    assert(before[j] == id);
                }
                if exists|j: int| 0 <= j < head && #[trigger] before[j] == id {
                    let j = choose|j: int| 0 <= j < head && #[trigger] before[j] == id;
                    assert(front[j] == id);
                }
            }
        }
        if done.contains(&id) {
            proof {
                lemma_search_skip(objects, roots@, before, head as int);
                lemma_taken_up_next(objects, before, before, head as int, done_before);
            }
        } else {
            match source.get_object(id) {
                Some(object) => {
                    let _ = find_references_recursive(object, &mut queue, &mut processed);
                    proof {
                        let refs = value_refs(object@);
                        history = discover_queue(before, before.to_set(), refs);
                        lemma_discover_skip(before, before.to_set(), refs, head + 1);
                        lemma_search_step(objects, roots@, before, head as int, history);
                        lemma_taken_up_next(objects, before, history, head as int, done_before);
                        lemma_push_new(order@, id);
                    }
                    order.push(id);
                    done.insert(id);
                },
                None => {
                    proof {
                        lemma_search_skip(objects, roots@, before, head as int);
                        lemma_taken_up_next(objects, before, before, head as int, done_before);
                    }
                },
            }
        }
        proof {
            let next = history.take(head + 1);
            assert(next.drop_last() =~= before.take(head as int));
            assert(next.last() == id);
        }
        head += 1;
    }
    proof {
        assert(history.len() == head) by {
            assert(history.skip(head as int).len() == 0);
        }
        assert(history.take(history.len() as int) =~= history);
        lemma_search_queue_stable(objects, roots@, head as nat, limit as nat);
        lemma_search_complete(objects, roots@, history);
        assert(order@.to_set() =~= closure(objects, roots@)) by {
            assert forall|x: ObjectId|
                order@.to_set().contains(x) <==> closure(objects, roots@).contains(x) by {
                if order@.to_set().contains(x) {
                    assert(done@.contains(x));
                    let j = choose|j: int| 0 <= j < head && #[trigger] history[j] == x;
                    assert(reachable(objects, roots@, history[j]));
                }
                if closure(objects, roots@).contains(x) {
                    assert(met(objects, roots@).contains(x));
                    assert(history.to_set().contains(x));
                    let j = choose|j: int| 0 <= j < history.len() && history[j] == x;
                    assert(history[j] == x);
                    assert(done@.contains(x));
                }
            }
        }
    }
    Ok(order)
}

} // verus!
