//! Turning pages by quarter turns.

use crate::document::{Document, DocumentView};
use crate::error::PdfError;
use crate::names::{name_bytes, name_key, name_vec};
use crate::object::{entries_get, entries_set, Entries, Object, ObjectId, Value};
use crate::pages::{check_pages, first_unusable, lemma_first_unusable, usable_page};
use crate::splitter::{first_unknown_page, requested_pages};
use vstd::pervasive::unreached;
use vstd::prelude::*;

verus! {

/// The angles by which a page can be turned.
pub open spec fn allowed_angle(angle: i32) -> bool {
    angle == 0 || angle == 90 || angle == 180 || angle == 270 || angle == -90 || angle == -180
        || angle == -270
}

/// The rotation stored after a page with rotation `current` is turned by
/// `angle`: their sum modulo 360, which is the one number from 0 up to but
/// not including 360 that differs from the sum by a multiple of 360.
pub open spec fn turned(current: i64, angle: i32) -> i64 {
    ((current + angle) % 360) as i64
}

/// The rotation that a page dictionary holds: the integer under `Rotate`,
/// or 0 where there is none.
pub open spec fn current_rotation(entries: Entries) -> i64 {
    match entries_get(entries, name_bytes("Rotate")) {
        Some(Value::Integer(n)) => n,
        _ => 0,
    }
}

/// `value`, a page, turned by `angle`; a value that is not a dictionary is
/// left as it is.
pub open spec fn with_rotation(value: Value, angle: i32) -> Value {
    match value {
        Value::Dictionary(entries) => Value::Dictionary(
            entries_set(
                entries,
                name_bytes("Rotate"),
                Value::Integer(turned(current_rotation(entries), angle)),
            ),
        ),
        _ => value,
    }
}

/// `objects` after each of `targets` was turned by `angle`, one after the
/// other; a page that is listed twice is turned twice.
pub open spec fn rotated_objects(
    objects: Map<ObjectId, Value>,
    targets: Seq<ObjectId>,
    angle: i32,
) -> Map<ObjectId, Value>
    decreases targets.len(),
{
    if targets.len() == 0 {
        objects
    } else {
        let before = rotated_objects(objects, targets.drop_last(), angle);
        before.insert(targets.last(), with_rotation(before[targets.last()], angle))
    }
}

/// The pages to turn: those that `numbers` ask for, or all of `pages` where
/// `numbers` is empty.
pub open spec fn rotation_targets(pages: Seq<ObjectId>, numbers: Seq<u32>) -> Seq<ObjectId> {
    if numbers.len() == 0 {
        pages
    } else {
        requested_pages(pages, numbers)
    }
}

/// Why the pages cannot be turned, or `None` if they can: the angle is not
/// allowed; the document has no page of a number asked for (the first such
/// number decides); or a page to turn is no object of the document or not a
/// dictionary (the first such page decides).
pub open spec fn rotate_failure(
    doc: DocumentView,
    pages: Seq<ObjectId>,
    numbers: Seq<u32>,
    angle: i32,
) -> Option<PdfError> {
    let unknown = first_unknown_page(pages.len(), numbers, 0);
    let targets = rotation_targets(pages, numbers);
    let bad = first_unusable(doc.objects, targets, 0);
    if !allowed_angle(angle) {
        Some(PdfError::InvalidRotation { angle })
    } else if unknown < numbers.len() {
        Some(PdfError::PageNotFound { page: numbers[unknown], page_count: pages.len() as usize })
    } else if bad < targets.len() {
        if doc.objects.contains_key(targets[bad]) {
            Some(PdfError::NotADictionary { number: targets[bad].0, generation: targets[bad].1 })
        } else {
            Some(PdfError::PageNotMapped { number: targets[bad].0, generation: targets[bad].1 })
        }
    } else {
        None
    }
}

/// The rotation stored after a turn by `angle`.
pub fn turn(current: i64, angle: i32) -> (rotation: i64)
    ensures
        rotation == turned(current, angle),
{
    let sum: i128 = current as i128 + angle as i128;
    if sum >= 0 {
        (sum % 360) as i64
    } else {
        let rest: i128 = (-sum) % 360;
        if rest == 0 {
            0
        } else {
            (360 - rest) as i64
        }
    }
}

/// A page stays a dictionary when it is turned, and its rotation is then
/// what `turned` says.
pub proof fn lemma_with_rotation(value: Value, angle: i32)
    requires
        value is Dictionary,
    ensures
        with_rotation(value, angle) is Dictionary,
        current_rotation(with_rotation(value, angle)->Dictionary_0) == turned(
            current_rotation(value->Dictionary_0),
            angle,
        ),
{
    let entries = value->Dictionary_0;
    crate::object::lemma_get_after_set(
        entries,
        name_bytes("Rotate"),
        Value::Integer(turned(current_rotation(entries), angle)),
        name_bytes("Rotate"),
    );
}

/// Turning pages changes no object but the pages, and leaves every object
/// of the kind it was.
pub proof fn lemma_rotated_objects(
    objects: Map<ObjectId, Value>,
    targets: Seq<ObjectId>,
    angle: i32,
)
    requires
        forall|i: int| 0 <= i < targets.len() ==> usable_page(objects, #[trigger] targets[i]),
    ensures
        rotated_objects(objects, targets, angle).dom() == objects.dom(),
        forall|id: ObjectId|
            objects.contains_key(id) ==> (#[trigger] rotated_objects(objects, targets, angle)[id]
                is Dictionary <==> objects[id] is Dictionary),
        forall|id: ObjectId|
            objects.contains_key(id) && !targets.contains(id) ==> #[trigger] rotated_objects(
                objects,
                targets,
                angle,
            )[id] == objects[id],
    decreases targets.len(),
{
    if targets.len() > 0 {
        let front = targets.drop_last();
        let last = targets.last();
        assert forall|i: int|
            0 <= i < front.len() implies usable_page(objects, #[trigger] front[i]) by {
            assert(front[i] == targets[i]);
        }
        lemma_rotated_objects(objects, front, angle);
        let before = rotated_objects(objects, front, angle);
        assert(usable_page(objects, targets[targets.len() - 1]));
        assert(before.dom().contains(last));
        assert(before.insert(last, with_rotation(before[last], angle)).dom() =~= objects.dom());
        assert forall|id: ObjectId|
            objects.contains_key(id) && !targets.contains(id) implies #[trigger] rotated_objects(
            objects,
            targets,
            angle,
        )[id] == objects[id] by {
            assert(targets[targets.len() - 1] == last);
            if front.contains(id) {
                let k = choose|k: int| 0 <= k < front.len() && front[k] == id;
                assert(targets[k] == id);
            }
        }
    }
}

/// Turns pages of `doc` by `rotation`: those that `numbers` ask for, or
/// every page where `numbers` is empty. `pages` are the pages of `doc` in
/// their order, and page numbers count from 1 along them. A page is turned
/// by having the rotation it holds replaced by `turned` of it; a page that
/// holds none counts as holding 0.
///
/// Fails, and leaves `doc` as it was, for the reasons that `rotate_failure`
/// gives.
#[verifier::loop_isolation(false)]
pub fn rotate_pdf(
    doc: &mut Document,
    pages: &Vec<ObjectId>,
    numbers: &Vec<u32>,
    rotation: i32,
) -> (result: Result<(), PdfError>)
    requires
        old(doc).wf(),
    ensures
        final(doc).wf(),
        match result {
            Ok(()) => {
                &&& rotate_failure(old(doc)@, pages@, numbers@, rotation) is None
                &&& final(doc)@ == (DocumentView {
                    objects: rotated_objects(
                        old(doc)@.objects,
                        rotation_targets(pages@, numbers@),
                        rotation,
                    ),
                    ..old(doc)@
                })
            },
            Err(error) => {
                &&& final(doc)@ == old(doc)@
                &&& rotate_failure(old(doc)@, pages@, numbers@, rotation) == Some(error)
            },
        },
{
    if !(rotation == 0 || rotation == 90 || rotation == 180 || rotation == 270 || rotation == -90
        || rotation == -180 || rotation == -270) {
        return Err(PdfError::InvalidRotation { angle: rotation });
    }
    let ghost before = doc@;
    let mut targets: Vec<ObjectId> = Vec::new();
    if numbers.len() == 0 {
        let mut i: usize = 0;
        while i < pages.len()
            invariant
                i <= pages.len(),
                targets@ == pages@.take(i as int),
            decreases pages.len() - i,
        {
            targets.push(pages[i]);
            assert(targets@ =~= pages@.take(i + 1));
            i += 1;
        }
        assert(pages@.take(pages@.len() as int) =~= pages@);
    } else {
        let mut i: usize = 0;
        while i < numbers.len()
            invariant
                i <= numbers.len(),
                targets@ == requested_pages(pages@, numbers@.take(i as int)),
                first_unknown_page(pages@.len(), numbers@, 0) == first_unknown_page(
                    pages@.len(),
                    numbers@,
                    i as int,
                ),
            decreases numbers.len() - i,
        {
            let number = numbers[i];
            if number == 0 || number as u128 > pages.len() as u128 {
                return Err(PdfError::PageNotFound { page: number, page_count: pages.len() });
            }
            targets.push(pages[(number - 1) as usize]);
            proof {
                assert(numbers@.take(i + 1) =~= numbers@.take(i as int).push(number));
                assert(targets@ =~= requested_pages(pages@, numbers@.take(i + 1)));
            }
            i += 1;
        }
        assert(numbers@.take(numbers@.len() as int) =~= numbers@);
    }
    match check_pages(doc, &targets) {
        Ok(()) => {},
        Err(error) => {
            return Err(error);
        },
    }
    proof {
        lemma_first_unusable(before.objects, targets@, 0);
    }
    let mut i: usize = 0;
    while i < targets.len()
        invariant
            i <= targets.len(),
            before == old(doc)@,
            doc.wf(),
            forall|j: int|
                0 <= j < targets@.len() ==> usable_page(before.objects, #[trigger] targets@[j]),
            doc@ == (DocumentView {
                objects: rotated_objects(before.objects, targets@.take(i as int), rotation),
                ..before
            }),
        decreases targets.len() - i,
    {
        let id = targets[i];
        let ghost stage = doc@;
        proof {
            let done = targets@.take(i as int);
            assert forall|j: int| 0 <= j < done.len() implies usable_page(
                before.objects,
                #[trigger] done[j],
            ) by {
                assert(done[j] == targets@[j]);
            }
            lemma_rotated_objects(before.objects, done, rotation);
            assert(usable_page(before.objects, targets@[i as int]));
            assert(stage.objects.dom().contains(id));
        }
        let mut page = match doc.get_object(id) {
            Some(object) => match object.as_dict() {
                Some(dict) => dict.clone(),
                None => unreached(),
            },
            None => unreached(),
        };
        let current: i64 = match page.get(name_key("Rotate")) {
            Some(object) => match object.as_i64() {
                Some(n) => n,
                None => 0,
            },
            None => 0,
        };
        let stored = Object::Integer(turn(current, rotation));
        proof {
            stored.lemma_view();
        }
        page.set(name_vec("Rotate"), stored);
        let replaced = Object::Dictionary(page);
        proof {
            replaced.lemma_view();
            assert(replaced@ == with_rotation(stage.objects[id], rotation));
        }
        doc.insert_object(id, replaced);
        proof {
            let next = targets@.take(i + 1);
            assert(next.drop_last() =~= targets@.take(i as int));
            assert(next.last() == id);
            assert(id.0 <= before.max_id);
        }
        i += 1;
    }
    proof {
        assert(targets@.take(targets@.len() as int) =~= targets@);
    }
    Ok(())
}

} // verus!
