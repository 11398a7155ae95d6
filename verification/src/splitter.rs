//! Taking a list of pages out of a document as a document of their own.

use crate::document::{Document, DocumentView};
use crate::error::PdfError;
use crate::object::ObjectId;
use crate::pages::{copy_failure, copy_pages, pages_copied};
use vstd::prelude::*;

verus! {

/// Index of the first of `numbers`, at or after `from`, that is not the
/// number of one of `page_count` pages, or the length of `numbers` if all
/// are.
pub open spec fn first_unknown_page(page_count: nat, numbers: Seq<u32>, from: int) -> int
    decreases numbers.len() - from,
{
    if from < 0 || from >= numbers.len() {
        numbers.len() as int
    } else if numbers[from] == 0 || numbers[from] > page_count {
        from
    } else {
        first_unknown_page(page_count, numbers, from + 1)
    }
}

/// The pages that `numbers` ask for, in the order of `numbers`: page number
/// `k` is the `k`-th of `pages`, counted from 1.
pub open spec fn requested_pages(pages: Seq<ObjectId>, numbers: Seq<u32>) -> Seq<ObjectId> {
    numbers.map_values(|number: u32| pages[number - 1])
}

/// Why the pages `numbers` of `source` cannot be split off, or `None` if
/// they can: the list is empty; a number is 0 or the document has no page
/// of that number (the first such number decides); or the pages cannot be
/// copied.
pub open spec fn split_failure(
    source: DocumentView,
    pages: Seq<ObjectId>,
    numbers: Seq<u32>,
) -> Option<PdfError> {
    let bad = first_unknown_page(pages.len(), numbers, 0);
    if numbers.len() == 0 {
        Some(PdfError::EmptyPageList)
    } else if bad < numbers.len() {
        if numbers[bad] == 0 {
            Some(PdfError::ZeroInPageList)
        } else {
            Some(PdfError::PageNotFound { page: numbers[bad], page_count: pages.len() as usize })
        }
    } else {
        copy_failure(source, requested_pages(pages, numbers))
    }
}

/// `first_unknown_page` stays within bounds, names an unknown number, and
/// passes none on its way.
pub proof fn lemma_first_unknown_page(page_count: nat, numbers: Seq<u32>, from: int)
    requires
        0 <= from <= numbers.len(),
    ensures
        from <= first_unknown_page(page_count, numbers, from) <= numbers.len(),
        first_unknown_page(page_count, numbers, from) < numbers.len() ==> {
            let bad = numbers[first_unknown_page(page_count, numbers, from)];
            bad == 0 || bad > page_count
        },
        forall|i: int|
            from <= i < first_unknown_page(page_count, numbers, from) ==> 1 <= #[trigger] numbers[i]
                <= page_count,
    decreases numbers.len() - from,
{
    if from < numbers.len() && !(numbers[from] == 0 || numbers[from] > page_count) {
        lemma_first_unknown_page(page_count, numbers, from + 1);
    }
}

/// Makes a document of the pages of `source` that `numbers` ask for, in
/// the order of `numbers`. A page that is asked for twice is copied once
/// and listed twice. `pages` are the pages of `source` in their order, and
/// page numbers count from 1 along them.
pub fn split_pdf(
    source: &Document,
    pages: &Vec<ObjectId>,
    numbers: &Vec<u32>,
) -> (result: Result<Document, PdfError>)
    ensures
        match result {
            Ok(out) => {
                &&& split_failure(source@, pages@, numbers@) is None
                &&& out.wf()
                &&& pages_copied(source@, requested_pages(pages@, numbers@), out@)
            },
            Err(error) => split_failure(source@, pages@, numbers@) == Some(error),
        },
{
    if numbers.len() == 0 {
        return Err(PdfError::EmptyPageList);
    }
    let mut roots: Vec<ObjectId> = Vec::new();
    let mut i: usize = 0;
    while i < numbers.len()
        invariant
            i <= numbers.len(),
            roots@ == requested_pages(pages@, numbers@.take(i as int)),
            first_unknown_page(pages@.len(), numbers@, 0) == first_unknown_page(
                pages@.len(),
                numbers@,
                i as int,
            ),
        decreases numbers.len() - i,
    {
        let number = numbers[i];
        if number == 0 {
            return Err(PdfError::ZeroInPageList);
        }
        if number as u128 > pages.len() as u128 {
            return Err(PdfError::PageNotFound { page: number, page_count: pages.len() });
        }
        roots.push(pages[(number - 1) as usize]);
        proof {
            assert(numbers@.take(i + 1) =~= numbers@.take(i as int).push(number));
            assert(roots@ =~= requested_pages(pages@, numbers@.take(i + 1)));
        }
        i += 1;
    }
    proof {
        assert(numbers@.take(numbers@.len() as int) =~= numbers@);
    }
    copy_pages(source, &roots)
}

} // verus!
