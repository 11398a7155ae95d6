//! Taking one page out of a document as a document of its own.

use crate::document::{Document, DocumentView};
use crate::error::PdfError;
use crate::object::ObjectId;
use crate::pages::{copy_failure, copy_pages, pages_copied};
use vstd::prelude::*;

verus! {

/// Why page `page_number` of `source`, whose pages are `pages` in their
/// order, cannot be extracted, or `None` if it can: the number is 0; the
/// document has no page of that number; or the page cannot be copied.
pub open spec fn extract_failure(
    source: DocumentView,
    pages: Seq<ObjectId>,
    page_number: u32,
) -> Option<PdfError> {
    if page_number == 0 {
        Some(PdfError::PageNumberZero)
    } else if page_number > pages.len() {
        Some(PdfError::PageNotFound { page: page_number, page_count: pages.len() as usize })
    } else {
        copy_failure(source, seq![pages[page_number - 1]])
    }
}

/// Makes a document of the one page of `source` that has the number
/// `page_number`, counted from 1 along `pages`, the pages of `source` in
/// their order. The new document holds a copy of the page and of all it
/// reaches, and a page tree with that one page.
pub fn extract_pdf_page(
    source: &Document,
    pages: &Vec<ObjectId>,
    page_number: u32,
) -> (result: Result<Document, PdfError>)
    ensures
        match result {
            Ok(out) => {
                &&& extract_failure(source@, pages@, page_number) is None
                &&& out.wf()
                &&& pages_copied(source@, seq![pages@[page_number - 1]], out@)
            },
            Err(error) => extract_failure(source@, pages@, page_number) == Some(error),
        },
{
    if page_number == 0 {
        return Err(PdfError::PageNumberZero);
    }
    if page_number as u128 > pages.len() as u128 {
        return Err(PdfError::PageNotFound { page: page_number, page_count: pages.len() });
    }
    let mut roots: Vec<ObjectId> = Vec::new();
    roots.push(pages[(page_number - 1) as usize]);
    assert(roots@ =~= seq![pages@[page_number - 1]]);
    copy_pages(source, &roots)
}

} // verus!
