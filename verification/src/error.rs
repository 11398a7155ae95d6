//! The failures the operations report.

use crate::text::{decimal_text, id_text, push_decimal, push_id};
use vstd::prelude::*;
use vstd::string::StringExecFns;

verus! {

/// The broad classes of failure.
#[derive(Clone, Copy, Debug, PartialEq, Eq, Structural)]
pub enum ErrorKind {
    /// The request itself is unacceptable, whatever the document holds.
    InvalidArgument,
    /// The request names something the document does not have.
    NotFound,
    /// The graph could not be put together consistently.
    GraphIntegrity,
}

/// Why an operation failed.
#[derive(Clone, Copy, Debug, PartialEq, Eq, Structural)]
pub enum PdfError {
    /// A single page was asked for by number 0.
    PageNumberZero,
    /// The list of pages to copy is empty.
    EmptyPageList,
    /// The list of pages to delete is empty.
    EmptyDeleteList,
    /// A list of pages to copy holds the number 0.
    ZeroInPageList,
    /// A page number outside `1..=page_count` where only these are accepted.
    InvalidPageNumber { page: u32, last: u32 },
    /// A page number that the document has no page for.
    PageNotFound { page: u32, page_count: usize },
    /// No document was given to merge.
    NoInput,
    /// A rotation that is not a multiple of a quarter turn within one turn.
    InvalidRotation { angle: i32 },
    /// The search for reachable objects met more identifiers than its limit.
    LoopLimit { limit: u128 },
    /// The counter of identifiers cannot go further.
    IdentifiersExhausted,
    /// There are more pages than a count can hold.
    TooManyPages,
    /// A shifted identifier is already taken in the target.
    IdentifierCollision,
    /// The document that is to take up pages has no node to list them in.
    NoPageTree,
    /// An object that was copied is not in the target.
    MissingCopy { number: u32, generation: u16 },
    /// A page that was to be copied has no counterpart.
    PageNotMapped { number: u32, generation: u16 },
    /// A page, or a node of the page tree, is not a dictionary.
    NotADictionary { number: u32, generation: u16 },
}

impl PdfError {
    /// The class this failure belongs to.
    pub open spec fn spec_kind(self) -> ErrorKind {
        match self {
            PdfError::PageNumberZero => ErrorKind::InvalidArgument,
            PdfError::EmptyPageList => ErrorKind::InvalidArgument,
            PdfError::EmptyDeleteList => ErrorKind::InvalidArgument,
            PdfError::ZeroInPageList => ErrorKind::InvalidArgument,
            PdfError::InvalidPageNumber { .. } => ErrorKind::InvalidArgument,
            PdfError::NoInput => ErrorKind::InvalidArgument,
            PdfError::InvalidRotation { .. } => ErrorKind::InvalidArgument,
            PdfError::PageNotFound { .. } => ErrorKind::NotFound,
            PdfError::LoopLimit { .. } => ErrorKind::GraphIntegrity,
            PdfError::IdentifiersExhausted => ErrorKind::GraphIntegrity,
            PdfError::TooManyPages => ErrorKind::GraphIntegrity,
            PdfError::IdentifierCollision => ErrorKind::GraphIntegrity,
            PdfError::NoPageTree => ErrorKind::GraphIntegrity,
            PdfError::MissingCopy { .. } => ErrorKind::GraphIntegrity,
            PdfError::PageNotMapped { .. } => ErrorKind::GraphIntegrity,
            PdfError::NotADictionary { .. } => ErrorKind::GraphIntegrity,
        }
    }

    /// The class this failure belongs to.
    #[verifier::when_used_as_spec(spec_kind)]
    pub fn kind(self) -> (kind: ErrorKind)
        ensures
            kind == self.spec_kind(),
    {
        match self {
            PdfError::PageNumberZero => ErrorKind::InvalidArgument,
            PdfError::EmptyPageList => ErrorKind::InvalidArgument,
            PdfError::EmptyDeleteList => ErrorKind::InvalidArgument,
            PdfError::ZeroInPageList => ErrorKind::InvalidArgument,
            PdfError::InvalidPageNumber { .. } => ErrorKind::InvalidArgument,
            PdfError::NoInput => ErrorKind::InvalidArgument,
            PdfError::InvalidRotation { .. } => ErrorKind::InvalidArgument,
            PdfError::PageNotFound { .. } => ErrorKind::NotFound,
            PdfError::LoopLimit { .. } => ErrorKind::GraphIntegrity,
            PdfError::IdentifiersExhausted => ErrorKind::GraphIntegrity,
            PdfError::TooManyPages => ErrorKind::GraphIntegrity,
            PdfError::IdentifierCollision => ErrorKind::GraphIntegrity,
            PdfError::NoPageTree => ErrorKind::GraphIntegrity,
            PdfError::MissingCopy { .. } => ErrorKind::GraphIntegrity,
            PdfError::PageNotMapped { .. } => ErrorKind::GraphIntegrity,
            PdfError::NotADictionary { .. } => ErrorKind::GraphIntegrity,
        }
    }
}


impl PdfError {
    /// What the failure is, in words.
    pub open spec fn message_text(self) -> Seq<char> {
        match self {
            PdfError::PageNumberZero => "Page number must be 1-based (greater than 0)."@,
            PdfError::EmptyPageList => "The list of pages to extract cannot be empty."@,
            PdfError::EmptyDeleteList => "The list of pages to delete cannot be empty."@,
            PdfError::ZeroInPageList => "Invalid page number: 0. Page numbers must be 1-based."@,
            PdfError::InvalidPageNumber { page, last } => "Invalid page number: "@ + decimal_text(
                page as nat,
            ) + ". Page numbers must be between 1 and "@ + decimal_text(last as nat) + "."@,
            PdfError::PageNotFound { page, page_count } => "Page number "@ + decimal_text(
                page as nat,
            ) + " not found in document (which has "@ + decimal_text(page_count as nat)
                + " pages)."@,
            PdfError::NoInput => "No PDF files provided for merging."@,
            PdfError::InvalidRotation { angle } =>
                "Invalid rotation angle. Must be one of 0, 90, 180, 270."@,
            PdfError::LoopLimit { limit } => "Deep copy loop exceeded limit ("@ + decimal_text(
                limit as nat,
            ) + ")"@,
            PdfError::IdentifiersExhausted => "No object identifier is left to allocate."@,
            PdfError::TooManyPages => "The page tree cannot count that many pages."@,
            PdfError::IdentifierCollision =>
                "A shifted object identifier is already in use in the target document."@,
            PdfError::NoPageTree => "The first document has no page tree to append pages to."@,
            PdfError::MissingCopy { number, generation } => "Failed to retrieve copied object "@
                + id_text(number, generation) + " during reference update"@,
            PdfError::PageNotMapped { number, generation } => "Internal error: page object "@
                + id_text(number, generation) + " not found in document."@,
            PdfError::NotADictionary { number, generation } => "Internal error: page object "@
                + id_text(number, generation) + " is not a dictionary."@,
        }
    }

    /// What the failure is, in words.
    pub fn message(self) -> (text: String)
        ensures
            text@ == self.message_text(),
    {
        match self {
            PdfError::PageNumberZero => String::from_str(
                "Page number must be 1-based (greater than 0).",
            ),
            PdfError::EmptyPageList => String::from_str(
                "The list of pages to extract cannot be empty.",
            ),
            PdfError::EmptyDeleteList => String::from_str(
                "The list of pages to delete cannot be empty.",
            ),
            PdfError::ZeroInPageList => String::from_str(
                "Invalid page number: 0. Page numbers must be 1-based.",
            ),
            PdfError::InvalidPageNumber { page, last } => {
                let mut text = String::from_str("Invalid page number: ");
                push_decimal(&mut text, page as u128);
                text.append(". Page numbers must be between 1 and ");
                push_decimal(&mut text, last as u128);
                text.append(".");
                text
            },
            PdfError::PageNotFound { page, page_count } => {
                let mut text = String::from_str("Page number ");
                push_decimal(&mut text, page as u128);
                text.append(" not found in document (which has ");
                push_decimal(&mut text, page_count as u128);
                text.append(" pages).");
                text
            },
            PdfError::NoInput => String::from_str("No PDF files provided for merging."),
            PdfError::InvalidRotation { angle } => String::from_str(
                "Invalid rotation angle. Must be one of 0, 90, 180, 270.",
            ),
            PdfError::LoopLimit { limit } => {
                let mut text = String::from_str("Deep copy loop exceeded limit (");
                push_decimal(&mut text, limit);
                text.append(")");
                text
            },
            PdfError::IdentifiersExhausted => String::from_str(
                "No object identifier is left to allocate.",
            ),
            PdfError::TooManyPages => String::from_str(
                "The page tree cannot count that many pages.",
            ),
            PdfError::IdentifierCollision => String::from_str(
                "A shifted object identifier is already in use in the target document.",
            ),
            PdfError::NoPageTree => String::from_str(
                "The first document has no page tree to append pages to.",
            ),
            PdfError::MissingCopy { number, generation } => {
                let mut text = String::from_str("Failed to retrieve copied object ");
                push_id(&mut text, number, generation);
                text.append(" during reference update");
                text
            },
            PdfError::PageNotMapped { number, generation } => {
                let mut text = String::from_str("Internal error: page object ");
                push_id(&mut text, number, generation);
                text.append(" not found in document.");
                text
            },
            PdfError::NotADictionary { number, generation } => {
                let mut text = String::from_str("Internal error: page object ");
                push_id(&mut text, number, generation);
                text.append(" is not a dictionary.");
                text
            },
        }
    }
}

} // verus!
