//! Reading the input document and planning the booklet made from it.

use vstd::prelude::*;

use crate::config::BindingType;
use crate::error::BookletError;
use crate::imposition::{booklet_order, page_count_refusal, plan_for_page_count};

verus! {

/// A PDF document as lopdf holds it; opaque here, carried through to the
/// code that draws the booklet.
#[verifier::external_type_specification]
#[verifier::external_body]
pub struct ExDocument(lopdf::Document);

/// Parses `input_pdf` with lopdf's `Document::load_mem`, or gives back
/// lopdf's error message. Trusted for nothing beyond its type: which bytes
/// parse is not stated (lopdf may parse object streams on several threads,
/// so the document read from the same bytes is not promised to be the same
/// each time), and neither is lopdf's message. Nor is it stated that the
/// parser returns on every input: no `requires` can single out malformed
/// bytes on which lopdf might panic.
#[verifier::external_body]
fn load_pdf(input_pdf: &[u8]) -> (r: Result<lopdf::Document, String>) {
    match lopdf::Document::load_mem(input_pdf) {
        Ok(doc) => Ok(doc),
        Err(e) => Err(e.to_string()),
    }
}

/// The number of pages of `doc`, counted by lopdf's `Document::get_pages`.
/// Trusted for nothing beyond its type: the count is not stated.
#[verifier::external_body]
fn count_pages(doc: &lopdf::Document) -> (r: usize) {
    doc.get_pages().len()
}

/// An input document with its page count and the sides of the booklet
/// made from it.
pub struct PdfPlan {
    /// The parsed input document
    pub document: lopdf::Document,
    /// Its number of pages
    pub num_pages: usize,
    /// The booklet's sides, each a list of page numbers (0 is a blank)
    pub sides: Vec<Vec<usize>>,
}

/// Reads the PDF document `input_pdf` and plans its booklet: bytes that do
/// not parse give a `ParseError` with lopdf's message; for the page count
/// read, the plan is that of `plan_for_page_count`, which refuses a document
/// without pages, fewer than two pages per side and page counts beyond the
/// layout's `usize` limit, and otherwise gives `booklet_order` of the count.
pub fn plan_booklet_for_pdf(
    input_pdf: &[u8],
    pages_per_sheet: usize,
    binding_type: BindingType,
    sheets_per_signature: usize,
    num_signatures: Option<usize>,
) -> (res: Result<PdfPlan, BookletError>)
    ensures
        res matches Err(e) ==> (e is ParseError || (e matches BookletError::InvalidConfig(msg)
            && exists|n: usize|
            page_count_refusal(
                n as nat,
                pages_per_sheet as nat,
                binding_type,
                sheets_per_signature as nat,
                num_signatures,
            ) == Some(msg@))),
        res matches Ok(plan) ==> {
            &&& page_count_refusal(
                plan.num_pages as nat,
                pages_per_sheet as nat,
                binding_type,
                sheets_per_signature as nat,
                num_signatures,
            ) is None
            &&& plan.sides@.len() == booklet_order(
                plan.num_pages as nat,
                pages_per_sheet as nat,
                binding_type,
                sheets_per_signature as nat,
                num_signatures,
            ).len()
            &&& forall|i: int|
                0 <= i < plan.sides@.len() ==> #[trigger] plan.sides@[i]@ == booklet_order(
                    plan.num_pages as nat,
                    pages_per_sheet as nat,
                    binding_type,
                    sheets_per_signature as nat,
                    num_signatures,
                )[i]
        },
{
    let document = match load_pdf(input_pdf) {
        Ok(doc) => doc,
        Err(msg) => {
            return Err(BookletError::ParseError(msg));
        },
    };
    let num_pages = count_pages(&document);
    match plan_for_page_count(
        num_pages,
        pages_per_sheet,
        binding_type,
        sheets_per_signature,
        num_signatures,
    ) {
        Ok(sides) => Ok(PdfPlan { document, num_pages, sides }),
        Err(e) => Err(e),
    }
}

} // verus!
