//! Booklet imposition: the page-ordering rules that turn a document of
//! `n` pages into the printed sides of folded sheets, with their contracts.

pub mod config;
pub mod document;
pub mod error;
pub mod imposition;

pub use config::{BindingType, GridLayout, PaperSize, SaddleStitchPages};
pub use document::{plan_booklet_for_pdf, PdfPlan};
pub use error::BookletError;
pub use imposition::{
    calculate_page_order,
    calculate_page_order_with_signatures,
    plan_booklet,
    plan_fits,
    plan_for_page_count,
};
