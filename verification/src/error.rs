//! Errors of booklet generation.

use vstd::prelude::*;

verus! {

/// Errors that can occur during booklet generation.
#[derive(Debug)]
pub enum BookletError {
    /// Error parsing the input PDF
    ParseError(String),
    /// Error generating the output PDF
    GenerationError(String),
    /// Invalid configuration
    InvalidConfig(String),
}

} // verus!
