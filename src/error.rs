//! The errors that reader operations report.
use vstd::prelude::*;

verus! {

/// What went wrong in a reader operation.
#[derive(Debug, Clone, PartialEq, Eq)]
pub enum ReaderError {
    InvalidSettings(String),
    ParseError(String),
    NoBookLoaded,
    NotPaginated,
    PageNotFound(u32),
    FontError(String),
    RenderError(String),
    ImageError(String),
    SerializationError(String),
    WasmSerializationError(String),
}

} // verus!
