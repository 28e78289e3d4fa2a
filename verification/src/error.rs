//! One failure taxonomy for the whole pipeline. Each parse or validation
//! failure keeps the exact text that was handed to the front-end, so a caller
//! can render a location-accurate, source-quoted message without re-reading
//! any file.

use vstd::prelude::*;

verus! {

#[derive(Debug)]
pub enum WgslError {
    /// A file could not be read: the primary file or one a directive names.
    IoFailure { message: String },
    /// The front-end rejected the text; `src` is that exact text and `error`
    /// the front-end's positional report, valid against `src`.
    ParseFailure { src: String, error: naga::front::wgsl::ParseError },
    /// The module parsed but failed semantic validation; `src` is the exact
    /// text that was parsed and `error` the validator's report, whose spans
    /// are valid against `src`.
    ValidationFailure { src: String, error: naga::WithSpan<naga::valid::ValidationError> },
}

} // verus!
