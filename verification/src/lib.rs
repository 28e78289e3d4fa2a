//! Inspection of WGSL shader text: a single-pass directive preprocessor that
//! pulls other files' contents in front of a shader, an engine that parses and
//! validates the flattened text through the naga front-end, and a name-only
//! structural summary of a parsed module.

pub mod codec;
pub mod engine;
pub mod error;
pub mod frontend;
pub mod preprocess;
pub mod summary;
