//! The shader engine: a fixed configuration — every check and every
//! capability, set at construction and never narrowed — applied by a
//! validator built fresh for each call, so no call's verdict depends on an
//! earlier one. Validation flattens the shader with its pulled-in contents
//! first; structural extraction parses the text exactly as it stands.

use vstd::prelude::*;

use crate::error::WgslError;
use crate::frontend::{
    function_names, global_names, module_function_names, module_global_names, module_type_names,
    parse_wgsl, parsed_module, parses, type_names, validate_module, validator_accepts,
};
use crate::preprocess::{flatten_shader, flattened};
use crate::summary::{build_tree, named_of, WgslTree};

verus! {

/// An engine with the full validation configuration. It keeps no state
/// between calls — each call validates with a freshly built, identically
/// configured validator — so it is safely reusable sequentially and every
/// call's result is a function of that call's input alone.
pub struct Naga {}

impl Naga {
    /// A fresh engine; its configuration — every validation check, every
    /// capability — is fixed and cannot be narrowed.
    pub fn new() -> Naga {
        Naga {}
    }

    /// Flattens the shader with the given pulled-in contents, parses the
    /// result and validates it: `Ok` exactly when the flattened text parses
    /// and the validator passes the module. Every failure carries the exact
    /// flattened text; reading files is the caller's business, so no call of
    /// this function reports an I/O failure.
    pub fn validate_wgsl(&mut self, shader: &str, contents: &Vec<String>) -> (r: Result<
        (),
        WgslError,
    >)
        ensures
            *final(self) == *old(self),
            r is Ok <==> (parses(flattened(shader@, contents.deep_view())) && validator_accepts(
                parsed_module(flattened(shader@, contents.deep_view())),
            )),
            r matches Err(e) ==> match e {
                WgslError::IoFailure { .. } => false,
                WgslError::ParseFailure { src, .. } => src@ == flattened(
                    shader@,
                    contents.deep_view(),
                ) && !parses(flattened(shader@, contents.deep_view())),
                WgslError::ValidationFailure { src, .. } => src@ == flattened(
                    shader@,
                    contents.deep_view(),
                ) && parses(flattened(shader@, contents.deep_view())) && !validator_accepts(
                    parsed_module(flattened(shader@, contents.deep_view())),
                ),
            },
    {
        let flat = flatten_shader(shader, contents);
        match parse_wgsl(flat.as_str()) {
            Err(error) => Err(WgslError::ParseFailure { src: flat, error }),
            Ok(module) => match validate_module(&module) {
                Err(error) => Err(WgslError::ValidationFailure { src: flat, error }),
                Ok(_) => Ok(()),
            },
        }
    }

    /// The name-only projection of one parsed module: each arena's named
    /// entries, in arena order, anonymous entries dropped.
    pub fn tree_of_module(module: &naga::Module) -> (t: WgslTree)
        ensures
            t.types.deep_view() == named_of(module_type_names(*module)),
            t.global_variables.deep_view() == named_of(module_global_names(*module)),
            t.functions.deep_view() == named_of(module_function_names(*module)),
    {
        let types = type_names(module);
        let global_variables = global_names(module);
        let functions = function_names(module);
        build_tree(&types, &global_variables, &functions)
    }

    /// Parses the text exactly as it stands — deliberately without directive
    /// expansion — and summarizes the parsed module's named declarations,
    /// leaving the engine untouched. A parse failure carries the exact text
    /// that was parsed.
    pub fn get_wgsl_tree(&mut self, shader: &str) -> (r: Result<WgslTree, WgslError>)
        ensures
            *final(self) == *old(self),
            r is Ok <==> parses(shader@),
            r matches Ok(t) ==> {
                &&& t.types.deep_view() == named_of(module_type_names(parsed_module(shader@)))
                &&& t.global_variables.deep_view() == named_of(
                    module_global_names(parsed_module(shader@)),
                )
                &&& t.functions.deep_view() == named_of(
                    module_function_names(parsed_module(shader@)),
                )
            },
            r matches Err(e) ==> (e matches WgslError::ParseFailure { src, .. } && src@
                == shader@),
    {
        match parse_wgsl(shader) {
            Err(error) => Err(WgslError::ParseFailure { src: shader.to_owned(), error }),
            Ok(module) => Ok(Naga::tree_of_module(&module)),
        }
    }
}

} // verus!
