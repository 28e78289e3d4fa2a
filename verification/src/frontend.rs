//! The shader front-end and validator, as this library trusts them: naga's
//! types declared for Verus, and thin wrappers around the three calls the
//! engine makes. Everything the proofs assume of naga is stated here.

use vstd::prelude::*;

verus! {

#[verifier::external_type_specification]
#[verifier::external_body]
pub struct ExModule(naga::Module);

#[verifier::external_type_specification]
#[verifier::external_body]
pub struct ExParseError(naga::front::wgsl::ParseError);

#[verifier::external_type_specification]
#[verifier::external_body]
pub struct ExValidationError(naga::valid::ValidationError);

#[verifier::external_type_specification]
#[verifier::external_body]
#[verifier::reject_recursive_types(E)]
pub struct ExWithSpan<E>(naga::WithSpan<E>);

/// Whether the front-end accepts a text: `naga::front::wgsl::parse_str` is a
/// pure parser, so its verdict is a function of the source text alone.
pub uninterp spec fn parses(s: Seq<char>) -> bool;

/// The module that `naga::front::wgsl::parse_str` yields on a text it
/// accepts: the front-end builds a fresh parser with fixed options and
/// fixed-seed hashers per call, so the module is a function of the text
/// alone.
pub uninterp spec fn parsed_module(s: Seq<char>) -> naga::Module;

/// The verdict of a freshly built validator, configured with every
/// validation flag and every capability, on `m`: starting from a new
/// validator each time, with fixed-seed hashers and fixed-order arenas, the
/// verdict is a function of the module alone.
pub uninterp spec fn validator_accepts(m: naga::Module) -> bool;

/// The `name` field of each entry of a module's type arena, in arena order.
pub uninterp spec fn module_type_names(m: naga::Module) -> Seq<Option<Seq<char>>>;

/// The `name` field of each entry of a module's global-variable arena, in
/// arena order.
pub uninterp spec fn module_global_names(m: naga::Module) -> Seq<Option<Seq<char>>>;

/// The `name` field of each entry of a module's function arena, in arena
/// order.
pub uninterp spec fn module_function_names(m: naga::Module) -> Seq<Option<Seq<char>>>;

/// Relies on naga::front::wgsl::parse_str: a deterministic front-end that
/// either lowers the text to the one module that text stands for, or reports
/// a positional parse error.
#[verifier::external_body]
pub(crate) fn parse_wgsl(source: &str) -> (r: Result<naga::Module, naga::front::wgsl::ParseError>)
    ensures
        r is Ok <==> parses(source@),
        r matches Ok(m) ==> m == parsed_module(source@),
{
    naga::front::wgsl::parse_str(source)
}

/// Relies on naga::valid::Validator::new and Validator::validate: checks the
/// module with a validator built fresh for this call, with every validation
/// flag and every capability. The validator is deliberately not kept: naga's
/// `Validator::reset` leaves its ray-pipeline scratch in place between
/// calls, so a reused validator could let one module's verdict depend on an
/// earlier module. Fresh construction makes the verdict a function of the
/// module alone. The module info a pass returns is dropped.
#[verifier::external_body]
pub(crate) fn validate_module(m: &naga::Module) -> (r: Result<
    (),
    naga::WithSpan<naga::valid::ValidationError>,
>)
    ensures
        r is Ok <==> validator_accepts(*m),
{
    naga::valid::Validator::new(
        naga::valid::ValidationFlags::all(),
        naga::valid::Capabilities::all(),
    ).validate(m).map(|_| ())
}

/// Relies on naga::UniqueArena::iter (on `Module::types`): it yields the
/// arena's entries in insertion order; only each entry's `name` is taken.
#[verifier::external_body]
pub(crate) fn type_names(m: &naga::Module) -> (r: Vec<Option<String>>)
    ensures
        r.deep_view() == module_type_names(*m),
{
    m.types.iter().map(|(_, t)| t.name.clone()).collect()
}

/// Relies on naga::Arena::iter (on `Module::global_variables`): it yields the
/// arena's entries in insertion order; only each entry's `name` is taken.
#[verifier::external_body]
pub(crate) fn global_names(m: &naga::Module) -> (r: Vec<Option<String>>)
    ensures
        r.deep_view() == module_global_names(*m),
{
    m.global_variables.iter().map(|(_, v)| v.name.clone()).collect()
}

/// Relies on naga::Arena::iter (on `Module::functions`): it yields the
/// arena's entries in insertion order; only each entry's `name` is taken.
#[verifier::external_body]
pub(crate) fn function_names(m: &naga::Module) -> (r: Vec<Option<String>>)
    ensures
        r.deep_view() == module_function_names(*m),
{
    m.functions.iter().map(|(_, f)| f.name.clone()).collect()
}

} // verus!
