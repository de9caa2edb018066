//! Error types for catgraph operations.
//!
//! [`CatgraphError`] is the unified error enum returned by fallible operations
//! across all modules. Variants are grouped by the subsystem that produces them.
use vstd::prelude::*;

use crate::finset::{TryFromFinSetError, TryFromInjError, TryFromSurjError};



verus! {

/// Unified error type for catgraph operations.
#[derive(Debug, Clone, PartialEq, Eq)]
pub enum CatgraphError {
    /// Domain/codomain sizes do not match at the composition interface.
    CompositionSizeMismatch { expected: usize, actual: usize },
    /// Labels disagree at a specific boundary index during composition.
    CompositionLabelMismatch { index: usize, expected: String, actual: String },
    /// General composition failure (e.g. non-composable morphisms).
    Composition { message: String },
    /// Interpretation of a black-box morphism failed.
    Interpret { context: String },
    /// Operadic substitution failed.
    Operadic { message: String },
    /// Relation algebra operation failed.
    Relation { message: String },
    /// Petri net operation failed.
    PetriNet { message: String },
    /// Finite set morphism construction or conversion failed.
    FinSet { message: String },
}

/// The text shown for an error: a fixed prefix naming the subsystem, then the
/// error's message.
pub open spec fn error_text(prefix: Seq<char>, message: Seq<char>) -> Seq<char> {
    prefix + message
}

impl CatgraphError {
    /// Human-readable description of the error.
    pub fn display(&self) -> (s: String)
        ensures
            self matches CatgraphError::Composition { message } ==> s@ == error_text(
                "composition error: "@,
                message@,
            ),
            self matches CatgraphError::Interpret { context } ==> s@ == error_text(
                "interpret error: "@,
                context@,
            ),
            self matches CatgraphError::Operadic { message } ==> s@ == error_text(
                "operadic error: "@,
                message@,
            ),
            self matches CatgraphError::Relation { message } ==> s@ == error_text(
                "relation error: "@,
                message@,
            ),
            self matches CatgraphError::PetriNet { message } ==> s@ == error_text(
                "petri net error: "@,
                message@,
            ),
            self matches CatgraphError::FinSet { message } ==> s@ == error_text(
                "finite set error: "@,
                message@,
            ),
            self matches CatgraphError::CompositionLabelMismatch { expected, actual, .. }
                ==> s@.len() >= expected@.len() + actual@.len(),
    {
        match self {
            CatgraphError::CompositionSizeMismatch { expected, actual } => {
                let s = String::from_str("composition error: interface size mismatch (expected ");
                let s = s.concat(expected.to_string().as_str());
                let s = s.concat(", got ");
                let s = s.concat(actual.to_string().as_str());
                s.concat(")")
            },
            CatgraphError::CompositionLabelMismatch { index, expected, actual } => {
                let s = String::from_str("composition error: label mismatch at index ");
                let s = s.concat(index.to_string().as_str());
                let s = s.concat(" (expected ");
                let s = s.concat(expected.as_str());
                let s = s.concat(", got ");
                let s = s.concat(actual.as_str());
                s.concat(")")
            },
            CatgraphError::Composition { message } => String::from_str(
                "composition error: ",
            ).concat(message.as_str()),
            CatgraphError::Interpret { context } => String::from_str("interpret error: ").concat(
                context.as_str(),
            ),
            CatgraphError::Operadic { message } => String::from_str("operadic error: ").concat(
                message.as_str(),
            ),
            CatgraphError::Relation { message } => String::from_str("relation error: ").concat(
                message.as_str(),
            ),
            CatgraphError::PetriNet { message } => String::from_str("petri net error: ").concat(
                message.as_str(),
            ),
            CatgraphError::FinSet { message } => String::from_str("finite set error: ").concat(
                message.as_str(),
            ),
        }
    }
}

impl vstd::std_specs::convert::FromSpecImpl<TryFromSurjError> for CatgraphError {
    open spec fn obeys_from_spec() -> bool {
        false
    }

    open spec fn from_spec(e: TryFromSurjError) -> Self {
        arbitrary()
    }
}

impl From<TryFromSurjError> for CatgraphError {
    /// A finite set error carrying the conversion error's text.
    fn from(e: TryFromSurjError) -> (r: Self)
        ensures
            r matches CatgraphError::FinSet { message } && message@ == "ill-formed slice to order preserving surjection conversion attempted"@,
    {
        CatgraphError::FinSet { message: e.message() }
    }
}

impl vstd::std_specs::convert::FromSpecImpl<TryFromInjError> for CatgraphError {
    open spec fn obeys_from_spec() -> bool {
        false
    }

    open spec fn from_spec(e: TryFromInjError) -> Self {
        arbitrary()
    }
}

impl From<TryFromInjError> for CatgraphError {
    /// A finite set error carrying the conversion error's text.
    fn from(e: TryFromInjError) -> (r: Self)
        ensures
            r matches CatgraphError::FinSet { message } && message@ == "ill-formed slice to order preserving injection conversion attempted"@,
    {
        CatgraphError::FinSet { message: e.message() }
    }
}

impl vstd::std_specs::convert::FromSpecImpl<TryFromFinSetError> for CatgraphError {
    open spec fn obeys_from_spec() -> bool {
        false
    }

    open spec fn from_spec(e: TryFromFinSetError) -> Self {
        arbitrary()
    }
}

impl From<TryFromFinSetError> for CatgraphError {
    /// A finite set error carrying the conversion error's text.
    fn from(e: TryFromFinSetError) -> (r: Self)
        ensures
            r matches CatgraphError::FinSet { message } && message@ == "ill-formed slice to order preserving map conversion attempted"@,
    {
        CatgraphError::FinSet { message: e.message() }
    }
}

} // verus!
