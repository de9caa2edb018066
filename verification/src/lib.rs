//! Category-theoretic graph structures with source/target (cospan) semantics.
//!
//! The library models morphisms of finite sets, spans and cospans of finite
//! sets, relations, layered monoidal and Frobenius morphisms, cospan-algebras
//! and labelled Petri nets, each with a mathematical view over which its
//! operations are specified.

pub mod errors;
pub mod label;
pub mod category;
pub mod utils;
pub mod monoidal;
pub mod finset;
pub mod cospan;
pub mod cospan_laws;
pub mod hypergraph_category;
pub mod span;
pub mod cospan_algebra;
pub mod equivalence;
pub mod hypergraph_functor;
pub mod frobenius;
pub mod permutation;
pub mod frobenius_permutation;
pub mod frobenius_interpret;
pub mod compact_closed;
pub mod petri_net;
