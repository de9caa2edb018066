//! Hypergraph categories: symmetric monoidal categories in which every object
//! carries a special commutative Frobenius structure.
use vstd::prelude::*;

use crate::errors::CatgraphError;
use crate::label::Label;

verus! {

/// The Frobenius generators of a hypergraph category on a single label `z`:
/// unit `∅ → z`, counit `z → ∅`, multiplication `z ⊗ z → z`,
/// comultiplication `z → z ⊗ z`, and the cup and cap built from them.
pub trait HypergraphCategory<Lambda: Label>: Sized {
    fn unit(z: Lambda) -> Self;

    fn counit(z: Lambda) -> Self;

    fn multiplication(z: Lambda) -> Self;

    fn comultiplication(z: Lambda) -> Self;

    fn cup(z: Lambda) -> Result<Self, CatgraphError>;

    fn cap(z: Lambda) -> Result<Self, CatgraphError>;
}

} // verus!
