//! Composition traits: identities, composition by value and composition in place.
use vstd::prelude::*;

use crate::errors::CatgraphError;
use vstd::std_specs::cmp::PartialEqSpec;

verus! {

/// Morphisms that have an identity on each object of type `T`.
pub trait HasIdentity<T>: Sized {
    fn identity(on_this: &T) -> Self;
}

/// The error reported when the codomain of one morphism is not the domain of the next.
pub fn not_composable_error() -> (e: CatgraphError)
    ensures
        e matches CatgraphError::Composition { message }
            && message@ == "Not composable. No details on how domain and codomain mismatched"@,
{
    CatgraphError::Composition {
        message: String::from_str("Not composable. No details on how domain and codomain mismatched"),
    }
}

/// Morphisms that compose into a new morphism.
pub trait Composable<T: Eq>: Sized {
    fn compose(&self, other: &Self) -> Result<Self, CatgraphError>;

    fn domain(&self) -> T;

    fn codomain(&self) -> T;

    /// By default: `Ok` exactly when the codomain of `self` equals the domain of
    /// `other`, else the error of [`not_composable_error`].
    fn composable(&self, other: &Self) -> (r: Result<(), CatgraphError>)
        default_ensures
            r is Err ==> (r matches Err(CatgraphError::Composition { message })
                && message@ == "Not composable. No details on how domain and codomain mismatched"@),
            exists|c: T, d: T|
                #![trigger call_ensures(Self::codomain, (self,), c), call_ensures(Self::domain, (other,), d)]
                call_ensures(Self::codomain, (self,), c) && call_ensures(Self::domain, (other,), d)
                    && (T::obeys_eq_spec() ==> (r is Ok <==> c.eq_spec(&d))),
    {
        let c = self.codomain();
        let d = other.domain();
        if c == d {
            Ok(())
        } else {
            Err(not_composable_error())
        }
    }
}

/// Morphisms that compose in place: `self` becomes `self ; other`.
pub trait ComposableMutating<T: Eq>: Sized {
    fn compose(&mut self, other: Self) -> Result<(), CatgraphError>;

    fn domain(&self) -> T;

    fn codomain(&self) -> T;

    /// By default: `Ok` exactly when the codomain of `self` equals the domain of
    /// `other`, else the error of [`not_composable_error`].
    fn composable(&self, other: &Self) -> (r: Result<(), CatgraphError>)
        default_ensures
            r is Err ==> (r matches Err(CatgraphError::Composition { message })
                && message@ == "Not composable. No details on how domain and codomain mismatched"@),
            exists|c: T, d: T|
                #![trigger call_ensures(Self::codomain, (self,), c), call_ensures(Self::domain, (other,), d)]
                call_ensures(Self::codomain, (self,), c) && call_ensures(Self::domain, (other,), d)
                    && (T::obeys_eq_spec() ==> (r is Ok <==> c.eq_spec(&d))),
    {
        let c = self.codomain();
        let d = other.domain();
        if c == d {
            Ok(())
        } else {
            Err(not_composable_error())
        }
    }
}

} // verus!
