//! The interface of an algebraic sponge over a field, as used by Fiat-Shamir
//! transforms: field elements are absorbed, and then squeezed out.
use vstd::prelude::*;

verus! {

/// An algebraic sponge over the field `BaseField`.
pub trait AlgebraicSponge<BaseField>: Clone + core::fmt::Debug + Sized {
    /// The parameters that a sponge is made with.
    type Parameters;

    /// Samples parameters for the sponge.
    fn sample_params() -> Self::Parameters;

    /// Initializes an algebraic sponge.
    fn new() -> Self;

    /// Initializes an algebraic sponge with the given parameters.
    fn with_parameters(params: &Self::Parameters) -> Self;

    /// Takes in field elements.
    fn absorb(&mut self, elems: &[BaseField]);

    /// Takes out `num` field elements.
    fn squeeze(&mut self, num: usize) -> Vec<BaseField>;
}

} // verus!
