//! The axes along which space is split.
use vstd::prelude::*;

verus! {

/// A set of axes that can be stepped through in a fixed cycle.
pub trait Dimensions: Copy + Sized {
    fn first() -> Self;

    fn next(&self) -> Self;
}

/// The three axes of space.
#[derive(Copy, Clone, Debug, PartialEq, Eq, Structural)]
pub enum Dim3 {
    X,
    Y,
    Z,
}

/// The axis after `d`: X, Y, Z and then X again.
pub open spec fn dim3_after(d: Dim3) -> Dim3 {
    match d {
        Dim3::X => Dim3::Y,
        Dim3::Y => Dim3::Z,
        Dim3::Z => Dim3::X,
    }
}

impl Dimensions for Dim3 {
    fn first() -> (d: Dim3)
        ensures
            d == Dim3::X,
    {
        Dim3::X
    }

    fn next(&self) -> (d: Dim3)
        ensures
            d == dim3_after(*self),
    {
        match *self {
            Dim3::X => Dim3::Y,
            Dim3::Y => Dim3::Z,
            Dim3::Z => Dim3::X,
        }
    }
}

/// Stepping three times through the axes returns to the start, and the first three
/// steps from `X` visit every axis.
pub proof fn lemma_dim3_cycle(d: Dim3)
    ensures
        dim3_after(dim3_after(dim3_after(d))) == d,
        dim3_after(d) != d,
        dim3_after(dim3_after(d)) != d,
{
}

} // verus!
