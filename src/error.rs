use vstd::prelude::*;

verus! {

/// The ways an operation of the tower can fail.
#[derive(Clone, Copy, Debug, PartialEq, Eq, Structural)]
pub enum FieldError {
    /// A coordinate vector does not have the length of the extension degree.
    ShapeMismatch,
    /// An inversion or division by the additive identity.
    DivisionByZero,
    /// The requested two-power subgroup order does not divide the group order.
    UnsupportedOrder,
}

} // verus!
