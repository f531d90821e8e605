use vstd::prelude::*;

verus! {

/// Message carried by a failed curve-membership check.
pub const CURVE_ERROR: &'static str = "Cannot be on the curve";

/// The ways an operation of this library can fail.
#[derive(Debug, Clone, Copy, PartialEq, Eq, Structural)]
pub enum EccError {
    /// Two field elements of different primes met in one operation.
    MismatchedField,
    /// A division whose divisor is the zero element.
    DivisionByZero,
    /// Coordinates that do not lie on the curve, or only one coordinate.
    InvalidPoint,
    /// An addition of points that lie on different curves.
    MismatchedCurve,
}

impl EccError {
    /// A human-readable description of the failure.
    pub fn message(&self) -> (r: &'static str)
        ensures
            *self == EccError::MismatchedField ==> r@
                == "Prime base not the same between two FieldElement"@,
            *self == EccError::DivisionByZero ==> r@ == "Division by the zero element"@,
            *self == EccError::InvalidPoint ==> r@ == CURVE_ERROR@,
            *self == EccError::MismatchedCurve ==> r@ == "Not on same curve"@,
    {
        match self {
            EccError::MismatchedField => "Prime base not the same between two FieldElement",
            EccError::DivisionByZero => "Division by the zero element",
            EccError::InvalidPoint => CURVE_ERROR,
            EccError::MismatchedCurve => "Not on same curve",
        }
    }
}

} // verus!
