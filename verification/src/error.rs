//! What the library's fallible operations report.
use vstd::prelude::*;

verus! {

/// Why a polynomial operation failed.
#[derive(Clone, Copy, Debug, PartialEq, Eq, Structural)]
pub enum PolynomialFault {
    /// The polynomial has degree zero: there are no roots to find.
    ZeroDegree,
    /// A root could not be divided out of the polynomial.
    FailedDeflation,
    /// The divisor of a polynomial division was zero.
    DivideByZero,
}

/// The library's error.
#[derive(Clone, Copy, Debug, PartialEq, Eq, Structural)]
pub enum VoxBoxError {
    /// A caller-supplied scratch buffer is too small.
    Workspace,
    /// A polynomial operation failed.
    Polynomial(PolynomialFault),
    /// A computation left the numbers it can work with.
    Numeric,
}

pub type VoxBoxResult<T> = Result<T, VoxBoxError>;

/// A polynomial fault in words.
pub open spec fn fault_text(fault: PolynomialFault) -> Seq<char> {
    match fault {
        PolynomialFault::ZeroDegree => "Zero degree polynomial: no roots to be found."@,
        PolynomialFault::FailedDeflation => "Failed to find roots"@,
        PolynomialFault::DivideByZero => "Tried to divide by zero"@,
    }
}

/// An error in words.
pub open spec fn error_text(error: VoxBoxError) -> Seq<char> {
    match error {
        VoxBoxError::Workspace => "Workspace too small"@,
        VoxBoxError::Polynomial(fault) => fault_text(fault),
        VoxBoxError::Numeric => "Numeric error"@,
    }
}

impl PolynomialFault {
    /// The fault in words.
    pub fn message(self) -> (text: &'static str)
        ensures
            text@ == fault_text(self),
    {
        match self {
            PolynomialFault::ZeroDegree => "Zero degree polynomial: no roots to be found.",
            PolynomialFault::FailedDeflation => "Failed to find roots",
            PolynomialFault::DivideByZero => "Tried to divide by zero",
        }
    }
}

impl VoxBoxError {
    /// The error in words.
    pub fn message(self) -> (text: &'static str)
        ensures
            text@ == error_text(self),
    {
        match self {
            VoxBoxError::Workspace => "Workspace too small",
            VoxBoxError::Polynomial(fault) => fault.message(),
            VoxBoxError::Numeric => "Numeric error",
        }
    }
}

} // verus!
