//! The ways in which an operation can fail.

use vstd::prelude::*;

verus! {

/// Why an arithmetic operation gave no result.
#[derive(Debug, Clone, Copy, PartialEq, Eq)]
pub enum ArithmeticError {
    /// The divisor was zero.
    DivisionByZero,
    /// The factorial of a negative number was asked for.
    NegativeFactorial,
    /// The argument of a factorial does not fit a machine-sized count.
    CountOverflow,
}

} // verus!
