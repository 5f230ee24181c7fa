//! A small linear-algebra engine: vectors and matrices over an abstract
//! numeric field, with arithmetic, geometric and reduction operations
//! (row-echelon form, determinant, inverse).
//!
//! Scalars are any type implementing the [`field::Field`] capability; the
//! crate ships one fully verified instance, the prime field of
//! [`gf101::Gf101`]. All operations are pure: they either mutate the
//! receiver in place or return a fresh value, and every failure is reported
//! through [`LinalgError`] rather than a panic.

use vstd::prelude::*;

pub mod field;
pub mod gf101;
pub mod vector;
pub mod matrix;
pub mod mulspec;
pub mod echelon;

verus! {

/// How an operation of this crate can fail.
///
/// Dimension mismatches, a wrong dimension for the cross product, a
/// coefficient/vector count mismatch and division by the additive identity
/// are contract violations by the caller; a singular matrix during
/// inversion is a data-dependent condition the caller may want to test for.
#[derive(Clone, Copy, Debug, PartialEq, Eq, Structural)]
pub enum LinalgError {
    /// The operands' dimensions do not agree.
    SizeMismatch,
    /// Division by the additive identity of the field.
    DivisionByZero,
    /// A square matrix was required.
    NotSquare,
    /// The matrix has no multiplicative inverse.
    Singular,
}

} // verus!

