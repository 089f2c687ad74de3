//! Exact-arithmetic core of a small quadratic-equation calculator.
//!
//! The library scans a line of text such as `2x + 3x - 2` for variable
//! markers and operators, validates the operator placement, extracts the
//! three coefficients as exact decimal numbers, and computes the
//! discriminant exactly, classifying the roots as real or imaginary.
//! The irrational part of the root computation (square roots) is left to
//! the caller, which receives the exact building blocks of both roots.

pub mod num;
pub mod scan;
pub mod extract;
pub mod solver;

pub use solver::{solve, Answer, RootExpr, SolveError};
