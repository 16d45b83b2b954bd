//! Exact solver for quadratic equations with decimal coefficients,
//! together with the text forms of its results, which round the roots to
//! four fractional digits.

pub mod decimal;
pub mod equation;
pub mod quadratic;
pub mod surd;
pub mod utils;
