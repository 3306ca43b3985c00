//! Exact arithmetic: unbounded naturals, the rationals built from them,
//! vectors and matrices of rationals, and numbers as decimal text.

pub mod decimal;
pub mod natural;
pub mod rational;
pub mod vector;
