//! Exact two-player zero-sum game solving: a primal Simplex engine, a Nash
//! equilibrium solver built on it, and a penalty-kick model that uses both.
//! All numbers are exact rationals, so every contract speaks of real values.

pub mod analysis;
pub mod exact;
pub mod football;
pub mod solver;
pub mod visualization;
