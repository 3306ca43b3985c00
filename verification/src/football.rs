//! Penalty kicks as a zero-sum game between kicker and goalkeeper.

pub mod payoff;
pub mod penalty;
pub mod stats;
