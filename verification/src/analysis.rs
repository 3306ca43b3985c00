//! Analysis on top of the penalty-kick model.

pub mod sensitivity;
pub mod simulation;
