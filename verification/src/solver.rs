//! Linear programming and zero-sum game solving.

pub mod elimination;
pub mod game;
pub mod nash;
pub mod simplex;
