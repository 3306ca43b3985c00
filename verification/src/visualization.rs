//! Strategies and matrices as text for a terminal: the goal with a strategy
//! over it, bar charts, sparklines and heatmaps.

pub mod ascii;
pub mod chart;
pub mod heatmap;
pub mod layout;
