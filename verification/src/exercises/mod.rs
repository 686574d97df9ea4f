//! The logic of the exercise applications built on the trees.
pub mod command;
pub mod interactive;
pub mod leaderboard;
pub mod line_style;
pub mod median;
pub mod names;
pub mod navigation;
pub mod showcase;
pub mod text;
pub mod types;
