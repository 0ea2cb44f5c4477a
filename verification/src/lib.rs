pub mod days;
pub mod graph;
pub mod grid;
pub mod numbers;
pub mod pattern;
pub mod text;
