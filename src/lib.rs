pub mod actions;
pub mod alpha;
pub mod bowling;
pub mod text;
pub mod tpa;
