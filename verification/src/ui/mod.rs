pub mod line;
pub mod segment;
