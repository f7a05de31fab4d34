pub mod board;
pub mod laws;
pub mod masks;
pub mod solver;
pub mod square;
