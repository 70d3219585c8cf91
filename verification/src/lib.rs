pub mod board;
pub mod fx;
pub mod point;
pub mod polyomino;
pub mod bits;
pub mod solver;
pub mod utils;
pub mod text;
