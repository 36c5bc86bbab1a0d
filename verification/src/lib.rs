pub mod board;
pub mod piece;
pub mod solve;
