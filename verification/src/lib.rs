pub mod board;
pub mod counting;
pub mod gameloop;
pub mod laws;
pub mod players;
