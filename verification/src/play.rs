//! Playing the game: the players.

pub mod players;
