//! Self-play: games between two configurations of the search.

pub mod game;
pub mod game_laws;
pub mod score;
