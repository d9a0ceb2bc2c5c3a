//! Verified core of a battle searcher: the static matchup kernel, the
//! evaluation walk, the evaluation-model text formats and the search tree.

pub mod codes;
pub mod evaluate;
pub mod float32;
pub mod prof;
pub mod quotient;
pub mod ratio;
pub mod rounding;
pub mod selfplay;
pub mod shared;
pub mod state;
pub mod text;
pub mod trajectory;

pub mod matchup;
pub mod mcts;
