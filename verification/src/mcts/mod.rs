//! Monte Carlo tree search over simultaneous moves.

pub mod chance_laws;
pub mod choice_laws;
pub mod laws;
pub mod moves;
pub mod iterate;
pub mod node;
pub mod observe;
pub mod perform;
pub mod reuse_laws;
pub mod run;
pub mod score_laws;
pub mod search;
pub mod sequels;
pub mod size;
pub mod tree;
pub mod chance;
