//! The static evaluator: what it looks at in a position, and its models.

pub mod config;
pub mod context;
pub mod context_laws;
pub mod feat;
pub mod feature_laws;
pub mod laws;
pub mod matchup_laws;
pub mod matchups;
pub mod model_laws;
pub mod model_text;
pub mod parse_laws;
pub mod same;
pub mod same_laws;
pub mod schema;
pub mod tally_laws;
pub mod tree;
pub mod tree_laws;
pub mod walk;
pub mod weights;
pub mod whole;
