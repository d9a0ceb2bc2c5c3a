//! The tree that many workers search together.

pub mod choice_laws;
pub mod claims;
pub mod laws;
pub mod map;
pub mod report_laws;
pub mod run;
pub mod totals;
pub mod tree;
pub mod turn_laws;
pub mod worker;
