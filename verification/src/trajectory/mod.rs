//! Trajectory dumps: one position a line, in JSON with the state last.

pub mod features;
pub mod laws;
pub mod line;
pub mod relabel;
