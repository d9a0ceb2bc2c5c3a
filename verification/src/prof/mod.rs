//! Profiling counters for the search.
//!
//! Sections are nested: the time of an inner section is also counted in
//! whatever section it runs in. A report is an inclusive call tree flattened
//! into a table, not a set of disjoint buckets.

pub mod counters;
pub mod sec;
