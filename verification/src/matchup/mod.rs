//! Static matchup kernel: who beats whom in a one-on-one, worked out once per
//! position for every pair of living Pokemon.

pub mod attack_laws;
pub mod cache;
pub mod fingerprint;
pub mod kernel;
pub mod key_laws;
pub mod pair;
pub mod power;
pub mod power_laws;
pub mod speed_laws;
pub mod symmetry;
pub mod tracking;
