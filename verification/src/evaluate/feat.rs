//! The positions of the features in the feature vector.
//!
//! Grouped: the clampable part of each Pokemon, terms of the active Pokemon,
//! side conditions, hazards, tera, matchups.

use vstd::prelude::*;

verus! {

pub const ALIVE: usize = 0;

pub const HP: usize = 1;

pub const ITEM: usize = 2;

pub const FROZEN: usize = 3;

pub const ASLEEP: usize = 4;

pub const PARALYZED: usize = 5;

pub const TOXIC: usize = 6;

pub const POISONED: usize = 7;

pub const BURNED: usize = 8;

pub const POISON_HEAL: usize = 9;

pub const STATUS_ABILITY_BONUS: usize = 10;

pub const ATTACK_BOOST: usize = 11;

pub const DEFENSE_BOOST: usize = 12;

pub const SPECIAL_ATTACK_BOOST: usize = 13;

pub const SPECIAL_DEFENSE_BOOST: usize = 14;

pub const SPEED_BOOST: usize = 15;

pub const LEECH_SEED: usize = 16;

pub const SUBSTITUTE: usize = 17;

pub const CONFUSION: usize = 18;

pub const REFLECT: usize = 19;

pub const LIGHT_SCREEN: usize = 20;

pub const AURORA_VEIL: usize = 21;

pub const SAFE_GUARD: usize = 22;

pub const TAILWIND: usize = 23;

pub const HEALING_WISH: usize = 24;

pub const STEALTH_ROCK: usize = 25;

pub const SPIKES: usize = 26;

pub const TOXIC_SPIKES: usize = 27;

pub const STICKY_WEB: usize = 28;

pub const USED_TERA: usize = 29;

pub const REVENGE_COVERAGE: usize = 30;

pub const THREAT_BREADTH: usize = 31;

pub const WINCON: usize = 32;

pub const UNANSWERED: usize = 33;

pub const ACTIVE_DUEL: usize = 34;

pub const PIVOT_PRESSURE: usize = 35;

} // verus!
