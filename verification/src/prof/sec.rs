//! The sections that are profiled.

use vstd::prelude::*;

verus! {

pub const CALIB: usize = 0;

pub const SELECTION: usize = 1;

pub const EXPAND: usize = 2;

pub const ROLLOUT: usize = 3;

pub const BACKPROP: usize = 4;

pub const GET_OPTIONS: usize = 5;

pub const GEN_INS: usize = 6;

pub const APPLY: usize = 7;

pub const REVERSE: usize = 8;

pub const MOVES_FIRST: usize = 9;

pub const GEN_MOVE: usize = 10;

pub const GEN_SWITCH: usize = 11;

pub const BEFORE_MOVE: usize = 12;

pub const SPECIAL_EFFECT: usize = 13;

pub const CALC_DAMAGE: usize = 14;

pub const HIT_MISS: usize = 15;

pub const RUN_MOVE: usize = 16;

pub const FROM_DAMAGE: usize = 17;

pub const SECONDARIES: usize = 18;

pub const END_OF_TURN: usize = 19;

pub const COMBINE_DUPES: usize = 20;

pub const AFTER_MOVE_FINISH: usize = 21;

pub const STATUS_CONDS: usize = 22;

} // verus!
