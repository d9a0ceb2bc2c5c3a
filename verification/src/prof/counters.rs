//! Counting cycles and calls by section.

use crate::prof::sec;
use vstd::prelude::*;

verus! {

pub const NUM_SECTIONS: usize = 23;

pub const SECTION_NAMES: [&'static str; 23] = [
    "calibration",
    "selection (ucb + apply down path)",
    "expand (geninstr + nodes + sample)",
    "rollout (evaluate)",
    "backprop (scores + reverse up path)",
    "> get_all_options (in selection)",
    "> generate_ins_from_move_pair",
    ">> state.apply_instructions (all)",
    ">> state.reverse_instructions (all)",
    ">> moves_first",
    ">> generate_ins_from_move",
    ">>> gen_ins_from_switch",
    ">>> before_move",
    ">>> choice_special_effect",
    ">>> calculate_damage",
    ">>> check_move_hit_or_miss",
    ">>> run_move",
    ">>>> gen_ins_from_damage",
    ">>>> get_ins_from_secondaries",
    ">> add_end_of_turn_instructions",
    ">> combine_duplicate_instructions",
    ">> after_move_finish",
    ">>> existing_status_conditions",
];

/// Cycles and calls of every section.
#[derive(Clone, Copy, Debug)]
pub struct Counters {
    pub cycles: [u64; 23],
    pub counts: [u64; 23],
}

/// A section that is being timed: which one, and the cycle that it started
/// at.
#[derive(Clone, Copy, Debug, PartialEq, Eq, Structural)]
pub struct ProfScope {
    pub section: usize,
    pub start: u64,
}

impl ProfScope {
    /// Enters a section at cycle `start`.
    pub fn new(section: usize, start: u64) -> (r: ProfScope)
        ensures
            r.section == section,
            r.start == start,
    {
        ProfScope { section, start }
    }

    /// The cycles from the start to `now`; the cycle counter turns over.
    pub open spec fn elapsed(self, now: u64) -> u64 {
        now.wrapping_sub(self.start)
    }

    /// Leaves the section at cycle `now`.
    pub fn finish(self, now: u64, counters: &mut Counters)
        requires
            self.section < NUM_SECTIONS,
            old(counters).cycles@[self.section as int] + self.elapsed(now) <= u64::MAX,
            old(counters).counts@[self.section as int] < u64::MAX,
        ensures
            final(counters).cycles@ == old(counters).cycles@.update(
                self.section as int,
                (old(counters).cycles@[self.section as int] + self.elapsed(now)) as u64,
            ),
            final(counters).counts@ == old(counters).counts@.update(
                self.section as int,
                (old(counters).counts@[self.section as int] + 1) as u64,
            ),
    {
        let elapsed: u64 = now.wrapping_sub(self.start);
        counters.cycles[self.section] = counters.cycles[self.section] + elapsed;
        counters.counts[self.section] = counters.counts[self.section] + 1;
    }
}

/// One line of a report.
#[derive(Clone, Copy, Debug, PartialEq, Eq, Structural)]
pub struct ReportRow {
    pub section: usize,
    pub calls: u64,
    pub cycles: u64,
}

/// The calls of the first `n` sections together.
pub open spec fn calls_sum(counts: Seq<u64>, n: int) -> int
    decreases n,
{
    if n <= 0 {
        0
    } else {
        calls_sum(counts, n - 1) + counts[n - 1]
    }
}

/// The lines for those of the first `n` sections that are reported: the ones
/// that were entered, except calibration.
pub open spec fn rows(counters: Counters, n: int) -> Seq<ReportRow>
    decreases n,
{
    if n <= 0 {
        Seq::empty()
    } else if counters.counts@[n - 1] == 0 || n - 1 == sec::CALIB {
        rows(counters, n - 1)
    } else {
        rows(counters, n - 1).push(
            ReportRow {
                section: (n - 1) as usize,
                calls: counters.counts@[n - 1],
                cycles: counters.cycles@[n - 1],
            },
        )
    }
}

impl Counters {
    /// Counters at zero.
    pub fn new() -> (r: Counters)
        ensures
            forall|i: int| 0 <= i < 23 ==> r.cycles@[i] == 0 && r.counts@[i] == 0,
    {
        Counters { cycles: [0;23], counts: [0;23] }
    }

    /// How often any section was entered.
    pub fn total_events(&self) -> (r: u128)
        ensures
            r == calls_sum(self.counts@, 23),
    {
        let mut total: u128 = 0;
        let mut i: usize = 0;
        while i < NUM_SECTIONS
            invariant
                i <= NUM_SECTIONS,
                total == calls_sum(self.counts@, i as int),
                total <= i * u64::MAX,
            decreases NUM_SECTIONS - i,
        {
            total = total + self.counts[i] as u128;
            i = i + 1;
        }
        total
    }

    /// The lines of a report, in the order of the sections.
    pub fn report(&self) -> (r: Vec<ReportRow>)
        ensures
            r@ == rows(*self, 23),
    {
        let mut r: Vec<ReportRow> = Vec::new();
        let mut i: usize = 0;
        while i < NUM_SECTIONS
            invariant
                i <= NUM_SECTIONS,
                r@ == rows(*self, i as int),
            decreases NUM_SECTIONS - i,
        {
            let calls: u64 = self.counts[i];
            if calls != 0 && i != sec::CALIB {
                r.push(ReportRow { section: i, calls, cycles: self.cycles[i] });
            }
            i = i + 1;
        }
        r
    }
}

} // verus!
