//! Configurations, and what games add up to.

use crate::float32::Float32;
use crate::mcts::chance::{
    draw_threshold, drawn, gives, lemma_weight_sum_grows, picked, picked_from, weight_of, weight_sum,
};
use crate::mcts::moves::{MoveChoice, StateInstructions, SCORE_ONE};
use crate::mcts::perform::{average_of, countable, MctsSideResult};
use crate::mcts::search::outcome_percentages;
use crate::text::{append_decimal, decimal};
use rand::rngs::SmallRng;
use vstd::prelude::*;
use vstd::string::StringExecFns;

verus! {

/// Half a win: the score of a draw.
pub const SCORE_HALF: u64 = 0x4000_0000_0000_0000;

/// How a side searches.
#[derive(Clone, Copy, Debug, PartialEq, Eq, Structural)]
pub struct EngineConfig {
    pub iterations: u32,
    pub time_ms: u64,
    pub threads: usize,
    pub exploration_constant: Float32,
    pub branch_all_depths: bool,
    pub tree_reuse: bool,
}

/// A truth value in words.
pub open spec fn truth(b: bool) -> Seq<char> {
    if b {
        "true"@
    } else {
        "false"@
    }
}

fn append_truth(s: &mut String, b: bool)
    ensures
        final(s)@ == old(s)@ + truth(b),
{
    if b {
        s.append("true");
    } else {
        s.append("false");
    }
}

impl EngineConfig {
    /// A configuration as asked for. A tree is only kept by a search on one
    /// thread.
    pub fn new(
        iterations: u32,
        time_ms: u64,
        threads: usize,
        exploration_constant: Float32,
        branch_all_depths: bool,
        tree_reuse: bool,
    ) -> (r: EngineConfig)
        ensures
            r == (EngineConfig {
                iterations,
                time_ms,
                threads,
                exploration_constant,
                branch_all_depths,
                tree_reuse: tree_reuse && threads <= 1,
            }),
    {
        EngineConfig {
            iterations,
            time_ms,
            threads,
            exploration_constant,
            branch_all_depths,
            tree_reuse: tree_reuse && threads <= 1,
        }
    }

    /// The configuration in words; `c` is the exploration constant, written
    /// out.
    pub fn describe(&self, c: &str) -> (r: String)
        ensures
            r@ == "iterations="@ + decimal(self.iterations as nat) + " time_ms="@ + decimal(
                self.time_ms as nat,
            ) + " threads="@ + decimal(self.threads as nat) + " c="@ + c@ + " branch_all="@ + truth(
                self.branch_all_depths,
            ) + " tree_reuse="@ + truth(self.tree_reuse),
    {
        let mut r = String::new();
        r.append("iterations=");
        append_decimal(&mut r, self.iterations as u64);
        r.append(" time_ms=");
        append_decimal(&mut r, self.time_ms);
        r.append(" threads=");
        append_decimal(&mut r, self.threads as u64);
        r.append(" c=");
        r.append(c);
        r.append(" branch_all=");
        append_truth(&mut r, self.branch_all_depths);
        r.append(" tree_reuse=");
        append_truth(&mut r, self.tree_reuse);
        assert(r@ =~= "iterations="@ + decimal(self.iterations as nat) + " time_ms="@ + decimal(
            self.time_ms as nat,
        ) + " threads="@ + decimal(self.threads as nat) + " c="@ + c@ + " branch_all="@ + truth(
            self.branch_all_depths,
        ) + " tree_reuse="@ + truth(self.tree_reuse));
        r
    }
}

/// The average score of a move, zero for an untried one.
pub open spec fn average(result: MctsSideResult) -> int {
    if result.visits == 0 {
        0
    } else {
        average_of(result.total_score as int, result.visits as int)
    }
}

/// Whether a move is the better choice: more visits, or as many and a higher
/// average.
pub open spec fn better(a: MctsSideResult, b: MctsSideResult) -> bool {
    a.visits > b.visits || (a.visits == b.visits && average(a) > average(b))
}

/// The best of the first `n` moves, the first one among equals.
pub open spec fn best_of(results: Seq<MctsSideResult>, n: int) -> int
    decreases n,
{
    if n <= 1 {
        0
    } else if better(results[n - 1], results[best_of(results, n - 1)]) {
        n - 1
    } else {
        best_of(results, n - 1)
    }
}

/// The move to play: most visits, tie-broken by average score.
pub fn best_by_visits(side_result: &Vec<MctsSideResult>) -> (r: MoveChoice)
    requires
        side_result@.len() > 0,
        countable(side_result@),
    ensures
        0 <= best_of(side_result@, side_result@.len() as int) < side_result@.len(),
        r == side_result@[best_of(side_result@, side_result@.len() as int)].move_choice,
{
    let mut best: usize = 0;
    let mut i: usize = 1;
    while i < side_result.len()
        invariant
            1 <= i <= side_result@.len(),
            countable(side_result@),
            best < i,
            best == best_of(side_result@, i as int),
        decreases side_result@.len() - i,
    {
        let candidate = side_result[i];
        let champion = side_result[best];
        if candidate.visits > champion.visits || (candidate.visits == champion.visits
            && candidate.average_score() > champion.average_score()) {
            best = i;
        }
        i = i + 1;
    }
    side_result[best].move_choice
}

/// No move is a better choice than the one that is played.
pub proof fn lemma_best_is_best(results: Seq<MctsSideResult>, n: int)
    requires
        1 <= n <= results.len(),
    ensures
        0 <= best_of(results, n) < n,
        forall|i: int| 0 <= i < n ==> !better(#[trigger] results[i], results[best_of(results, n)]),
    decreases n,
{
    if n > 1 {
        lemma_best_is_best(results, n - 1);
    }
}

/// The outcome that a threshold picks.
pub fn sample_outcome_at(instructions: &Vec<StateInstructions>, threshold: u128) -> (r: usize)
    requires
        instructions@.len() > 0,
    ensures
        r == picked(outcome_percentages(instructions@), threshold as int),
        r < instructions@.len(),
{
    let mut reached: u128 = 0;
    let mut i: usize = 0;
    while i < instructions.len()
        invariant
            i <= instructions@.len(),
            instructions@.len() > 0,
            reached == weight_sum(outcome_percentages(instructions@), i as int),
            picked(outcome_percentages(instructions@), threshold as int) == picked_from(
                outcome_percentages(instructions@),
                threshold as int,
                i as int,
            ),
        decreases instructions@.len() - i,
    {
        proof {
            lemma_small_sum(outcome_percentages(instructions@), i as int);
        }
        reached = reached + weight_of(instructions[i].percentage);
        if reached >= threshold {
            return i;
        }
        i = i + 1;
    }
    instructions.len() - 1
}

proof fn lemma_small_sum(percentages: Seq<i64>, i: int)
    requires
        0 <= i <= percentages.len(),
        i <= usize::MAX,
    ensures
        0 <= weight_sum(percentages, i),
        weight_sum(percentages, i) + i64::MAX <= u128::MAX,
{
    lemma_weight_sum_grows(percentages, 0, i);
    assert(i * i64::MAX <= 0xffff_ffff_ffff_ffff * 0x7fff_ffff_ffff_ffff) by (nonlinear_arith)
        requires
            0 <= i <= 0xffff_ffff_ffff_ffff,
            i64::MAX == 0x7fff_ffff_ffff_ffff,
    ;
}

/// Whether outcome `r` can happen. The only outcome, or the first where none
/// has any weight, does.
pub open spec fn can_happen(outcomes: Seq<StateInstructions>, r: int) -> bool {
    let total = weight_sum(outcome_percentages(outcomes), outcomes.len() as int);
    &&& 0 <= r < outcomes.len()
    &&& if outcomes.len() == 1 || total == 0 {
        r == 0
    } else {
        exists|threshold: int|
            drawn(total, threshold) && r == #[trigger] picked(
                outcome_percentages(outcomes),
                threshold,
            )
    }
}

/// Picks what happens by chance.
pub fn sample_outcome(instructions: &Vec<StateInstructions>, rng: &mut SmallRng) -> (r: usize)
    requires
        instructions@.len() > 0,
    ensures
        can_happen(instructions@, r as int),
        ({
            let all = outcome_percentages(instructions@);
            let total = weight_sum(all, instructions@.len() as int);
            if instructions@.len() == 1 || total == 0 {
                r == 0 && *final(rng) == *old(rng)
            } else {
                exists|threshold: int| #[trigger]
                    gives(*old(rng), total + 1, threshold) && r == picked(all, threshold)
            }
        }),
{
    let mut total: u128 = 0;
    let mut i: usize = 0;
    while i < instructions.len()
        invariant
            i <= instructions@.len(),
            total == weight_sum(outcome_percentages(instructions@), i as int),
        decreases instructions@.len() - i,
    {
        proof {
            lemma_small_sum(outcome_percentages(instructions@), i as int);
        }
        total = total + weight_of(instructions[i].percentage);
        i = i + 1;
    }
    if instructions.len() <= 1 || total == 0 {
        return 0;
    }
    proof {
        lemma_small_sum(outcome_percentages(instructions@), instructions@.len() as int);
    }
    let threshold: u128 = draw_threshold(rng, total);
    sample_outcome_at(instructions, threshold)
}

/// How often a kept tree could be used, and how many visits it brought.
#[derive(Clone, Copy, Debug, PartialEq, Eq, Structural)]
pub struct ReuseCounter {
    pub attempts: usize,
    pub hits: usize,
    /// Visits already on the promoted subtree after each hit: the warm start
    /// that the next search inherits.
    pub warm_visits: u128,
}

impl ReuseCounter {
    /// No more hits than attempts, and no more visits than hits can bring.
    pub open spec fn wf(self) -> bool {
        &&& self.hits <= self.attempts
        &&& self.warm_visits <= self.hits * u64::MAX
    }

    pub fn new() -> (r: ReuseCounter)
        ensures
            r.wf(),
            r.attempts == 0,
            r.hits == 0,
            r.warm_visits == 0,
    {
        ReuseCounter { attempts: 0, hits: 0, warm_visits: 0 }
    }

    /// Adds what another counter counted.
    pub fn add(&mut self, other: &ReuseCounter)
        requires
            old(self).wf(),
            other.wf(),
            old(self).attempts + other.attempts <= usize::MAX,
        ensures
            final(self).wf(),
            final(self).attempts == old(self).attempts + other.attempts,
            final(self).hits == old(self).hits + other.hits,
            final(self).warm_visits == old(self).warm_visits + other.warm_visits,
    {
        proof {
            let a = self.hits as int;
            let b = other.hits as int;
            assert((a + b) * u64::MAX == a * u64::MAX + b * u64::MAX) by (nonlinear_arith);
            assert((a + b) * u64::MAX <= 0xffff_ffff_ffff_ffff * 0xffff_ffff_ffff_ffff)
                by (nonlinear_arith)
                requires
                    0 <= a + b <= 0xffff_ffff_ffff_ffff,
                    u64::MAX == 0xffff_ffff_ffff_ffff,
            ;
        }
        self.attempts = self.attempts + other.attempts;
        self.hits = self.hits + other.hits;
        self.warm_visits = self.warm_visits + other.warm_visits;
    }

    /// Counts one attempt.
    pub fn track(&mut self, hit: bool, warm_visits: u64)
        requires
            old(self).wf(),
            old(self).attempts < usize::MAX,
        ensures
            final(self).wf(),
            final(self).attempts == old(self).attempts + 1,
            final(self).hits == old(self).hits + if hit {
                1int
            } else {
                0
            },
            final(self).warm_visits == old(self).warm_visits + if hit {
                warm_visits as int
            } else {
                0
            },
    {
        self.attempts = self.attempts + 1;
        if hit {
            proof {
                let a = self.hits as int;
                assert((a + 1) * u64::MAX == a * u64::MAX + u64::MAX) by (nonlinear_arith);
                assert((a + 1) * u64::MAX <= 0xffff_ffff_ffff_ffff * 0xffff_ffff_ffff_ffff)
                    by (nonlinear_arith)
                    requires
                        0 <= a + 1 <= 0xffff_ffff_ffff_ffff,
                        u64::MAX == 0xffff_ffff_ffff_ffff,
                ;
            }
            self.hits = self.hits + 1;
            self.warm_visits = self.warm_visits + warm_visits as u128;
        }
    }

    /// The visits that a hit brought on average.
    pub open spec fn average_warm_visits(self) -> int {
        if self.hits == 0 {
            self.warm_visits as int
        } else {
            self.warm_visits as int / self.hits as int
        }
    }

    /// The counter in words; `percent` is the share of hits, written out.
    pub fn describe(&self, percent: &str) -> (r: String)
        requires
            self.wf(),
        ensures
            r@ == decimal(self.hits as nat) + "/"@ + decimal(self.attempts as nat) + " ("@
                + percent@ + "%), avg warm visits/hit: "@ + decimal(
                self.average_warm_visits() as nat,
            ),
    {
        let divisor: u128 = if self.hits == 0 {
            1
        } else {
            self.hits as u128
        };
        let average: u128 = self.warm_visits / divisor;
        proof {
            let w = self.warm_visits as int;
            let h = self.hits as int;
            if h == 0 {
                assert(w == 0);
            } else {
                assert(w / h <= u64::MAX) by (nonlinear_arith)
                    requires
                        0 <= w <= h * u64::MAX,
                        h > 0,
                ;
            }
        }
        let mut r = String::new();
        append_decimal(&mut r, self.hits as u64);
        r.append("/");
        append_decimal(&mut r, self.attempts as u64);
        r.append(" (");
        r.append(percent);
        r.append("%), avg warm visits/hit: ");
        append_decimal(&mut r, average as u64);
        assert(r@ =~= decimal(self.hits as nat) + "/"@ + decimal(self.attempts as nat) + " ("@
            + percent@ + "%), avg warm visits/hit: "@ + decimal(
            self.average_warm_visits() as nat,
        ));
        r
    }
}

/// The games of A against B so far.
#[derive(Clone, Copy, Debug, PartialEq, Eq, Structural)]
pub struct MatchTally {
    pub wins: usize,
    pub losses: usize,
    pub draws: usize,
}

impl MatchTally {
    pub open spec fn games(self) -> int {
        self.wins + self.losses + self.draws
    }

    pub fn new() -> (r: MatchTally)
        ensures
            r.games() == 0,
            r.wins == 0,
            r.losses == 0,
            r.draws == 0,
    {
        MatchTally { wins: 0, losses: 0, draws: 0 }
    }

    /// Counts a game by side one's score, for A on side one or on side two.
    /// Gives A's score.
    pub fn record(&mut self, s1_score: u64, a_is_side_one: bool) -> (a_score: u64)
        requires
            s1_score <= SCORE_ONE,
            old(self).games() < usize::MAX,
        ensures
            a_score == if a_is_side_one {
                s1_score as int
            } else {
                SCORE_ONE - s1_score
            },
            final(self).wins == old(self).wins + if a_score > SCORE_HALF {
                1int
            } else {
                0
            },
            final(self).losses == old(self).losses + if a_score < SCORE_HALF {
                1int
            } else {
                0
            },
            final(self).draws == old(self).draws + if a_score == SCORE_HALF {
                1int
            } else {
                0
            },
            final(self).games() == old(self).games() + 1,
    {
        let a_score: u64 = if a_is_side_one {
            s1_score
        } else {
            SCORE_ONE - s1_score
        };
        if a_score > SCORE_HALF {
            self.wins = self.wins + 1;
        } else if a_score < SCORE_HALF {
            self.losses = self.losses + 1;
        } else {
            self.draws = self.draws + 1;
        }
        a_score
    }
}

} // verus!
