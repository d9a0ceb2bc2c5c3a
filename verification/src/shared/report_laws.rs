//! What holds of the report of a run: who made its iterations, and how visits
//! and scores add up at the root.

use crate::float32::Float32;
use crate::mcts::moves::{lemma_rest, rest_of, SCORE_ONE};
use crate::mcts::run::BATCH;
use crate::rounding::{lemma_rounding_keeps_bounds, DOUBLE_RANGE};
use crate::shared::claims::{lemma_chain, lemma_same, results_one, results_two};
use crate::shared::laws::{claims_one, claims_two, counts_to, turns};
use crate::shared::run::{
    lemma_total_changes, lemma_total_is_within, took, total, uncounted, Run,
};
use crate::shared::totals::{
    gain_one, gain_two, lemma_turn_brings_scores, score_in, total_one, total_two,
};
use crate::shared::tree::{
    lemma_parts, parts_of, report_of, MoveNode, NodeView, PathStep, SearchLimit, SCORE_SCALE,
};
use crate::shared::worker::{kept, way_to, WorkerAction, WorkerPhase};
use vstd::arithmetic::power2::{lemma2_to64_rest, pow2};
use vstd::prelude::*;

verus! {

/// The visits of the first `n` moves together.
pub open spec fn visits_sum(options: Seq<MoveNode>, n: int) -> int
    decreases n,
{
    if n <= 0 {
        0
    } else {
        visits_sum(options, n - 1) + options[n - 1].visits
    }
}

/// Whether the root's moves are known and were not tried yet.
pub open spec fn untouched(root: NodeView) -> bool {
    &&& root.known
    &&& root.times_visited == 0
    &&& forall|i: int|
        0 <= i < root.s1.len() ==> (#[trigger] root.s1[i]).visits == 0 && root.s1[i].total_score
            == 0
    &&& forall|j: int|
        0 <= j < root.s2.len() ==> (#[trigger] root.s2[j]).visits == 0 && root.s2[j].total_score
            == 0
}

/// Only the first step of a way starts at the root.
proof fn lemma_root_claims(path: Seq<PathStep>, n: int, i: int, j: int)
    requires
        way_to(path, n),
    ensures
        path.len() == 0 ==> n == 0,
        path.len() > 0 ==> n > 0 && path[0].parent == 0,
        claims_one(path, 0, i) == if path.len() > 0 && path[0].s1_index == i {
            1int
        } else {
            0
        },
        claims_two(path, 0, j) == if path.len() > 0 && path[0].s2_index == j {
            1int
        } else {
            0
        },
    decreases path.len(),
{
    if path.len() > 0 {
        let rest = path.drop_last();
        lemma_root_claims(rest, path.last().parent as int, i, j);
        if rest.len() > 0 {
            assert(rest[0] == path[0]);
        } else {
            assert(path.last() == path[0]);
        }
    }
}

proof fn lemma_same_count(a: int, x: u64)
    requires
        counts_to(0, a, x),
        0 <= a <= u64::MAX,
    ensures
        x == a,
{
    let k = choose|k: int| 0 + a + #[trigger] (k * turns()) == x;
    assert(k == 0) by (nonlinear_arith)
        requires
            a + k * 0x1_0000_0000_0000_0000 == x,
            0 <= a <= 0xffff_ffff_ffff_ffff,
            0 <= x <= 0xffff_ffff_ffff_ffff,
    ;
}

impl<U: Fn(u64, u64, u64) -> Float32> Run<U> {
    /// Whether turn `k` fills a batch of its worker.
    pub open spec fn fills(self, k: int) -> bool {
        self.mover(k).phase is Done && self.turns[k].action == WorkerAction::AskTime
    }

    /// The batches that worker `w` filled in the first `k` turns.
    pub open spec fn batches_of(self, k: int, w: int) -> int
        decreases k,
    {
        if k <= 0 {
            0
        } else {
            self.batches_of(k - 1, w) + if self.fills(k - 1) && self.turns[k - 1].worker == w {
                1int
            } else {
                0
            }
        }
    }

    /// The batches that the first `n` workers filled in the first `k` turns.
    spec fn batches_below(self, k: int, n: int) -> int
        decreases n,
    {
        if n <= 0 {
            0
        } else {
            self.batches_below(k, n - 1) + self.batches_of(k, n - 1)
        }
    }

    proof fn lemma_no_batches(self, n: int)
        ensures
            self.batches_below(0, n) == 0,
        decreases n,
    {
        if n > 0 {
            self.lemma_no_batches(n - 1);
        }
    }

    proof fn lemma_one_more_turn(self, k: int, n: int)
        requires
            0 < k <= self.turns.len(),
            0 <= self.turns[k - 1].worker,
        ensures
            self.batches_below(k, n) == self.batches_below(k - 1, n) + if self.fills(k - 1)
                && self.turns[k - 1].worker < n {
                1int
            } else {
                0
            },
        decreases n,
    {
        if n > 0 {
            self.lemma_one_more_turn(k, n - 1);
        }
    }

    proof fn lemma_batches_add_up(self, limit: SearchLimit, k: int)
        requires
            self.wf(limit),
            0 <= k <= self.turns.len(),
        ensures
            self.batches_below(k, self.crews[0].workers.len() as int) == self.batches(k),
        decreases k,
    {
        let n = self.crews[0].workers.len() as int;
        if k == 0 {
            self.lemma_no_batches(n);
        } else {
            self.lemma_batches_add_up(limit, k - 1);
            self.lemma_crew(limit, k - 1);
            assert(took(self.rank, self.crews[k - 1], self.turns[k - 1], self.crews[k]));
            self.lemma_one_more_turn(k, n);
        }
    }

    /// A worker that looks at the limits, or stopped, filled a batch.
    proof fn lemma_filled_a_batch(self, limit: SearchLimit, k: int, w: int)
        requires
            self.wf(limit),
            0 <= k <= self.turns.len(),
            0 <= w < self.crews[0].workers.len(),
        ensures
            self.batches_of(k, w) >= 0,
            self.crews[k].workers[w].phase is Check || self.crews[k].workers[w].phase is Stopped
                ==> self.batches_of(k, w) >= 1,
        decreases k,
    {
        if k > 0 {
            self.lemma_filled_a_batch(limit, k - 1, w);
            self.lemma_crew(limit, k - 1);
            self.lemma_phase(limit, k - 1);
            assert(took(self.rank, self.crews[k - 1], self.turns[k - 1], self.crews[k]));
        }
    }

    proof fn lemma_each_filled_one(self, limit: SearchLimit, n: int)
        requires
            self.wf(limit),
            self.end().stopped(),
            0 <= n <= self.crews[0].workers.len(),
        ensures
            self.batches_below(self.turns.len() as int, n) >= n,
        decreases n,
    {
        if n > 0 {
            let k = self.turns.len() as int;
            self.lemma_each_filled_one(limit, n - 1);
            self.lemma_crew(limit, k);
            assert(self.end().workers[n - 1].phase is Stopped);
            self.lemma_filled_a_batch(limit, k, n - 1);
        }
    }

    /// Every worker of a run that is over filled at least one batch.
    pub proof fn lemma_every_worker_fills_a_batch(self, limit: SearchLimit)
        requires
            self.wf(limit),
            self.end().stopped(),
            self.iterations(self.turns.len() as int) <= u64::MAX,
        ensures
            self.end().tree.started() >= BATCH * self.end().workers.len(),
    {
        let k = self.turns.len() as int;
        self.lemma_crew(limit, k);
        let n = self.end().workers.len() as int;
        if n > 0 {
            self.lemma_each_filled_one(limit, n);
            self.lemma_batches_add_up(limit, k);
            self.lemma_run_is_whole_batches(limit);
        }
    }

    /// The results that came back in the first `k` turns.
    pub open spec fn finishes(self, k: int) -> int
        decreases k,
    {
        if k <= 0 {
            0
        } else {
            self.finishes(k - 1) + if self.turns[k - 1].action == WorkerAction::Finish {
                1int
            } else {
                0
            }
        }
    }

    /// The results that came back in the first `k` turns from below the root.
    pub open spec fn comebacks(self, k: int) -> int
        decreases k,
    {
        if k <= 0 {
            0
        } else {
            self.comebacks(k - 1) + if self.turns[k - 1].action == WorkerAction::Finish
                && self.mover(k - 1).path@.len() > 0 {
                1int
            } else {
                0
            }
        }
    }

    proof fn lemma_finishes(self, limit: SearchLimit, k: int)
        requires
            self.wf(limit),
            0 <= k <= self.turns.len(),
        ensures
            self.finishes(k) == self.iterations(k) + total(self.crews[k].workers, uncounted()),
            0 <= self.comebacks(k) <= self.finishes(k),
        decreases k,
    {
        if k == 0 {
            let start = self.crews[0].workers;
            assert forall|w: int| 0 <= w < start.len() implies 0 <= #[trigger] uncounted()(start[w])
                <= 0 by {}
            lemma_total_is_within(start, uncounted(), 0, 0);
        } else {
            let turn = self.turns[k - 1];
            let before = self.crews[k - 1];
            let after = self.crews[k];
            assert(took(self.rank, before, turn, after));
            self.lemma_finishes(limit, k - 1);
            self.lemma_phase(limit, k - 1);
            lemma_total_changes(
                before.workers,
                turn.worker,
                after.workers[turn.worker],
                uncounted(),
            );
        }
    }

    /// The root keeps its moves.
    proof fn lemma_root_is_kept(self, limit: SearchLimit, k: int)
        requires
            self.wf(limit),
            0 <= k <= self.turns.len(),
            self.crews[0].tree.seen()[0].known,
        ensures
            ({
                let start = self.crews[0].tree.seen()[0];
                let root = self.crews[k].tree.seen()[0];
                &&& self.crews[k].tree.seen().len() > 0
                &&& root.known
                &&& root.s1.len() == start.s1.len()
                &&& root.s2.len() == start.s2.len()
            }),
        decreases k,
    {
        self.lemma_crew(limit, k);
        if k > 0 {
            self.lemma_root_is_kept(limit, k - 1);
            assert(took(self.rank, self.crews[k - 1], self.turns[k - 1], self.crews[k]));
            assert(kept(self.crews[k - 1].tree.seen()[0], self.crews[k].tree.seen()[0]));
        }
    }

    /// A worker that comes back had a way to where it was.
    proof fn lemma_came_by_a_way(self, limit: SearchLimit, k: int) -> (n: int)
        requires
            self.wf(limit),
            0 <= k < self.turns.len(),
            self.turns[k].action == WorkerAction::Finish,
        ensures
            way_to(self.mover(k).path@, n),
            0 <= score_in(self.turns[k].event) <= SCORE_ONE,
    {
        self.lemma_crew(limit, k);
        self.lemma_phase(limit, k);
        let worker = self.mover(k);
        assert(took(self.rank, self.crews[k], self.turns[k], self.crews[k + 1]));
        assert(worker.wf(self.crews[k].tree));
        match worker.phase {
            WorkerPhase::Leaf(n, _, _) => n as int,
            WorkerPhase::Judge(n) => n as int,
            WorkerPhase::Value(n) => n as int,
            _ => 0,
        }
    }

    /// The results that came back to the first `m` moves of side one at the
    /// root.
    spec fn root_results_one(self, k: int, m: int) -> int
        decreases m,
    {
        if m <= 0 {
            0
        } else {
            self.root_results_one(k, m - 1) + self.results_one(k, 0, m - 1)
        }
    }

    spec fn root_results_two(self, k: int, m: int) -> int
        decreases m,
    {
        if m <= 0 {
            0
        } else {
            self.root_results_two(k, m - 1) + self.results_two(k, 0, m - 1)
        }
    }

    proof fn lemma_no_results(self, m: int)
        ensures
            self.root_results_one(0, m) == 0,
            self.root_results_two(0, m) == 0,
        decreases m,
    {
        if m > 0 {
            self.lemma_no_results(m - 1);
        }
    }

    /// A turn that comes back from below the root brings one result to one
    /// move of each side there.
    proof fn lemma_one_more_result(self, limit: SearchLimit, k: int, m: int)
        requires
            self.wf(limit),
            0 < k <= self.turns.len(),
        ensures
            ({
                let path = self.mover(k - 1).path@;
                let back = self.turns[k - 1].action == WorkerAction::Finish && path.len() > 0;
                &&& self.root_results_one(k, m) == self.root_results_one(k - 1, m) + if back
                    && path[0].s1_index < m {
                    1int
                } else {
                    0
                }
                &&& self.root_results_two(k, m) == self.root_results_two(k - 1, m) + if back
                    && path[0].s2_index < m {
                    1int
                } else {
                    0
                }
            }),
        decreases m,
    {
        if m > 0 {
            self.lemma_one_more_result(limit, k, m - 1);
            let path = self.mover(k - 1).path@;
            if self.turns[k - 1].action == WorkerAction::Finish {
                let n = self.lemma_came_by_a_way(limit, k - 1);
                lemma_root_claims(path, n, m - 1, m - 1);
            }
        }
    }

    proof fn lemma_root_results(self, limit: SearchLimit, k: int)
        requires
            self.wf(limit),
            0 <= k <= self.turns.len(),
            self.crews[0].tree.seen()[0].known,
        ensures
            ({
                let start = self.crews[0].tree.seen()[0];
                &&& self.root_results_one(k, start.s1.len() as int) == self.comebacks(k)
                &&& self.root_results_two(k, start.s2.len() as int) == self.comebacks(k)
            }),
        decreases k,
    {
        let start = self.crews[0].tree.seen()[0];
        if k == 0 {
            self.lemma_no_results(start.s1.len() as int);
            self.lemma_no_results(start.s2.len() as int);
        } else {
            self.lemma_root_results(limit, k - 1);
            self.lemma_root_is_kept(limit, k - 1);
            self.lemma_one_more_result(limit, k, start.s1.len() as int);
            self.lemma_one_more_result(limit, k, start.s2.len() as int);
            self.lemma_crew(limit, k - 1);
            assert(took(self.rank, self.crews[k - 1], self.turns[k - 1], self.crews[k]));
            let worker = self.mover(k - 1);
            assert(worker.wf(self.crews[k - 1].tree));
            if self.turns[k - 1].action == WorkerAction::Finish && worker.path@.len() > 0 {
                let n = self.lemma_came_by_a_way(limit, k - 1);
                lemma_root_claims(worker.path@, n, 0, 0);
                let step = worker.path@[0];
                assert(self.crews[k - 1].tree.offers(
                    step.parent as int,
                    step.s1_index as int,
                    step.s2_index as int,
                ));
            }
        }
    }

    /// Results are counted up.
    proof fn lemma_results_are_counted(self, limit: SearchLimit, k: int, i: int)
        requires
            self.wf(limit),
            0 <= k <= self.turns.len(),
        ensures
            self.results_one(k, 0, i) >= 0,
            self.results_two(k, 0, i) >= 0,
        decreases k,
    {
        if k > 0 {
            self.lemma_results_are_counted(limit, k - 1, i);
            if self.turns[k - 1].action == WorkerAction::Finish {
                let n = self.lemma_came_by_a_way(limit, k - 1);
                lemma_root_claims(self.mover(k - 1).path@, n, i, i);
            }
        }
    }

    /// No move has more results than all together.
    proof fn lemma_part_of_all(self, limit: SearchLimit, k: int, i: int, m: int)
        requires
            self.wf(limit),
            0 <= k <= self.turns.len(),
            0 <= m,
        ensures
            0 <= self.root_results_one(k, m),
            0 <= self.root_results_two(k, m),
            0 <= i < m ==> 0 <= self.results_one(k, 0, i) <= self.root_results_one(k, m),
            0 <= i < m ==> 0 <= self.results_two(k, 0, i) <= self.root_results_two(k, m),
        decreases m,
    {
        if m > 0 {
            self.lemma_part_of_all(limit, k, i, m - 1);
            self.lemma_results_are_counted(limit, k, m - 1);
        }
    }

    /// The visits of the root's moves at the end are the results that came
    /// back to them.
    proof fn lemma_root_visits_are_results(self, limit: SearchLimit, i: int)
        requires
            self.wf(limit),
            self.end().stopped(),
            untouched(self.crews[0].tree.seen()[0]),
            self.iterations(self.turns.len() as int) <= u64::MAX,
        ensures
            ({
                let k = self.turns.len() as int;
                let root = self.end().tree.seen()[0];
                &&& self.comebacks(k) <= self.iterations(k)
                &&& 0 <= i < root.s1.len() ==> root.s1[i].visits == self.results_one(k, 0, i)
                    && root.s1[i].visits <= self.comebacks(k)
                &&& 0 <= i < root.s2.len() ==> root.s2[i].visits == self.results_two(k, 0, i)
                    && root.s2[i].visits <= self.comebacks(k)
            }),
    {
        let k = self.turns.len() as int;
        let start = self.crews[0].tree.seen();
        let root = self.end().tree.seen()[0];
        let workers = self.end().workers;
        self.lemma_crew(limit, 0);
        self.lemma_crew(limit, k);
        self.lemma_finishes(limit, k);
        assert forall|w: int| 0 <= w < workers.len() implies 0 <= #[trigger] uncounted()(workers[w])
            <= 0 by {
            assert(workers[w].phase is Stopped);
        }
        lemma_total_is_within(workers, uncounted(), 0, 0);
        self.lemma_root_is_kept(limit, k);
        self.lemma_root_results(limit, k);
        self.lemma_run_leaves_no_claim(limit, 0, i, i);
        self.lemma_part_of_all(limit, k, i, start[0].s1.len() as int);
        self.lemma_part_of_all(limit, k, i, start[0].s2.len() as int);
        if 0 <= i < root.s1.len() {
            assert(start[0].s1[i].visits == 0);
            lemma_same_count(self.results_one(k, 0, i), root.s1[i].visits);
        }
        if 0 <= i < root.s2.len() {
            assert(start[0].s2[i].visits == 0);
            lemma_same_count(self.results_two(k, 0, i), root.s2[i].visits);
        }
    }

    proof fn lemma_sums(self, limit: SearchLimit, m: int)
        requires
            self.wf(limit),
            self.end().stopped(),
            untouched(self.crews[0].tree.seen()[0]),
            self.iterations(self.turns.len() as int) <= u64::MAX,
        ensures
            ({
                let k = self.turns.len() as int;
                let root = self.end().tree.seen()[0];
                &&& m <= root.s1.len() ==> visits_sum(root.s1, m) == self.root_results_one(k, m)
                &&& m <= root.s2.len() ==> visits_sum(root.s2, m) == self.root_results_two(k, m)
            }),
        decreases m,
    {
        if m > 0 {
            self.lemma_sums(limit, m - 1);
            self.lemma_root_visits_are_results(limit, m - 1);
        }
    }

    /// At the end of a run both sides' visits at the root add up to one
    /// number, the results that came back from below it, which is no more
    /// than the root's own visits; and those are the iterations of the run.
    pub proof fn lemma_root_visits_add_up(self, limit: SearchLimit)
        requires
            self.wf(limit),
            self.end().stopped(),
            self.end().workers.len() > 0,
            untouched(self.crews[0].tree.seen()[0]),
            self.iterations(self.turns.len() as int) <= u64::MAX,
        ensures
            ({
                let k = self.turns.len() as int;
                let root = self.end().tree.seen()[0];
                &&& visits_sum(root.s1, root.s1.len() as int) == self.comebacks(k)
                &&& visits_sum(root.s2, root.s2.len() as int) == self.comebacks(k)
                &&& self.comebacks(k) <= root.times_visited
                &&& root.times_visited == self.end().tree.started()
            }),
    {
        let k = self.turns.len() as int;
        let root = self.end().tree.seen()[0];
        self.lemma_root_is_kept(limit, k);
        self.lemma_root_results(limit, k);
        self.lemma_sums(limit, root.s1.len() as int);
        self.lemma_sums(limit, root.s2.len() as int);
        self.lemma_root_visits_are_results(limit, 0);
        self.lemma_run_is_whole_batches(limit);
        self.lemma_crew(limit, k);
        self.lemma_tally(limit, k, 0);
        lemma_same_count(self.end().tree.started() as int, root.times_visited);
    }

    /// The parts of a win that came back to side one's move `i` at the root
    /// in the first `k` turns.
    pub open spec fn gains_one(self, k: int, i: int) -> int
        decreases k,
    {
        if k <= 0 {
            0
        } else {
            self.gains_one(k - 1, i) + gain_one(
                self.mover(k - 1).path@,
                self.turns[k - 1].event,
                self.turns[k - 1].action,
                0,
                i,
            )
        }
    }

    /// The parts of a win that came back to side two's move `j` at the root
    /// in the first `k` turns.
    pub open spec fn gains_two(self, k: int, j: int) -> int
        decreases k,
    {
        if k <= 0 {
            0
        } else {
            self.gains_two(k - 1, j) + gain_two(
                self.mover(k - 1).path@,
                self.turns[k - 1].event,
                self.turns[k - 1].action,
                0,
                j,
            )
        }
    }

    proof fn lemma_gains(self, limit: SearchLimit, k: int, i: int)
        requires
            self.wf(limit),
            0 <= k <= self.turns.len(),
        ensures
            counts_to(
                total_one(self.crews[0].tree.seen(), 0, i),
                self.gains_one(k, i),
                total_one(self.crews[k].tree.seen(), 0, i),
            ),
            counts_to(
                total_two(self.crews[0].tree.seen(), 0, i),
                self.gains_two(k, i),
                total_two(self.crews[k].tree.seen(), 0, i),
            ),
            0 <= self.gains_one(k, i) <= SCORE_SCALE * self.results_one(k, 0, i),
            0 <= self.gains_two(k, i) <= SCORE_SCALE * self.results_two(k, 0, i),
        decreases k,
    {
        let start = self.crews[0].tree.seen();
        if k == 0 {
            lemma_same(total_one(start, 0, i));
            lemma_same(total_two(start, 0, i));
        } else {
            let turn = self.turns[k - 1];
            let before = self.crews[k - 1];
            let after = self.crews[k];
            let worker = self.mover(k - 1);
            assert(took(self.rank, before, turn, after));
            self.lemma_crew(limit, k - 1);
            self.lemma_gains(limit, k - 1, i);
            assert(worker.wf(before.tree));
            lemma_turn_brings_scores(
                turn.event,
                self.rank,
                (worker, before.tree),
                (after.workers[turn.worker], after.tree),
                turn.action,
                0,
                i,
                i,
            );
            lemma_chain(
                total_one(start, 0, i),
                self.gains_one(k - 1, i),
                total_one(before.tree.seen(), 0, i),
                gain_one(worker.path@, turn.event, turn.action, 0, i),
                total_one(after.tree.seen(), 0, i),
            );
            lemma_chain(
                total_two(start, 0, i),
                self.gains_two(k - 1, i),
                total_two(before.tree.seen(), 0, i),
                gain_two(worker.path@, turn.event, turn.action, 0, i),
                total_two(after.tree.seen(), 0, i),
            );
            let a = results_one(worker.path@, turn.action, 0, i);
            let b = results_two(worker.path@, turn.action, 0, i);
            let score = score_in(turn.event);
            let p = parts_of(score);
            let q = parts_of(rest_of(score));
            if turn.action == WorkerAction::Finish {
                let n = self.lemma_came_by_a_way(limit, k - 1);
                lemma_root_claims(worker.path@, n, i, i);
                lemma_rest(score);
                lemma_parts(score);
                lemma_parts(rest_of(score));
                assert(0 <= a * p <= SCORE_SCALE * a) by (nonlinear_arith)
                    requires
                        0 <= a,
                        0 <= p <= SCORE_SCALE,
                ;
                assert(0 <= b * q <= SCORE_SCALE * b) by (nonlinear_arith)
                    requires
                        0 <= b,
                        0 <= q <= SCORE_SCALE,
                ;
            } else {
                assert(a * p == 0 && b * q == 0) by (nonlinear_arith)
                    requires
                        a == 0,
                        b == 0,
                ;
            }
        }
    }

    /// No move of the root is reported with more than a win for each of its
    /// visits, and its total score is the sum of what came back to it.
    pub proof fn lemma_no_score_above_its_visits(self, limit: SearchLimit, i: int)
        requires
            self.wf(limit),
            self.end().stopped(),
            untouched(self.crews[0].tree.seen()[0]),
            self.iterations(self.turns.len() as int) < DOUBLE_RANGE,
        ensures
            ({
                let k = self.turns.len() as int;
                let root = self.end().tree.seen()[0];
                &&& 0 <= i < root.s1.len() ==> root.s1[i].total_score == self.gains_one(k, i)
                    && report_of(root.s1[i]).total_score <= root.s1[i].visits * SCORE_ONE
                &&& 0 <= i < root.s2.len() ==> root.s2[i].total_score == self.gains_two(k, i)
                    && report_of(root.s2[i]).total_score <= root.s2[i].visits * SCORE_ONE
            }),
    {
        let k = self.turns.len() as int;
        let start = self.crews[0].tree.seen();
        let root = self.end().tree.seen()[0];
        self.lemma_crew(limit, 0);
        self.lemma_root_is_kept(limit, k);
        self.lemma_root_visits_are_results(limit, i);
        self.lemma_gains(limit, k, i);
        if 0 <= i < root.s1.len() {
            assert(start[0].s1[i].total_score == 0);
            lemma_same_count(self.gains_one(k, i), root.s1[i].total_score);
            lemma_reported_within_visits(root.s1[i]);
        }
        if 0 <= i < root.s2.len() {
            assert(start[0].s2[i].total_score == 0);
            lemma_same_count(self.gains_two(k, i), root.s2[i].total_score);
            lemma_reported_within_visits(root.s2[i]);
        }
    }
}

proof fn lemma_reported_within_visits(option: MoveNode)
    requires
        option.total_score <= SCORE_SCALE * option.visits,
        option.visits < DOUBLE_RANGE,
    ensures
        report_of(option).total_score <= option.visits * SCORE_ONE,
{
    let v = option.visits as int;
    let t = option.total_score as int;
    lemma2_to64_rest();
    assert(pow2(63) == SCORE_ONE);
    assert(0 <= t * SCORE_ONE <= (v * SCORE_ONE) * SCORE_SCALE) by (nonlinear_arith)
        requires
            0 <= t <= SCORE_SCALE * v,
    ;
    assert(v * SCORE_ONE < DOUBLE_RANGE * SCORE_ONE) by (nonlinear_arith)
        requires
            v < DOUBLE_RANGE,
            SCORE_ONE == 0x8000_0000_0000_0000,
    ;
    vstd::arithmetic::div_mod::lemma_mod_multiples_basic(v, SCORE_ONE as int);
    lemma_rounding_keeps_bounds(
        t * SCORE_ONE,
        SCORE_SCALE as int,
        v * SCORE_ONE,
        63,
        DOUBLE_RANGE as int,
    );
}

} // verus!
