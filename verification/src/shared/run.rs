//! A whole run of the shared search: many workers, each taking turn after
//! turn until it stops, in whatever order they come.

use crate::float32::Float32;
use crate::mcts::run::BATCH;
use crate::mcts::size::MCTS_MAX_TREE_BYTES;
use crate::shared::claims::{
    all_claims_one, all_claims_two, claimed_one, claimed_two, lemma_chain, lemma_no_claim_is_left,
    lemma_one_worker_changed, lemma_same, lemma_turn_changes_visits_by_claims, results_one,
    results_two, visits_one, visits_two,
};
use crate::shared::laws::{counts_to, lemma_iteration_counts_once_at_the_root, turns, within};
use crate::shared::tree::{
    lemma_outcomes_add_their_bytes, pair_released, result_score, stops_at, SearchLimit, SharedTree,
    VIRTUAL_LOSS_VISITS,
};
use crate::shared::worker::{
    grown, lemma_place_is_kept, starts_over, takes_turn, Worker, WorkerAction, WorkerEvent,
    WorkerPhase,
};
use vstd::prelude::*;

verus! {

/// The workers and their tree at one moment.
pub struct Crew {
    pub workers: Seq<Worker>,
    pub tree: SharedTree,
}

/// One turn: whose it was, what that worker was told and what it asked for.
pub struct Turn {
    pub worker: int,
    pub event: WorkerEvent,
    pub action: WorkerAction,
}

impl Crew {
    /// Whether every worker finds its place in the tree.
    pub open spec fn wf(self) -> bool {
        &&& self.tree.wf()
        &&& forall|w: int| 0 <= w < self.workers.len() ==> (#[trigger] self.workers[w]).wf(self.tree)
    }

    /// Whether all workers are new, with one limit, and nothing was counted.
    pub open spec fn starts(self, limit: SearchLimit) -> bool {
        &&& self.wf()
        &&& self.tree.started() == 0
        &&& forall|w: int|
            0 <= w < self.workers.len() ==> starts_over(#[trigger] self.workers[w])
                && self.workers[w].made == 0 && self.workers[w].current == 0
                && self.workers[w].limit == limit
    }

    /// Whether all workers stopped.
    pub open spec fn stopped(self) -> bool {
        forall|w: int|
            0 <= w < self.workers.len() ==> (#[trigger] self.workers[w]).phase is Stopped
    }
}

/// Whether a turn leads from one moment to the next, as `Worker::step` does
/// it.
pub open spec fn took<U: Fn(u64, u64, u64) -> Float32>(
    rank: U,
    before: Crew,
    turn: Turn,
    after: Crew,
) -> bool {
    let w = turn.worker;
    let old_worker = before.workers[w];
    let new_worker = after.workers[w];
    &&& 0 <= w < before.workers.len()
    &&& old_worker.expects(before.tree, turn.event)
    &&& after.workers == before.workers.update(w, new_worker)
    &&& after.tree.wf()
    &&& new_worker.wf(after.tree)
    &&& grown(before.tree, after.tree)
    &&& old_worker.phase is Done || (after.tree.started() == before.tree.started()
        && new_worker.same_tally(old_worker))
    &&& old_worker.phase is Expand || (after.tree.expanded() == before.tree.expanded()
        && after.tree.bytes() == before.tree.bytes())
    &&& takes_turn(
        turn.event,
        rank,
        (old_worker, before.tree),
        (new_worker, after.tree),
        turn.action,
    )
}

/// A run: the moments, the turns between them and how positions are ranked.
pub struct Run<U> {
    pub rank: U,
    pub crews: Seq<Crew>,
    pub turns: Seq<Turn>,
}

impl<U: Fn(u64, u64, u64) -> Float32> Run<U> {
    /// Whether a run starts with a new crew and goes on turn by turn.
    pub open spec fn wf(self, limit: SearchLimit) -> bool {
        &&& self.crews.len() == self.turns.len() + 1
        &&& self.crews[0].starts(limit)
        &&& forall|k: int|
            0 <= k < self.turns.len() ==> took(
                self.rank,
                self.crews[k],
                #[trigger] self.turns[k],
                self.crews[k + 1],
            )
    }

    /// The worker whose turn `k` is, before it.
    pub open spec fn mover(self, k: int) -> Worker {
        self.crews[k].workers[self.turns[k].worker]
    }

    /// The iterations that were counted in the first `k` turns.
    pub open spec fn iterations(self, k: int) -> int
        decreases k,
    {
        if k <= 0 {
            0
        } else {
            self.iterations(k - 1) + if self.mover(k - 1).phase is Done {
                1int
            } else {
                0
            }
        }
    }

    /// The batches that were filled in the first `k` turns.
    pub open spec fn batches(self, k: int) -> int
        decreases k,
    {
        if k <= 0 {
            0
        } else {
            self.batches(k - 1) + if self.mover(k - 1).phase is Done && self.turns[k - 1].action
                == WorkerAction::AskTime {
                1int
            } else {
                0
            }
        }
    }

    /// The results that came back to side one's move `i` in position `n` in
    /// the first `k` turns.
    pub open spec fn results_one(self, k: int, n: int, i: int) -> int
        decreases k,
    {
        if k <= 0 {
            0
        } else {
            self.results_one(k - 1, n, i) + results_one(
                self.mover(k - 1).path@,
                self.turns[k - 1].action,
                n,
                i,
            )
        }
    }

    /// The results that came back to side two's move `j` in position `n` in
    /// the first `k` turns.
    pub open spec fn results_two(self, k: int, n: int, j: int) -> int
        decreases k,
    {
        if k <= 0 {
            0
        } else {
            self.results_two(k - 1, n, j) + results_two(
                self.mover(k - 1).path@,
                self.turns[k - 1].action,
                n,
                j,
            )
        }
    }

    /// Whether worker `w` heard in the first `k` turns that the time is up.
    pub open spec fn heard_the_bell(self, k: int, w: int) -> bool {
        exists|m: int|
            0 <= m < k && (#[trigger] self.turns[m]).worker == w && self.turns[m].event
                == WorkerEvent::Time(true)
    }

    /// The last moment.
    pub open spec fn end(self) -> Crew {
        self.crews[self.turns.len() as int]
    }

    /// At every moment every worker finds its place, and none is lost.
    pub proof fn lemma_crew(self, limit: SearchLimit, k: int)
        requires
            self.wf(limit),
            0 <= k <= self.turns.len(),
        ensures
            self.crews[k].wf(),
            self.crews[k].workers.len() == self.crews[0].workers.len(),
        decreases k,
    {
        if k > 0 {
            self.lemma_crew(limit, k - 1);
            let turn = self.turns[k - 1];
            let before = self.crews[k - 1];
            let after = self.crews[k];
            assert(took(self.rank, before, turn, after));
            assert forall|w: int| 0 <= w < after.workers.len() implies (
            #[trigger] after.workers[w]).wf(after.tree) by {
                if w != turn.worker {
                    assert(after.workers[w] == before.workers[w]);
                    lemma_place_is_kept(before.workers[w], before.tree, after.tree);
                }
            }
        }
    }

    /// What holds of each worker at each moment.
    pub proof fn lemma_tally(self, limit: SearchLimit, k: int, w: int)
        requires
            self.wf(limit),
            0 <= k <= self.turns.len(),
            0 <= w < self.crews[0].workers.len(),
            self.iterations(k) <= u64::MAX,
        ensures
            ({
                let worker = self.crews[k].workers[w];
                let tree = self.crews[k].tree;
                &&& 0 <= self.iterations(k)
                &&& tree.started() == self.iterations(k)
                &&& worker.limit == limit
                &&& worker.current < tree.started() || worker.current == 0
                &&& worker.phase is Check || worker.phase is Stopped ==> worker.made == 0
                    && worker.current < tree.started()
                &&& worker.phase is Stopped ==> stops_at(
                    limit,
                    tree.bytes(),
                    self.heard_the_bell(k, w),
                    worker.current,
                )
            }),
        decreases k,
    {
        if k > 0 {
            let turn = self.turns[k - 1];
            let before = self.crews[k - 1];
            let after = self.crews[k];
            assert(took(self.rank, before, turn, after));
            assert(self.iterations(k - 1) <= self.iterations(k));
            self.lemma_tally(limit, k - 1, w);
            self.lemma_crew(limit, k - 1);
            self.lemma_tally(limit, k - 1, turn.worker);
            if let WorkerEvent::Outcomes(list) = turn.event {
                if before.tree.bytes() != after.tree.bytes() {
                    lemma_outcomes_add_their_bytes(
                        before.tree.bytes(),
                        after.tree.bytes(),
                        list@,
                    );
                }
            }
            assert(after.tree.bytes() >= before.tree.bytes());
            if self.heard_the_bell(k - 1, w) {
                let m = choose|m: int|
                    0 <= m < k - 1 && (#[trigger] self.turns[m]).worker == w && self.turns[m].event
                        == WorkerEvent::Time(true);
                assert(self.turns[m].worker == w);
                assert(self.heard_the_bell(k, w));
            }
            if turn.worker == w {
                if turn.event == WorkerEvent::Time(true) {
                    assert(self.turns[k - 1].worker == w);
                    assert(self.heard_the_bell(k, w));
                }
                self.lemma_phase(limit, k - 1);
            }
        }
    }

    /// Only a full batch leads to a look at the limits, and only that look
    /// stops a worker.
    pub proof fn lemma_phase(self, limit: SearchLimit, k: int)
        requires
            self.wf(limit),
            0 <= k < self.turns.len(),
        ensures
            ({
                let old_worker = self.mover(k);
                let new_worker = self.crews[k + 1].workers[self.turns[k].worker];
                &&& new_worker.phase is Check ==> old_worker.phase is Done
                &&& new_worker.phase is Stopped ==> old_worker.phase is Check
                    || old_worker.phase is Stopped
                &&& old_worker.phase is Stopped ==> new_worker == old_worker
                    && self.crews[k + 1].tree == self.crews[k].tree
                &&& new_worker.phase is Done <==> self.turns[k].action == WorkerAction::Finish
            }),
    {
        assert(took(self.rank, self.crews[k], self.turns[k], self.crews[k + 1]));
    }
}

/// The sum of a tally over all workers.
pub open spec fn total(workers: Seq<Worker>, tally: spec_fn(Worker) -> int) -> int
    decreases workers.len(),
{
    if workers.len() == 0 {
        0
    } else {
        total(workers.drop_last(), tally) + tally(workers.last())
    }
}

/// A turn of one worker changes a sum by its own tally.
pub proof fn lemma_total_changes(
    workers: Seq<Worker>,
    w: int,
    after: Worker,
    tally: spec_fn(Worker) -> int,
)
    requires
        0 <= w < workers.len(),
    ensures
        total(workers.update(w, after), tally) == total(workers, tally) + tally(after) - tally(
            workers[w],
        ),
    decreases workers.len(),
{
    let updated = workers.update(w, after);
    if w < workers.len() - 1 {
        lemma_total_changes(workers.drop_last(), w, after, tally);
        assert(updated.drop_last() =~= workers.drop_last().update(w, after));
    } else {
        assert(updated.drop_last() =~= workers.drop_last());
    }
}

/// A sum is within what its tallies are within.
pub proof fn lemma_total_is_within(
    workers: Seq<Worker>,
    tally: spec_fn(Worker) -> int,
    low: int,
    high: int,
)
    requires
        forall|w: int| 0 <= w < workers.len() ==> low <= #[trigger] tally(workers[w]) <= high,
    ensures
        low * workers.len() <= total(workers, tally) <= high * workers.len(),
    decreases workers.len(),
{
    if workers.len() > 0 {
        let rest = workers.drop_last();
        assert forall|w: int| 0 <= w < rest.len() implies low <= #[trigger] tally(rest[w])
            <= high by {
            assert(rest[w] == workers[w]);
        }
        lemma_total_is_within(rest, tally, low, high);
        assert(low <= tally(workers[workers.len() - 1]) <= high);
        let n = rest.len() as int;
        assert(low * (n + 1) == low * n + low) by (nonlinear_arith);
        assert(high * (n + 1) == high * n + high) by (nonlinear_arith);
    }
}

/// The iterations that a worker made in its batch.
spec fn made() -> spec_fn(Worker) -> int {
    |worker: Worker| worker.made as int
}

/// One for a worker whose iteration is over and was not counted yet.
pub open spec fn uncounted() -> spec_fn(Worker) -> int {
    |worker: Worker|
        if worker.phase is Done {
            1int
        } else {
            0
        }
}

/// How many iterations a worker may have made past the first `n`.
spec fn past(n: int) -> spec_fn(Worker) -> int {
    |worker: Worker|
        if worker.current < n {
            0int
        } else if worker.phase is Check || worker.phase is Stopped {
            BATCH as int
        } else {
            worker.made as int
        }
}

/// The limit on iterations, where there is one.
pub open spec fn counted_limit(limit: SearchLimit) -> Option<int> {
    match limit {
        SearchLimit::Time => None,
        SearchLimit::Iterations(n) => Some(n as int),
        SearchLimit::TimeOrIterations(n) => Some(n as int),
    }
}

/// The root's visits after a turn: one more if the worker came back.
proof fn lemma_root_counts<U: Fn(u64, u64, u64) -> Float32>(
    rank: U,
    before: Crew,
    turn: Turn,
    after: Crew,
)
    requires
        before.wf(),
        took(rank, before, turn, after),
    ensures
        ({
            let then = before.tree.seen()[0].times_visited;
            after.tree.seen()[0].times_visited == if turn.action == WorkerAction::Finish {
                then.wrapping_add(1)
            } else {
                then
            }
        }),
{
    let worker = before.workers[turn.worker];
    assert(worker.wf(before.tree));
    let path = worker.path@;
    let seen = before.tree.seen();
    assert(within(seen, path)) by {
        assert forall|k: int| 0 <= k < path.len() implies (#[trigger] path[k]).parent < seen.len()
            && path[k].child < seen.len() && path[k].s1_index < seen[path[k].parent as int].s1.len()
            && path[k].s2_index < seen[path[k].parent as int].s2.len() by {
            assert(before.tree.offers(
                path[k].parent as int,
                path[k].s1_index as int,
                path[k].s2_index as int,
            ));
        }
    }
    match (worker.phase, turn.event) {
        (WorkerPhase::Leaf(n, i, j), WorkerEvent::Over(over)) => {
            let released = seen.update(
                n as int,
                pair_released(seen[n as int], i as int, j as int),
            );
            assert(within(released, path)) by {
                assert forall|k: int| 0 <= k < path.len() implies (#[trigger] path[k]).parent
                    < released.len() && path[k].child < released.len() && path[k].s1_index
                    < released[path[k].parent as int].s1.len() && path[k].s2_index
                    < released[path[k].parent as int].s2.len() by {
                    assert(path[k].parent < seen.len());
                }
            }
            if let Some(score) = result_score(over) {
                lemma_iteration_counts_once_at_the_root(released, path, n as int, score as int);
            }
        },
        (WorkerPhase::Judge(n), WorkerEvent::Over(over)) => {
            if let Some(score) = result_score(over) {
                lemma_iteration_counts_once_at_the_root(seen, path, n as int, score as int);
            }
        },
        (WorkerPhase::Value(n), WorkerEvent::Value(value)) => {
            lemma_iteration_counts_once_at_the_root(seen, path, n as int, value as int);
        },
        _ => {},
    }
}

impl<U: Fn(u64, u64, u64) -> Float32> Run<U> {
    /// The counts at each moment: iterations are made in batches, the root
    /// counts those that came back, and no worker is more than one batch past
    /// the limit.
    proof fn lemma_counts(self, limit: SearchLimit, k: int)
        requires
            self.wf(limit),
            0 <= k <= self.turns.len(),
            self.iterations(k) <= u64::MAX,
        ensures
            ({
                let workers = self.crews[k].workers;
                &&& self.iterations(k) == total(workers, made()) + BATCH * self.batches(k)
                &&& counts_to(
                    self.crews[0].tree.seen()[0].times_visited,
                    self.iterations(k) + total(workers, uncounted()),
                    self.crews[k].tree.seen()[0].times_visited,
                )
                &&& counted_limit(limit) matches Some(n) ==> self.iterations(k) - n <= total(
                    workers,
                    past(n),
                )
            }),
        decreases k,
    {
        let start = self.crews[0].workers;
        if k == 0 {
            lemma_total_is_within(start, made(), 0, 0);
            lemma_total_is_within(start, uncounted(), 0, 0);
            lemma_same(self.crews[0].tree.seen()[0].times_visited);
            if let Some(n) = counted_limit(limit) {
                lemma_total_is_within(start, past(n), 0, 0);
            }
        } else {
            let turn = self.turns[k - 1];
            let before = self.crews[k - 1];
            let after = self.crews[k];
            let w = turn.worker;
            let new_worker = after.workers[w];
            assert(took(self.rank, before, turn, after));
            assert(self.iterations(k - 1) <= self.iterations(k));
            self.lemma_crew(limit, k - 1);
            self.lemma_counts(limit, k - 1);
            self.lemma_tally(limit, k - 1, w);
            self.lemma_tally(limit, k, w);
            self.lemma_phase(limit, k - 1);
            assert(before.workers[w].wf(before.tree));
            lemma_total_changes(before.workers, w, new_worker, made());
            lemma_total_changes(before.workers, w, new_worker, uncounted());
            lemma_root_counts(self.rank, before, turn, after);
            let first = self.crews[0].tree.seen()[0].times_visited;
            let then = before.tree.seen()[0].times_visited;
            let now = after.tree.seen()[0].times_visited;
            let step = self.iterations(k) + total(after.workers, uncounted()) - (self.iterations(
                k - 1,
            ) + total(before.workers, uncounted()));
            lemma_counter_moves(then, now);
            assert(counts_to(then, step, now));
            lemma_chain(
                first,
                self.iterations(k - 1) + total(before.workers, uncounted()),
                then,
                step,
                now,
            );
            if let Some(n) = counted_limit(limit) {
                lemma_total_changes(before.workers, w, new_worker, past(n));
                assert forall|v: int| 0 <= v < after.workers.len() implies 0 <= #[trigger] past(n)(
                    after.workers[v],
                ) <= BATCH by {
                    self.lemma_crew(limit, k);
                    assert(after.workers[v].wf(after.tree));
                }
                lemma_total_is_within(after.workers, past(n), 0, BATCH as int);
            }
        }
    }

    /// The visits at each moment: what came back, and the claims of the
    /// workers under way.
    proof fn lemma_visits(self, limit: SearchLimit, k: int, n: int, i: int, j: int)
        requires
            self.wf(limit),
            0 <= k <= self.turns.len(),
        ensures
            ({
                let start = self.crews[0].tree.seen();
                let crew = self.crews[k];
                &&& counts_to(
                    visits_one(start, n, i),
                    self.results_one(k, n, i) + VIRTUAL_LOSS_VISITS * all_claims_one(
                        crew.workers,
                        n,
                        i,
                    ),
                    visits_one(crew.tree.seen(), n, i),
                )
                &&& counts_to(
                    visits_two(start, n, j),
                    self.results_two(k, n, j) + VIRTUAL_LOSS_VISITS * all_claims_two(
                        crew.workers,
                        n,
                        j,
                    ),
                    visits_two(crew.tree.seen(), n, j),
                )
            }),
        decreases k,
    {
        let start = self.crews[0].tree.seen();
        if k == 0 {
            lemma_no_claim_is_left(self.crews[0].workers, n, i, j);
            lemma_same(visits_one(start, n, i));
            lemma_same(visits_two(start, n, j));
        } else {
            let turn = self.turns[k - 1];
            let before = self.crews[k - 1];
            let after = self.crews[k];
            let w = turn.worker;
            assert(took(self.rank, before, turn, after));
            self.lemma_crew(limit, k - 1);
            assert(before.workers[w].wf(before.tree));
            self.lemma_visits(limit, k - 1, n, i, j);
            lemma_turn_changes_visits_by_claims(
                turn.event,
                self.rank,
                (before.workers[w], before.tree),
                (after.workers[w], after.tree),
                turn.action,
                n,
                i,
                j,
            );
            lemma_one_worker_changed(before.workers, w, after.workers[w], n, i, j);
            lemma_chain(
                visits_one(start, n, i),
                self.results_one(k - 1, n, i) + VIRTUAL_LOSS_VISITS * all_claims_one(
                    before.workers,
                    n,
                    i,
                ),
                visits_one(before.tree.seen(), n, i),
                VIRTUAL_LOSS_VISITS * (claimed_one(after.workers[w], n, i) - claimed_one(
                    before.workers[w],
                    n,
                    i,
                )) + results_one(before.workers[w].path@, turn.action, n, i),
                visits_one(after.tree.seen(), n, i),
            );
            lemma_chain(
                visits_two(start, n, j),
                self.results_two(k - 1, n, j) + VIRTUAL_LOSS_VISITS * all_claims_two(
                    before.workers,
                    n,
                    j,
                ),
                visits_two(before.tree.seen(), n, j),
                VIRTUAL_LOSS_VISITS * (claimed_two(after.workers[w], n, j) - claimed_two(
                    before.workers[w],
                    n,
                    j,
                )) + results_two(before.workers[w].path@, turn.action, n, j),
                visits_two(after.tree.seen(), n, j),
            );
        }
    }

    /// A run that is over was made in whole batches, and the root counts each
    /// of its iterations once.
    pub proof fn lemma_run_is_whole_batches(self, limit: SearchLimit)
        requires
            self.wf(limit),
            self.end().stopped(),
            self.end().workers.len() > 0,
            self.iterations(self.turns.len() as int) <= u64::MAX,
        ensures
            self.end().tree.started() == BATCH * self.batches(self.turns.len() as int),
            counts_to(
                self.crews[0].tree.seen()[0].times_visited,
                self.end().tree.started() as int,
                self.end().tree.seen()[0].times_visited,
            ),
    {
        let k = self.turns.len() as int;
        let workers = self.end().workers;
        self.lemma_crew(limit, k);
        self.lemma_counts(limit, k);
        self.lemma_tally(limit, k, 0);
        assert forall|w: int| 0 <= w < workers.len() implies 0 <= #[trigger] made()(workers[w])
            <= 0 by {
            self.lemma_tally(limit, k, w);
        }
        lemma_total_is_within(workers, made(), 0, 0);
        assert forall|w: int| 0 <= w < workers.len() implies 0 <= #[trigger] uncounted()(workers[w])
            <= 0 by {
            assert(workers[w].phase is Stopped);
        }
        lemma_total_is_within(workers, uncounted(), 0, 0);
    }

    /// No run is over before its time: each worker that stopped found the
    /// tree full, heard that the time is up, or found the iterations that it
    /// was to make started.
    pub proof fn lemma_run_meets_its_limit(self, limit: SearchLimit, w: int)
        requires
            self.wf(limit),
            self.end().stopped(),
            0 <= w < self.end().workers.len(),
            self.iterations(self.turns.len() as int) <= u64::MAX,
        ensures
            self.end().tree.bytes() >= MCTS_MAX_TREE_BYTES || (!(limit is Iterations)
                && self.heard_the_bell(self.turns.len() as int, w)) || (counted_limit(
                limit,
            ) matches Some(n) && self.end().tree.started() > n),
    {
        let k = self.turns.len() as int;
        self.lemma_crew(limit, k);
        self.lemma_tally(limit, k, w);
        assert(self.end().workers[w].phase is Stopped);
    }

    /// No run goes far past its limit: no worker makes more than one batch
    /// past the iterations that were asked for.
    pub proof fn lemma_run_keeps_its_limit(self, limit: SearchLimit, n: int)
        requires
            self.wf(limit),
            counted_limit(limit) == Some(n),
            self.end().workers.len() > 0,
            self.iterations(self.turns.len() as int) <= u64::MAX,
        ensures
            self.end().tree.started() <= n + BATCH * self.end().workers.len(),
    {
        let k = self.turns.len() as int;
        let workers = self.end().workers;
        self.lemma_crew(limit, k);
        self.lemma_counts(limit, k);
        self.lemma_tally(limit, k, 0);
        assert forall|w: int| 0 <= w < workers.len() implies 0 <= #[trigger] past(n)(workers[w])
            <= BATCH by {
            assert(workers[w].wf(self.end().tree));
        }
        lemma_total_is_within(workers, past(n), 0, BATCH as int);
    }

    /// No claim is left when a run is over: the visits of a move are what
    /// they were at the start and the results that came back to it.
    pub proof fn lemma_run_leaves_no_claim(self, limit: SearchLimit, n: int, i: int, j: int)
        requires
            self.wf(limit),
            self.end().stopped(),
        ensures
            ({
                let k = self.turns.len() as int;
                let start = self.crews[0].tree.seen();
                &&& counts_to(
                    visits_one(start, n, i),
                    self.results_one(k, n, i),
                    visits_one(self.end().tree.seen(), n, i),
                )
                &&& counts_to(
                    visits_two(start, n, j),
                    self.results_two(k, n, j),
                    visits_two(self.end().tree.seen(), n, j),
                )
            }),
    {
        self.lemma_visits(limit, self.turns.len() as int, n, i, j);
        lemma_no_claim_is_left(self.end().workers, n, i, j);
    }
}

proof fn lemma_counter_moves(then: u64, now: u64)
    ensures
        now == then.wrapping_add(1) ==> counts_to(then, 1, now),
        counts_to(then, 0, then),
{
    lemma_same(then);
    let k: int = if then == u64::MAX {
        -1
    } else {
        0
    };
    assert(then + 1 + k * turns() == then.wrapping_add(1));
}

} // verus!
