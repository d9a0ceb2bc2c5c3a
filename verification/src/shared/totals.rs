//! The scores that come back to moves of the shared tree.

use crate::float32::Float32;
use crate::mcts::moves::{lemma_rest, rest_of, SCORE_ONE};
use crate::shared::claims::{
    lemma_chain, lemma_goes_through_known, lemma_same, results_one, results_two, starts_known,
};
use crate::shared::laws::{claims_one, claims_two, counts_to, turns};
use crate::shared::tree::{
    lemma_parts, pair_released, parts_of, path_settled, result_score, step_settled, unvisited,
    visited, NodeView, PathStep, SharedTree, SCORE_SCALE,
};
use crate::shared::worker::{
    comes_back, expands, judges, selects, takes_turn, told, Worker, WorkerAction,
    WorkerEvent, WorkerPhase,
};
use vstd::prelude::*;

verus! {

/// The total score of side one's move `i` in position `n`, in parts of a win;
/// none where it is not known.
pub open spec fn total_one(seen: Seq<NodeView>, n: int, i: int) -> u64 {
    if 0 <= n < seen.len() && seen[n].known && 0 <= i < seen[n].s1.len() {
        seen[n].s1[i].total_score
    } else {
        0
    }
}

/// The total score of side two's move `j` in position `n`.
pub open spec fn total_two(seen: Seq<NodeView>, n: int, j: int) -> u64 {
    if 0 <= n < seen.len() && seen[n].known && 0 <= j < seen[n].s2.len() {
        seen[n].s2[j].total_score
    } else {
        0
    }
}

/// The score that a worker comes back with when it is told this, if it does.
pub open spec fn score_in(event: WorkerEvent) -> int {
    match event {
        WorkerEvent::Over(over) => match result_score(over) {
            Some(score) => score as int,
            None => 0,
        },
        WorkerEvent::Value(value) => value as int,
        _ => 0,
    }
}

/// What a turn brings side one's move `i` in position `n`, in parts of a win.
pub open spec fn gain_one(
    path: Seq<PathStep>,
    event: WorkerEvent,
    action: WorkerAction,
    n: int,
    i: int,
) -> int {
    results_one(path, action, n, i) * parts_of(score_in(event))
}

/// What a turn brings side two's move `j` in position `n`.
pub open spec fn gain_two(
    path: Seq<PathStep>,
    event: WorkerEvent,
    action: WorkerAction,
    n: int,
    j: int,
) -> int {
    results_two(path, action, n, j) * parts_of(rest_of(score_in(event)))
}

proof fn lemma_adds(x: u64, amount: int)
    requires
        0 <= amount <= SCORE_SCALE,
    ensures
        counts_to(x, amount, x.wrapping_add(amount as u64)),
{
    let k: int = if x + amount > u64::MAX {
        -1
    } else {
        0
    };
    assert(x + amount + k * turns() == x.wrapping_add(amount as u64));
}

proof fn lemma_step_gains(seen: Seq<NodeView>, step: PathStep, score: int, n: int, i: int, j: int)
    requires
        step.parent < seen.len(),
        step.child < seen.len(),
        seen[step.parent as int].known,
        step.s1_index < seen[step.parent as int].s1.len(),
        step.s2_index < seen[step.parent as int].s2.len(),
        0 <= score <= SCORE_ONE,
    ensures
        ({
            let next = step_settled(seen, step, score);
            &&& next.len() == seen.len()
            &&& forall|m: int|
                0 <= m < seen.len() ==> (#[trigger] next[m]).known == seen[m].known
                    && next[m].s1.len() == seen[m].s1.len() && next[m].s2.len() == seen[m].s2.len()
            &&& counts_to(
                total_one(seen, n, i),
                if step.parent == n && step.s1_index == i {
                    parts_of(score)
                } else {
                    0
                },
                total_one(next, n, i),
            )
            &&& counts_to(
                total_two(seen, n, j),
                if step.parent == n && step.s2_index == j {
                    parts_of(rest_of(score))
                } else {
                    0
                },
                total_two(next, n, j),
            )
        }),
{
    lemma_rest(score);
    lemma_parts(score);
    lemma_parts(rest_of(score));
    lemma_same(total_one(seen, n, i));
    lemma_same(total_two(seen, n, j));
    lemma_adds(total_one(seen, n, i), parts_of(score));
    lemma_adds(total_two(seen, n, j), parts_of(rest_of(score)));
}

/// Coming back up a way brings the score to each of its steps.
proof fn lemma_way_gains(
    seen: Seq<NodeView>,
    path: Seq<PathStep>,
    score: int,
    n: int,
    i: int,
    j: int,
)
    requires
        starts_known(seen, path),
        0 <= score <= SCORE_ONE,
    ensures
        counts_to(
            total_one(seen, n, i),
            claims_one(path, n, i) * parts_of(score),
            total_one(path_settled(seen, path, score), n, i),
        ),
        counts_to(
            total_two(seen, n, j),
            claims_two(path, n, j) * parts_of(rest_of(score)),
            total_two(path_settled(seen, path, score), n, j),
        ),
    decreases path.len(),
{
    let a = parts_of(score);
    let b = parts_of(rest_of(score));
    if path.len() == 0 {
        lemma_same(total_one(seen, n, i));
        lemma_same(total_two(seen, n, j));
        assert(0 * a == 0 && 0 * b == 0);
    } else {
        let step = path.last();
        let rest = path.drop_last();
        assert(path[path.len() - 1] == step);
        lemma_step_gains(seen, step, score, n, i, j);
        let next = step_settled(seen, step, score);
        assert(starts_known(next, rest)) by {
            assert forall|k: int| 0 <= k < rest.len() implies (#[trigger] rest[k]).parent
                < next.len() && rest[k].child < next.len() && rest[k].s1_index
                < next[rest[k].parent as int].s1.len() && rest[k].s2_index
                < next[rest[k].parent as int].s2.len() && next[rest[k].parent as int].known by {
                assert(rest[k] == path[k]);
                assert(seen[path[k].parent as int].known);
            }
        }
        lemma_way_gains(next, rest, score, n, i, j);
        let one = claims_one(rest, n, i);
        let two = claims_two(rest, n, j);
        assert((one + 1) * a == one * a + a) by (nonlinear_arith);
        assert((two + 1) * b == two * b + b) by (nonlinear_arith);
        lemma_chain(
            total_one(seen, n, i),
            if step.parent == n && step.s1_index == i {
                a
            } else {
                0
            },
            total_one(next, n, i),
            one * a,
            total_one(path_settled(seen, path, score), n, i),
        );
        lemma_chain(
            total_two(seen, n, j),
            if step.parent == n && step.s2_index == j {
                b
            } else {
                0
            },
            total_two(next, n, j),
            two * b,
            total_two(path_settled(seen, path, score), n, j),
        );
    }
}

proof fn lemma_return_gains(
    leaf: usize,
    score: u64,
    path: Seq<PathStep>,
    seen: Seq<NodeView>,
    after: (Worker, SharedTree),
    action: WorkerAction,
    n: int,
    i: int,
    j: int,
)
    requires
        leaf < seen.len(),
        starts_known(seen, path),
        score <= SCORE_ONE,
        comes_back(leaf, score, path, seen, after, action),
    ensures
        counts_to(
            total_one(seen, n, i),
            results_one(path, action, n, i) * parts_of(score as int),
            total_one(after.1.seen(), n, i),
        ),
        counts_to(
            total_two(seen, n, j),
            results_two(path, action, n, j) * parts_of(rest_of(score as int)),
            total_two(after.1.seen(), n, j),
        ),
{
    let start = seen.update(leaf as int, visited(seen[leaf as int]));
    assert(starts_known(start, path)) by {
        assert forall|k: int| 0 <= k < path.len() implies (#[trigger] path[k]).parent < start.len()
            && path[k].child < start.len() && path[k].s1_index
            < start[path[k].parent as int].s1.len() && path[k].s2_index
            < start[path[k].parent as int].s2.len() && start[path[k].parent as int].known by {
            assert(seen[path[k].parent as int].known);
        }
    }
    lemma_way_gains(start, path, score as int, n, i, j);
    assert(total_one(start, n, i) == total_one(seen, n, i));
    assert(total_two(start, n, j) == total_two(seen, n, j));
}

proof fn lemma_judging_gains(
    leaf: usize,
    over: i8,
    path: Seq<PathStep>,
    seen: Seq<NodeView>,
    after: (Worker, SharedTree),
    action: WorkerAction,
    n: int,
    i: int,
    j: int,
)
    requires
        leaf < seen.len(),
        starts_known(seen, path),
        judges(leaf, over, path, seen, after, action),
    ensures
        counts_to(
            total_one(seen, n, i),
            gain_one(path, WorkerEvent::Over(over), action, n, i),
            total_one(after.1.seen(), n, i),
        ),
        counts_to(
            total_two(seen, n, j),
            gain_two(path, WorkerEvent::Over(over), action, n, j),
            total_two(after.1.seen(), n, j),
        ),
{
    lemma_same(total_one(seen, n, i));
    lemma_same(total_two(seen, n, j));
    match result_score(over) {
        Some(score) => lemma_return_gains(leaf, score, path, seen, after, action, n, i, j),
        None => {
            lemma_nothing(WorkerEvent::Over(over));
        },
    }
}

proof fn lemma_nothing(event: WorkerEvent)
    ensures
        0 * parts_of(score_in(event)) == 0,
        0 * parts_of(rest_of(score_in(event))) == 0,
{
}

/// A turn changes the total scores of a move by what it brings.
pub proof fn lemma_turn_brings_scores<U: Fn(u64, u64, u64) -> Float32>(
    event: WorkerEvent,
    rank: U,
    before: (Worker, SharedTree),
    after: (Worker, SharedTree),
    action: WorkerAction,
    n: int,
    i: int,
    j: int,
)
    requires
        before.1.wf(),
        before.0.wf(before.1),
        before.0.expects(before.1, event),
        takes_turn(event, rank, before, after, action),
    ensures
        counts_to(
            total_one(before.1.seen(), n, i),
            gain_one(before.0.path@, event, action, n, i),
            total_one(after.1.seen(), n, i),
        ),
        counts_to(
            total_two(before.1.seen(), n, j),
            gain_two(before.0.path@, event, action, n, j),
            total_two(after.1.seen(), n, j),
        ),
{
    let path = before.0.path@;
    let seen = before.1.seen();
    lemma_same(total_one(seen, n, i));
    lemma_same(total_two(seen, n, j));
    lemma_nothing(event);
    lemma_goes_through_known(before.1, path);
    match (before.0.phase, event) {
        (WorkerPhase::Select(m), _) => {
            lemma_selecting_brings_nothing(m, event, rank, before, after, action, n, i, j);
        },
        (WorkerPhase::Leaf(m, a, b), WorkerEvent::Over(over)) => {
            let released = seen.update(
                m as int,
                pair_released(seen[m as int], a as int, b as int),
            );
            assert(total_one(released, n, i) == total_one(seen, n, i));
            assert(total_two(released, n, j) == total_two(seen, n, j));
            assert(starts_known(released, path)) by {
                assert forall|k: int| 0 <= k < path.len() implies (#[trigger] path[k]).parent
                    < released.len() && path[k].child < released.len() && path[k].s1_index
                    < released[path[k].parent as int].s1.len() && path[k].s2_index
                    < released[path[k].parent as int].s2.len()
                    && released[path[k].parent as int].known by {
                    assert(seen[path[k].parent as int].known);
                }
            }
            if judges(m, over, path, released, after, action) {
                lemma_judging_gains(m, over, path, released, after, action, n, i, j);
            }
        },
        (WorkerPhase::Expand(m, a, b), WorkerEvent::Outcomes(list)) => {
            lemma_expanding_brings_nothing((m, a, b), event, before, after, action, n, i, j);
        },
        (WorkerPhase::Judge(m), WorkerEvent::Over(over)) => {
            lemma_judging_gains(m, over, path, seen, after, action, n, i, j);
        },
        (WorkerPhase::Value(m), WorkerEvent::Value(value)) => {
            lemma_return_gains(m, value, path, seen, after, action, n, i, j);
        },
        _ => {},
    }
}

proof fn lemma_selecting_brings_nothing<U: Fn(u64, u64, u64) -> Float32>(
    m: usize,
    event: WorkerEvent,
    rank: U,
    before: (Worker, SharedTree),
    after: (Worker, SharedTree),
    action: WorkerAction,
    n: int,
    i: int,
    j: int,
)
    requires
        before.1.wf(),
        m < before.1.seen().len(),
        selects(m, event, rank, (before.0.path@, before.1), after, action),
    ensures
        action != WorkerAction::Finish,
        total_one(after.1.seen(), n, i) == total_one(before.1.seen(), n, i),
        total_two(after.1.seen(), n, j) == total_two(before.1.seen(), n, j),
{
    let seen = told(before.1.seen(), m as int, event);
    assert(total_one(seen, n, i) == total_one(before.1.seen(), n, i));
    assert(total_two(seen, n, j) == total_two(before.1.seen(), n, j));
}

proof fn lemma_expanding_brings_nothing(
    pair: (usize, usize, usize),
    event: WorkerEvent,
    before: (Worker, SharedTree),
    after: (Worker, SharedTree),
    action: WorkerAction,
    n: int,
    i: int,
    j: int,
)
    requires
        before.1.wf(),
        before.0.wf(before.1),
        before.0.phase == WorkerPhase::Expand(pair.0, pair.1, pair.2),
        event matches WorkerEvent::Outcomes(list) && expands(
            pair,
            list@,
            (before.0.path@, before.1),
            after,
            action,
        ),
    ensures
        action != WorkerAction::Finish,
        total_one(after.1.seen(), n, i) == total_one(before.1.seen(), n, i),
        total_two(after.1.seen(), n, j) == total_two(before.1.seen(), n, j),
{
    let list = event->Outcomes_0;
    let seen = if before.1.expanded().contains_key(pair) {
        before.1.seen()
    } else {
        before.1.seen() + unvisited(list@, before.1.seen()[pair.0 as int].depth)
    };
    assert(total_one(seen, n, i) == total_one(before.1.seen(), n, i));
    assert(total_two(seen, n, j) == total_two(before.1.seen(), n, j));
}

} // verus!
