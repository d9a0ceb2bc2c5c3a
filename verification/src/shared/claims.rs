//! The claims of workers under way, and that they come to nothing.

use crate::float32::Float32;
use crate::mcts::moves::{MoveChoice, StateInstructions};
use crate::shared::laws::{claims_one, claims_two, counts_to, turns, within};
use crate::shared::tree::{
    arrived, best_pair, comes_up, pair_held, pair_released, path_settled, ranks_as, result_score,
    step_settled, unvisited, visited, NodeView, PathStep, RankFn, SharedTree, VIRTUAL_LOSS_VISITS,
};
use crate::shared::worker::{
    comes_back, decides, expands, judges, selects, starts_over, takes_turn, told, Worker,
    WorkerAction, WorkerEvent, WorkerPhase,
};
use vstd::prelude::*;

verus! {

/// The visits of side one's move `i` in position `n`, none where it is not
/// known.
pub open spec fn visits_one(seen: Seq<NodeView>, n: int, i: int) -> u64 {
    if 0 <= n < seen.len() && seen[n].known && 0 <= i < seen[n].s1.len() {
        seen[n].s1[i].visits
    } else {
        0
    }
}

/// The visits of side two's move `j` in position `n`, none where it is not
/// known.
pub open spec fn visits_two(seen: Seq<NodeView>, n: int, j: int) -> u64 {
    if 0 <= n < seen.len() && seen[n].known && 0 <= j < seen[n].s2.len() {
        seen[n].s2[j].visits
    } else {
        0
    }
}

/// How many claims on side one's move `i` in position `n` a worker has: one
/// for each step of its way by that move, and one if it waits there. A
/// worker that came back has none.
pub open spec fn claimed_one(worker: Worker, n: int, i: int) -> int {
    match worker.phase {
        WorkerPhase::Done | WorkerPhase::Check | WorkerPhase::Stopped => 0,
        WorkerPhase::Leaf(m, a, _) | WorkerPhase::Expand(m, a, _) => claims_one(
            worker.path@,
            n,
            i,
        ) + if m == n && a == i {
            1int
        } else {
            0
        },
        _ => claims_one(worker.path@, n, i),
    }
}

/// How many claims on side two's move `j` in position `n` a worker has.
pub open spec fn claimed_two(worker: Worker, n: int, j: int) -> int {
    match worker.phase {
        WorkerPhase::Done | WorkerPhase::Check | WorkerPhase::Stopped => 0,
        WorkerPhase::Leaf(m, _, b) | WorkerPhase::Expand(m, _, b) => claims_two(
            worker.path@,
            n,
            j,
        ) + if m == n && b == j {
            1int
        } else {
            0
        },
        _ => claims_two(worker.path@, n, j),
    }
}

/// How many results a turn brings to side one's move `i` in position `n`: one
/// for each step of the way by that move, if the worker comes back.
pub open spec fn results_one(path: Seq<PathStep>, action: WorkerAction, n: int, i: int) -> int {
    if action == WorkerAction::Finish {
        claims_one(path, n, i)
    } else {
        0
    }
}

/// How many results a turn brings to side two's move `j` in position `n`.
pub open spec fn results_two(path: Seq<PathStep>, action: WorkerAction, n: int, j: int) -> int {
    if action == WorkerAction::Finish {
        claims_two(path, n, j)
    } else {
        0
    }
}

/// No change.
pub proof fn lemma_same(x: u64)
    ensures
        counts_to(x, 0, x),
{
    assert(x + 0 + 0int * turns() == x);
}

/// Two changes in a row are their sum.
pub proof fn lemma_chain(x: u64, a: int, y: u64, b: int, z: u64)
    requires
        counts_to(x, a, y),
        counts_to(y, b, z),
    ensures
        counts_to(x, a + b, z),
{
    let k = choose|k: int| x + a + #[trigger] (k * turns()) == y;
    let l = choose|l: int| y + b + #[trigger] (l * turns()) == z;
    assert((k + l) * turns() == k * turns() + l * turns()) by (nonlinear_arith);
    assert(x + (a + b) + (k + l) * turns() == z);
}

proof fn lemma_claim_counts(x: u64)
    ensures
        counts_to(x, VIRTUAL_LOSS_VISITS as int, x.wrapping_add(VIRTUAL_LOSS_VISITS)),
        counts_to(x, -VIRTUAL_LOSS_VISITS, x.wrapping_sub(VIRTUAL_LOSS_VISITS)),
        counts_to(
            x,
            1 - VIRTUAL_LOSS_VISITS,
            x.wrapping_add(1).wrapping_sub(VIRTUAL_LOSS_VISITS),
        ),
{
    let up = x.wrapping_add(VIRTUAL_LOSS_VISITS);
    let k: int = if x + 3 > u64::MAX {
        -1
    } else {
        0
    };
    assert(x + VIRTUAL_LOSS_VISITS as int + k * turns() == up);
    let down = x.wrapping_sub(VIRTUAL_LOSS_VISITS);
    let l: int = if x < 3 {
        1
    } else {
        0
    };
    assert(x + (-VIRTUAL_LOSS_VISITS) + l * turns() == down);
    let settled = x.wrapping_add(1).wrapping_sub(VIRTUAL_LOSS_VISITS);
    let m: int = if x < 2 {
        1
    } else {
        0
    };
    assert(x + (1 - VIRTUAL_LOSS_VISITS) + m * turns() == settled);
}

/// One more step on a way is one more claim.
proof fn lemma_claims_of_step(path: Seq<PathStep>, step: PathStep, n: int, i: int, j: int)
    ensures
        claims_one(path.push(step), n, i) == claims_one(path, n, i) + if step.parent == n
            && step.s1_index == i {
            1int
        } else {
            0
        },
        claims_two(path.push(step), n, j) == claims_two(path, n, j) + if step.parent == n
            && step.s2_index == j {
            1int
        } else {
            0
        },
{
    assert(path.push(step).drop_last() =~= path);
}

/// Whether every step of a way starts in a position whose moves are known.
pub open spec fn starts_known(seen: Seq<NodeView>, path: Seq<PathStep>) -> bool {
    within(seen, path) && forall|k: int|
        0 <= k < path.len() ==> seen[(#[trigger] path[k]).parent as int].known
}

proof fn lemma_step_back(seen: Seq<NodeView>, step: PathStep, score: int, n: int, i: int, j: int)
    requires
        step.parent < seen.len(),
        step.child < seen.len(),
        seen[step.parent as int].known,
        step.s1_index < seen[step.parent as int].s1.len(),
        step.s2_index < seen[step.parent as int].s2.len(),
    ensures
        ({
            let next = step_settled(seen, step, score);
            &&& next.len() == seen.len()
            &&& forall|m: int|
                0 <= m < seen.len() ==> (#[trigger] next[m]).known == seen[m].known
                    && next[m].s1.len() == seen[m].s1.len() && next[m].s2.len() == seen[m].s2.len()
            &&& counts_to(
                visits_one(seen, n, i),
                (1 - VIRTUAL_LOSS_VISITS) * if step.parent == n && step.s1_index == i {
                    1int
                } else {
                    0
                },
                visits_one(next, n, i),
            )
            &&& counts_to(
                visits_two(seen, n, j),
                (1 - VIRTUAL_LOSS_VISITS) * if step.parent == n && step.s2_index == j {
                    1int
                } else {
                    0
                },
                visits_two(next, n, j),
            )
        }),
{
    lemma_same(visits_one(seen, n, i));
    lemma_same(visits_two(seen, n, j));
    lemma_claim_counts(visits_one(seen, n, i));
    lemma_claim_counts(visits_two(seen, n, j));
}

/// Coming back up a way takes the claims of its steps back and brings each
/// step one result.
proof fn lemma_way_back(
    seen: Seq<NodeView>,
    path: Seq<PathStep>,
    score: int,
    n: int,
    i: int,
    j: int,
)
    requires
        starts_known(seen, path),
    ensures
        counts_to(
            visits_one(seen, n, i),
            (1 - VIRTUAL_LOSS_VISITS) * claims_one(path, n, i),
            visits_one(path_settled(seen, path, score), n, i),
        ),
        counts_to(
            visits_two(seen, n, j),
            (1 - VIRTUAL_LOSS_VISITS) * claims_two(path, n, j),
            visits_two(path_settled(seen, path, score), n, j),
        ),
    decreases path.len(),
{
    if path.len() == 0 {
        lemma_same(visits_one(seen, n, i));
        lemma_same(visits_two(seen, n, j));
    } else {
        let step = path.last();
        let rest = path.drop_last();
        assert(path[path.len() - 1] == step);
        lemma_step_back(seen, step, score, n, i, j);
        let next = step_settled(seen, step, score);
        assert(starts_known(next, rest)) by {
            assert forall|k: int| 0 <= k < rest.len() implies (#[trigger] rest[k]).parent
                < next.len() && rest[k].child < next.len() && rest[k].s1_index
                < next[rest[k].parent as int].s1.len() && rest[k].s2_index
                < next[rest[k].parent as int].s2.len() && next[rest[k].parent as int].known by {
                assert(rest[k] == path[k]);
                assert(seen[path[k].parent as int].known);
            }
        }
        lemma_way_back(next, rest, score, n, i, j);
        let one = if step.parent == n && step.s1_index == i {
            1int
        } else {
            0
        };
        let two = if step.parent == n && step.s2_index == j {
            1int
        } else {
            0
        };
        lemma_chain(
            visits_one(seen, n, i),
            (1 - VIRTUAL_LOSS_VISITS) * one,
            visits_one(next, n, i),
            (1 - VIRTUAL_LOSS_VISITS) * claims_one(rest, n, i),
            visits_one(path_settled(seen, path, score), n, i),
        );
        lemma_chain(
            visits_two(seen, n, j),
            (1 - VIRTUAL_LOSS_VISITS) * two,
            visits_two(next, n, j),
            (1 - VIRTUAL_LOSS_VISITS) * claims_two(rest, n, j),
            visits_two(path_settled(seen, path, score), n, j),
        );
    }
}

/// A way through a tree starts its steps where moves are known.
pub proof fn lemma_goes_through_known(tree: SharedTree, path: Seq<PathStep>)
    requires
        tree.goes_through(path),
    ensures
        starts_known(tree.seen(), path),
{
    assert forall|k: int| 0 <= k < path.len() implies (#[trigger] path[k]).parent
        < tree.seen().len() && path[k].child < tree.seen().len() && path[k].s1_index
        < tree.seen()[path[k].parent as int].s1.len() && path[k].s2_index
        < tree.seen()[path[k].parent as int].s2.len()
        && tree.seen()[path[k].parent as int].known by {
        assert(tree.offers(
            path[k].parent as int,
            path[k].s1_index as int,
            path[k].s2_index as int,
        ));
    }
}

/// What a worker that scores a position does to the visits of a move, from
/// the positions `seen`.
proof fn lemma_judging(
    leaf: usize,
    over: i8,
    path: Seq<PathStep>,
    seen: Seq<NodeView>,
    after: (Worker, SharedTree),
    action: WorkerAction,
    n: int,
    i: int,
    j: int,
)
    requires
        leaf < seen.len(),
        starts_known(seen, path),
        judges(leaf, over, path, seen, after, action),
    ensures
        counts_to(
            visits_one(seen, n, i),
            VIRTUAL_LOSS_VISITS * (claimed_one(after.0, n, i) - claims_one(path, n, i))
                + results_one(path, action, n, i),
            visits_one(after.1.seen(), n, i),
        ),
        counts_to(
            visits_two(seen, n, j),
            VIRTUAL_LOSS_VISITS * (claimed_two(after.0, n, j) - claims_two(path, n, j))
                + results_two(path, action, n, j),
            visits_two(after.1.seen(), n, j),
        ),
{
    match result_score(over) {
        Some(score) => lemma_coming_back(leaf, score, path, seen, after, action, n, i, j),
        None => {
            lemma_same(visits_one(seen, n, i));
            lemma_same(visits_two(seen, n, j));
        },
    }
}

proof fn lemma_coming_back(
    leaf: usize,
    score: u64,
    path: Seq<PathStep>,
    seen: Seq<NodeView>,
    after: (Worker, SharedTree),
    action: WorkerAction,
    n: int,
    i: int,
    j: int,
)
    requires
        leaf < seen.len(),
        starts_known(seen, path),
        comes_back(leaf, score, path, seen, after, action),
    ensures
        counts_to(
            visits_one(seen, n, i),
            VIRTUAL_LOSS_VISITS * (claimed_one(after.0, n, i) - claims_one(path, n, i))
                + results_one(path, action, n, i),
            visits_one(after.1.seen(), n, i),
        ),
        counts_to(
            visits_two(seen, n, j),
            VIRTUAL_LOSS_VISITS * (claimed_two(after.0, n, j) - claims_two(path, n, j))
                + results_two(path, action, n, j),
            visits_two(after.1.seen(), n, j),
        ),
{
    let start = seen.update(leaf as int, visited(seen[leaf as int]));
    assert(starts_known(start, path)) by {
        assert forall|k: int| 0 <= k < path.len() implies (#[trigger] path[k]).parent < start.len()
            && path[k].child < start.len() && path[k].s1_index
            < start[path[k].parent as int].s1.len() && path[k].s2_index
            < start[path[k].parent as int].s2.len() && start[path[k].parent as int].known by {
            assert(seen[path[k].parent as int].known);
        }
    }
    lemma_way_back(start, path, score as int, n, i, j);
    assert(visits_one(start, n, i) == visits_one(seen, n, i));
    assert(visits_two(start, n, j) == visits_two(seen, n, j));
}

/// A claim on a pair of moves counts on each of the two.
proof fn lemma_holding(seen: Seq<NodeView>, m: int, a: int, b: int, n: int, i: int, j: int)
    requires
        0 <= m < seen.len(),
        seen[m].known,
        0 <= a < seen[m].s1.len(),
        0 <= b < seen[m].s2.len(),
    ensures
        counts_to(
            visits_one(seen, n, i),
            VIRTUAL_LOSS_VISITS * if m == n && a == i {
                1int
            } else {
                0
            },
            visits_one(seen.update(m, pair_held(seen[m], a, b)), n, i),
        ),
        counts_to(
            visits_two(seen, n, j),
            VIRTUAL_LOSS_VISITS * if m == n && b == j {
                1int
            } else {
                0
            },
            visits_two(seen.update(m, pair_held(seen[m], a, b)), n, j),
        ),
        counts_to(
            visits_one(seen, n, i),
            -VIRTUAL_LOSS_VISITS * if m == n && a == i {
                1int
            } else {
                0
            },
            visits_one(seen.update(m, pair_released(seen[m], a, b)), n, i),
        ),
        counts_to(
            visits_two(seen, n, j),
            -VIRTUAL_LOSS_VISITS * if m == n && b == j {
                1int
            } else {
                0
            },
            visits_two(seen.update(m, pair_released(seen[m], a, b)), n, j),
        ),
{
    lemma_same(visits_one(seen, n, i));
    lemma_same(visits_two(seen, n, j));
    lemma_claim_counts(visits_one(seen, n, i));
    lemma_claim_counts(visits_two(seen, n, j));
}

proof fn lemma_selecting<U: Fn(u64, u64, u64) -> Float32>(
    m: usize,
    event: WorkerEvent,
    rank: U,
    before: (Worker, SharedTree),
    after: (Worker, SharedTree),
    action: WorkerAction,
    n: int,
    i: int,
    j: int,
)
    requires
        before.1.wf(),
        before.0.wf(before.1),
        before.0.phase == WorkerPhase::Select(m),
        selects(m, event, rank, (before.0.path@, before.1), after, action),
    ensures
        counts_to(
            visits_one(before.1.seen(), n, i),
            VIRTUAL_LOSS_VISITS * (claimed_one(after.0, n, i) - claimed_one(before.0, n, i))
                + results_one(before.0.path@, action, n, i),
            visits_one(after.1.seen(), n, i),
        ),
        counts_to(
            visits_two(before.1.seen(), n, j),
            VIRTUAL_LOSS_VISITS * (claimed_two(after.0, n, j) - claimed_two(before.0, n, j))
                + results_two(before.0.path@, action, n, j),
            visits_two(after.1.seen(), n, j),
        ),
{
    let path = before.0.path@;
    let seen = told(before.1.seen(), m as int, event);
    assert(visits_one(seen, n, i) == visits_one(before.1.seen(), n, i));
    assert(visits_two(seen, n, j) == visits_two(before.1.seen(), n, j));
    lemma_same(visits_one(seen, n, i));
    lemma_same(visits_two(seen, n, j));
    if seen[m as int].known {
        let (a, b) = choose|a: usize, b: usize|
            {
                let held = seen.update(m as int, pair_held(seen[m as int], a as int, b as int));
                &&& a < seen[m as int].s1.len() && b < seen[m as int].s2.len()
                &&& forall|calc: RankFn|
                    ranks_as(rank, calc) ==> (a as int, b as int) == #[trigger] best_pair(
                        seen[m as int],
                        calc,
                    )
                &&& after.1.expanded() == before.1.expanded()
                &&& if #[trigger] before.1.expanded().contains_key((m, a, b)) {
                    exists|child: usize|
                        {
                            let branch = before.1.expanded()[(m, a, b)];
                            &&& comes_up(seen, branch.0 as int, branch.1 as int, child as int)
                            &&& action == WorkerAction::Apply(child)
                            &&& after.0.phase == WorkerPhase::Select(child)
                            &&& after.0.path@ == path.push(
                                PathStep { parent: m, child, s1_index: a, s2_index: b },
                            )
                            &&& after.1.seen() == #[trigger] held.update(
                                child as int,
                                arrived(held[child as int]),
                            )
                        }
                } else {
                    &&& action == WorkerAction::AskOver
                    &&& after.0.phase == WorkerPhase::Leaf(m, a, b)
                    &&& after.0.path@ == path
                    &&& after.1.seen() == held
                }
            };
        lemma_holding(seen, m as int, a as int, b as int, n, i, j);
        let held = seen.update(m as int, pair_held(seen[m as int], a as int, b as int));
        if before.1.expanded().contains_key((m, a, b)) {
            let child = choose|child: usize|
                {
                    let branch = before.1.expanded()[(m, a, b)];
                    &&& comes_up(seen, branch.0 as int, branch.1 as int, child as int)
                    &&& action == WorkerAction::Apply(child)
                    &&& after.0.phase == WorkerPhase::Select(child)
                    &&& after.0.path@ == path.push(
                        PathStep { parent: m, child, s1_index: a, s2_index: b },
                    )
                    &&& after.1.seen() == #[trigger] held.update(
                        child as int,
                        arrived(held[child as int]),
                    )
                };
            lemma_claims_of_step(
                path,
                PathStep { parent: m, child, s1_index: a, s2_index: b },
                n,
                i,
                j,
            );
            assert(visits_one(after.1.seen(), n, i) == visits_one(held, n, i));
            assert(visits_two(after.1.seen(), n, j) == visits_two(held, n, j));
        }
    }
}

/// A turn changes the visits of a move by what the worker claims more or
/// less of it, and by one for each result that it brings.
pub proof fn lemma_turn_changes_visits_by_claims<U: Fn(u64, u64, u64) -> Float32>(
    event: WorkerEvent,
    rank: U,
    before: (Worker, SharedTree),
    after: (Worker, SharedTree),
    action: WorkerAction,
    n: int,
    i: int,
    j: int,
)
    requires
        before.1.wf(),
        before.0.wf(before.1),
        before.0.expects(before.1, event),
        takes_turn(event, rank, before, after, action),
    ensures
        counts_to(
            visits_one(before.1.seen(), n, i),
            VIRTUAL_LOSS_VISITS * (claimed_one(after.0, n, i) - claimed_one(before.0, n, i))
                + results_one(before.0.path@, action, n, i),
            visits_one(after.1.seen(), n, i),
        ),
        counts_to(
            visits_two(before.1.seen(), n, j),
            VIRTUAL_LOSS_VISITS * (claimed_two(after.0, n, j) - claimed_two(before.0, n, j))
                + results_two(before.0.path@, action, n, j),
            visits_two(after.1.seen(), n, j),
        ),
{
    let path = before.0.path@;
    let seen = before.1.seen();
    lemma_same(visits_one(seen, n, i));
    lemma_same(visits_two(seen, n, j));
    lemma_goes_through_known(before.1, path);
    match (before.0.phase, event) {
        (WorkerPhase::Select(m), _) => {
            lemma_selecting(m, event, rank, before, after, action, n, i, j);
        },
        (WorkerPhase::Leaf(m, a, b), WorkerEvent::Over(over)) => {
            lemma_deciding((m, a, b), over, before, after, action, n, i, j);
        },
        (WorkerPhase::Expand(m, a, b), WorkerEvent::Outcomes(list)) => {
            lemma_expanding((m, a, b), list@, before, after, action, n, i, j);
        },
        (WorkerPhase::Judge(m), WorkerEvent::Over(over)) => {
            lemma_judging(m, over, path, seen, after, action, n, i, j);
        },
        (WorkerPhase::Value(m), WorkerEvent::Value(value)) => {
            lemma_coming_back(m, value, path, seen, after, action, n, i, j);
        },
        _ => {},
    }
}

proof fn lemma_deciding(
    pair: (usize, usize, usize),
    over: i8,
    before: (Worker, SharedTree),
    after: (Worker, SharedTree),
    action: WorkerAction,
    n: int,
    i: int,
    j: int,
)
    requires
        before.1.wf(),
        before.0.wf(before.1),
        before.0.phase == WorkerPhase::Leaf(pair.0, pair.1, pair.2),
        decides(pair, over, before.0.path@, before.1.seen(), after, action),
    ensures
        counts_to(
            visits_one(before.1.seen(), n, i),
            VIRTUAL_LOSS_VISITS * (claimed_one(after.0, n, i) - claimed_one(before.0, n, i))
                + results_one(before.0.path@, action, n, i),
            visits_one(after.1.seen(), n, i),
        ),
        counts_to(
            visits_two(before.1.seen(), n, j),
            VIRTUAL_LOSS_VISITS * (claimed_two(after.0, n, j) - claimed_two(before.0, n, j))
                + results_two(before.0.path@, action, n, j),
            visits_two(after.1.seen(), n, j),
        ),
{
    let path = before.0.path@;
    let seen = before.1.seen();
    let m = pair.0 as int;
    let v = seen[m];
    let m1 = v.s1[pair.1 as int].move_choice;
    let m2 = v.s2[pair.2 as int].move_choice;
    lemma_same(visits_one(seen, n, i));
    lemma_same(visits_two(seen, n, j));
    lemma_goes_through_known(before.1, path);
    if (over != 0 && !v.root) || (m1 == MoveChoice::NoMove && m2 == MoveChoice::NoMove) {
        let released = seen.update(m, pair_released(v, pair.1 as int, pair.2 as int));
        lemma_holding(seen, m, pair.1 as int, pair.2 as int, n, i, j);
        assert(starts_known(released, path)) by {
            assert forall|k: int| 0 <= k < path.len() implies (#[trigger] path[k]).parent
                < released.len() && path[k].child < released.len() && path[k].s1_index
                < released[path[k].parent as int].s1.len() && path[k].s2_index
                < released[path[k].parent as int].s2.len()
                && released[path[k].parent as int].known by {
                assert(seen[path[k].parent as int].known);
            }
        }
        lemma_judging(pair.0, over, path, released, after, action, n, i, j);
        let one = if m == n && pair.1 == i {
            1int
        } else {
            0
        };
        let two = if m == n && pair.2 == j {
            1int
        } else {
            0
        };
        lemma_chain(
            visits_one(seen, n, i),
            -VIRTUAL_LOSS_VISITS * one,
            visits_one(released, n, i),
            VIRTUAL_LOSS_VISITS * (claimed_one(after.0, n, i) - claims_one(path, n, i))
                + results_one(path, action, n, i),
            visits_one(after.1.seen(), n, i),
        );
        lemma_chain(
            visits_two(seen, n, j),
            -VIRTUAL_LOSS_VISITS * two,
            visits_two(released, n, j),
            VIRTUAL_LOSS_VISITS * (claimed_two(after.0, n, j) - claims_two(path, n, j))
                + results_two(path, action, n, j),
            visits_two(after.1.seen(), n, j),
        );
    }
}

proof fn lemma_expanding(
    pair: (usize, usize, usize),
    outcomes: Seq<StateInstructions>,
    before: (Worker, SharedTree),
    after: (Worker, SharedTree),
    action: WorkerAction,
    n: int,
    i: int,
    j: int,
)
    requires
        before.1.wf(),
        before.0.wf(before.1),
        before.0.phase == WorkerPhase::Expand(pair.0, pair.1, pair.2),
        expands(pair, outcomes, (before.0.path@, before.1), after, action),
    ensures
        counts_to(
            visits_one(before.1.seen(), n, i),
            VIRTUAL_LOSS_VISITS * (claimed_one(after.0, n, i) - claimed_one(before.0, n, i))
                + results_one(before.0.path@, action, n, i),
            visits_one(after.1.seen(), n, i),
        ),
        counts_to(
            visits_two(before.1.seen(), n, j),
            VIRTUAL_LOSS_VISITS * (claimed_two(after.0, n, j) - claimed_two(before.0, n, j))
                + results_two(before.0.path@, action, n, j),
            visits_two(after.1.seen(), n, j),
        ),
{
    let path = before.0.path@;
    let known = before.1.expanded().contains_key(pair);
    let branch = if known {
        before.1.expanded()[pair]
    } else {
        (before.1.seen().len() as usize, outcomes.len() as usize)
    };
    let seen = if known {
        before.1.seen()
    } else {
        before.1.seen() + unvisited(outcomes, before.1.seen()[pair.0 as int].depth)
    };
    assert(visits_one(seen, n, i) == visits_one(before.1.seen(), n, i));
    assert(visits_two(seen, n, j) == visits_two(before.1.seen(), n, j));
    lemma_same(visits_one(seen, n, i));
    lemma_same(visits_two(seen, n, j));
    let child = choose|child: usize|
        {
            &&& comes_up(seen, branch.0 as int, branch.1 as int, child as int)
            &&& action == WorkerAction::Apply(child)
            &&& after.0.phase == WorkerPhase::Arrive(child)
            &&& after.0.path@ == path.push(
                PathStep { parent: pair.0, child, s1_index: pair.1, s2_index: pair.2 },
            )
            &&& after.1.seen() == #[trigger] seen.update(child as int, arrived(seen[child as int]))
        };
    lemma_claims_of_step(
        path,
        PathStep { parent: pair.0, child, s1_index: pair.1, s2_index: pair.2 },
        n,
        i,
        j,
    );
    assert(visits_one(after.1.seen(), n, i) == visits_one(seen, n, i));
    assert(visits_two(after.1.seen(), n, j) == visits_two(seen, n, j));
}

/// The claims of all workers on side one's move `i` in position `n`.
pub open spec fn all_claims_one(workers: Seq<Worker>, n: int, i: int) -> int
    decreases workers.len(),
{
    if workers.len() == 0 {
        0
    } else {
        all_claims_one(workers.drop_last(), n, i) + claimed_one(workers.last(), n, i)
    }
}

/// The claims of all workers on side two's move `j` in position `n`.
pub open spec fn all_claims_two(workers: Seq<Worker>, n: int, j: int) -> int
    decreases workers.len(),
{
    if workers.len() == 0 {
        0
    } else {
        all_claims_two(workers.drop_last(), n, j) + claimed_two(workers.last(), n, j)
    }
}

/// A turn of one worker changes all claims by its own.
pub proof fn lemma_one_worker_changed(
    workers: Seq<Worker>,
    w: int,
    after: Worker,
    n: int,
    i: int,
    j: int,
)
    requires
        0 <= w < workers.len(),
    ensures
        all_claims_one(workers.update(w, after), n, i) == all_claims_one(workers, n, i)
            + claimed_one(after, n, i) - claimed_one(workers[w], n, i),
        all_claims_two(workers.update(w, after), n, j) == all_claims_two(workers, n, j)
            + claimed_two(after, n, j) - claimed_two(workers[w], n, j),
    decreases workers.len(),
{
    let updated = workers.update(w, after);
    if w < workers.len() - 1 {
        lemma_one_worker_changed(workers.drop_last(), w, after, n, i, j);
        assert(updated.drop_last() =~= workers.drop_last().update(w, after));
        assert(updated.last() == workers.last());
    } else {
        assert(updated.drop_last() =~= workers.drop_last());
    }
}

/// In whatever order workers take their turns, the visits of a move are its
/// results and the claims of the workers under way: if that is so before a
/// turn of worker `w`, it is so after it.
pub proof fn lemma_visits_are_results_and_claims<U: Fn(u64, u64, u64) -> Float32>(
    workers: Seq<Worker>,
    w: int,
    event: WorkerEvent,
    rank: U,
    tree: SharedTree,
    after: (Worker, SharedTree),
    action: WorkerAction,
    n: int,
    i: int,
    j: int,
    one: u64,
    two: u64,
)
    requires
        0 <= w < workers.len(),
        tree.wf(),
        workers[w].wf(tree),
        workers[w].expects(tree, event),
        takes_turn(event, rank, (workers[w], tree), after, action),
        counts_to(
            one,
            VIRTUAL_LOSS_VISITS * all_claims_one(workers, n, i),
            visits_one(tree.seen(), n, i),
        ),
        counts_to(
            two,
            VIRTUAL_LOSS_VISITS * all_claims_two(workers, n, j),
            visits_two(tree.seen(), n, j),
        ),
    ensures
        counts_to(
            one,
            results_one(workers[w].path@, action, n, i) + VIRTUAL_LOSS_VISITS * all_claims_one(
                workers.update(w, after.0),
                n,
                i,
            ),
            visits_one(after.1.seen(), n, i),
        ),
        counts_to(
            two,
            results_two(workers[w].path@, action, n, j) + VIRTUAL_LOSS_VISITS * all_claims_two(
                workers.update(w, after.0),
                n,
                j,
            ),
            visits_two(after.1.seen(), n, j),
        ),
{
    let before = (workers[w], tree);
    lemma_turn_changes_visits_by_claims(event, rank, before, after, action, n, i, j);
    lemma_one_worker_changed(workers, w, after.0, n, i, j);
    lemma_chain(
        one,
        VIRTUAL_LOSS_VISITS * all_claims_one(workers, n, i),
        visits_one(tree.seen(), n, i),
        VIRTUAL_LOSS_VISITS * (claimed_one(after.0, n, i) - claimed_one(before.0, n, i))
            + results_one(before.0.path@, action, n, i),
        visits_one(after.1.seen(), n, i),
    );
    lemma_chain(
        two,
        VIRTUAL_LOSS_VISITS * all_claims_two(workers, n, j),
        visits_two(tree.seen(), n, j),
        VIRTUAL_LOSS_VISITS * (claimed_two(after.0, n, j) - claimed_two(before.0, n, j))
            + results_two(before.0.path@, action, n, j),
        visits_two(after.1.seen(), n, j),
    );
}

/// Workers that are all back claim nothing: what is left are results.
pub proof fn lemma_no_claim_is_left(workers: Seq<Worker>, n: int, i: int, j: int)
    requires
        forall|w: int|
            0 <= w < workers.len() ==> ((#[trigger] workers[w]).phase is Done
                || workers[w].phase is Check || workers[w].phase is Stopped || starts_over(
                workers[w],
            )),
    ensures
        all_claims_one(workers, n, i) == 0,
        all_claims_two(workers, n, j) == 0,
    decreases workers.len(),
{
    if workers.len() > 0 {
        let rest = workers.drop_last();
        assert forall|w: int| 0 <= w < rest.len() implies ((#[trigger] rest[w]).phase is Done
            || rest[w].phase is Check || rest[w].phase is Stopped || starts_over(rest[w])) by {
            assert(rest[w] == workers[w]);
        }
        lemma_no_claim_is_left(rest, n, i, j);
        assert(workers[workers.len() - 1] == workers.last());
    }
}

} // verus!
