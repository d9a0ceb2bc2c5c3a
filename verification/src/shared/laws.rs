//! What holds of workers that share a tree, in whatever order they take
//! their turns.

use crate::mcts::moves::rest_of;
use crate::shared::tree::{
    arrived, left, pair_held, pair_released, path_settled, step_settled, visited, MoveNode,
    NodeView, PathStep,
};
use crate::shared::worker::way_to;
use vstd::prelude::*;

verus! {

/// The positions after a worker went down one step: it claims the pair of
/// moves and is under way below the outcome.
pub open spec fn step_entered(seen: Seq<NodeView>, step: PathStep) -> Seq<NodeView> {
    let above = seen.update(
        step.parent as int,
        pair_held(seen[step.parent as int], step.s1_index as int, step.s2_index as int),
    );
    above.update(step.child as int, arrived(above[step.child as int]))
}

/// A claim that is given up leaves no trace.
pub proof fn lemma_release_undoes_hold(v: NodeView, i: int, j: int)
    requires
        0 <= i < v.s1.len(),
        0 <= j < v.s2.len(),
    ensures
        pair_released(pair_held(v, i, j), i, j) == v,
{
    let w = pair_released(pair_held(v, i, j), i, j);
    assert(v.s1[i].held().released() == v.s1[i]);
    assert(v.s2[j].held().released() == v.s2[j]);
    assert(w.s1 =~= v.s1);
    assert(w.s2 =~= v.s2);
}

/// A step down and back up again leaves one visit and its result: the claims
/// made on the way down are withdrawn, and nothing else changes.
pub proof fn lemma_virtual_loss_is_undone(seen: Seq<NodeView>, step: PathStep, score: int)
    requires
        step.parent < seen.len(),
        step.child < seen.len(),
        step.parent != step.child,
        step.s1_index < seen[step.parent as int].s1.len(),
        step.s2_index < seen[step.parent as int].s2.len(),
    ensures
        ({
            let before = seen[step.parent as int];
            step_settled(step_entered(seen, step), step, score) == seen.update(
                step.parent as int,
                NodeView {
                    s1: before.s1.update(
                        step.s1_index as int,
                        before.s1[step.s1_index as int].credited(score),
                    ),
                    s2: before.s2.update(
                        step.s2_index as int,
                        before.s2[step.s2_index as int].credited(rest_of(score)),
                    ),
                    times_visited: before.times_visited.wrapping_add(1),
                    ..before
                },
            )
        }),
{
    let p = step.parent as int;
    let c = step.child as int;
    let i = step.s1_index as int;
    let j = step.s2_index as int;
    let before = seen[p];
    let entered = step_entered(seen, step);
    let after = step_settled(entered, step, score);
    lemma_credit_between_claims(before.s1[i], score);
    lemma_credit_between_claims(before.s2[j], rest_of(score));
    let wanted = NodeView {
        s1: before.s1.update(i, before.s1[i].credited(score)),
        s2: before.s2.update(j, before.s2[j].credited(rest_of(score))),
        times_visited: before.times_visited.wrapping_add(1),
        ..before
    };
    assert(after[p].s1 =~= wanted.s1);
    assert(after[p].s2 =~= wanted.s2);
    assert(after[p] =~= wanted);
    assert(left(arrived(seen[c])) == seen[c]);
    assert(after =~= seen.update(p, wanted));
}

/// A result that comes in under a claim counts as without it.
pub proof fn lemma_credit_between_claims(m: MoveNode, score: int)
    ensures
        m.held().credited(score).released() == m.credited(score),
{
}

/// The positions after a worker went down a whole way.
pub open spec fn path_entered(seen: Seq<NodeView>, path: Seq<PathStep>) -> Seq<NodeView>
    decreases path.len(),
{
    if path.len() == 0 {
        seen
    } else {
        step_entered(path_entered(seen, path.drop_last()), path.last())
    }
}

/// The positions after one visit of a pair of moves and its result, without
/// any claim.
pub open spec fn step_credited(seen: Seq<NodeView>, step: PathStep, score: int) -> Seq<NodeView> {
    let v = seen[step.parent as int];
    seen.update(
        step.parent as int,
        NodeView {
            s1: v.s1.update(step.s1_index as int, v.s1[step.s1_index as int].credited(score)),
            s2: v.s2.update(
                step.s2_index as int,
                v.s2[step.s2_index as int].credited(rest_of(score)),
            ),
            times_visited: v.times_visited.wrapping_add(1),
            ..v
        },
    )
}

/// The positions after one visit of every pair of moves of a way.
pub open spec fn path_credited(
    seen: Seq<NodeView>,
    path: Seq<PathStep>,
    score: int,
) -> Seq<NodeView>
    decreases path.len(),
{
    if path.len() == 0 {
        seen
    } else {
        path_credited(step_credited(seen, path.last(), score), path.drop_last(), score)
    }
}

/// A credit at the end of a way and the claims on it do not meet.
proof fn lemma_credit_commutes(
    seen: Seq<NodeView>,
    path: Seq<PathStep>,
    step: PathStep,
    score: int,
)
    requires
        within(seen, path),
        within(seen, seq![step]),
        way_to(path, step.parent as int),
    ensures
        step_credited(path_entered(seen, path), step, score) == path_entered(
            step_credited(seen, step, score),
            path,
        ),
        path_entered(seen, path).len() == seen.len(),
    decreases path.len(),
{
    lemma_earlier_steps(path, step.parent as int);
    lemma_entering_keeps_moves(seen, path);
    assert(seq![step][0] == step);
    lemma_commutes(seen, path, step, score);
}

/// Every step of a way starts before its end.
proof fn lemma_earlier_steps(path: Seq<PathStep>, n: int)
    requires
        way_to(path, n),
    ensures
        forall|k: int| 0 <= k < path.len() ==> (#[trigger] path[k]).parent < n,
        path.len() > 0 <==> n != 0,
        n >= 0,
    decreases path.len(),
{
    if path.len() > 0 {
        lemma_earlier_steps(path.drop_last(), path.last().parent as int);
        assert forall|k: int| 0 <= k < path.len() implies (#[trigger] path[k]).parent < n by {
            if k < path.len() - 1 {
                assert(path.drop_last()[k] == path[k]);
            }
        }
    }
}

proof fn lemma_entering_keeps_moves(seen: Seq<NodeView>, path: Seq<PathStep>)
    requires
        within(seen, path),
    ensures
        path_entered(seen, path).len() == seen.len(),
        forall|m: int|
            0 <= m < seen.len() ==> (#[trigger] path_entered(seen, path)[m]).s1.len()
                == seen[m].s1.len() && path_entered(seen, path)[m].s2.len() == seen[m].s2.len(),
    decreases path.len(),
{
    if path.len() > 0 {
        let rest = path.drop_last();
        assert(within(seen, rest)) by {
            assert forall|k: int| 0 <= k < rest.len() implies (#[trigger] rest[k]).parent
                < seen.len() && rest[k].child < seen.len() && rest[k].s1_index
                < seen[rest[k].parent as int].s1.len() && rest[k].s2_index
                < seen[rest[k].parent as int].s2.len() by {
                assert(rest[k] == path[k]);
            }
        }
        lemma_entering_keeps_moves(seen, rest);
        assert(path[path.len() - 1] == path.last());
    }
}

proof fn lemma_commutes(seen: Seq<NodeView>, path: Seq<PathStep>, step: PathStep, score: int)
    requires
        within(seen, path),
        within(seen, seq![step]),
        forall|k: int| 0 <= k < path.len() ==> (#[trigger] path[k]).parent != step.parent,
    ensures
        step_credited(path_entered(seen, path), step, score) == path_entered(
            step_credited(seen, step, score),
            path,
        ),
    decreases path.len(),
{
    assert(seq![step][0] == step);
    if path.len() > 0 {
        let rest = path.drop_last();
        let last = path.last();
        assert(path[path.len() - 1] == last);
        assert(within(seen, rest)) by {
            assert forall|k: int| 0 <= k < rest.len() implies (#[trigger] rest[k]).parent
                < seen.len() && rest[k].child < seen.len() && rest[k].s1_index
                < seen[rest[k].parent as int].s1.len() && rest[k].s2_index
                < seen[rest[k].parent as int].s2.len() by {
                assert(rest[k] == path[k]);
            }
        }
        assert forall|k: int| 0 <= k < rest.len() implies (#[trigger] rest[k]).parent
            != step.parent by {
            assert(rest[k] == path[k]);
        }
        lemma_commutes(seen, rest, step, score);
        lemma_entering_keeps_moves(seen, rest);
        let mid = path_entered(seen, rest);
        assert(step_credited(step_entered(mid, last), step, score) =~= step_entered(
            step_credited(mid, step, score),
            last,
        ));
    }
}

/// A whole way down and back up again leaves one visit and its result with
/// every pair of moves on it: all claims are withdrawn, and nothing else
/// changes.
pub proof fn lemma_way_down_and_back(
    seen: Seq<NodeView>,
    path: Seq<PathStep>,
    n: int,
    score: int,
)
    requires
        within(seen, path),
        way_to(path, n),
    ensures
        path_settled(path_entered(seen, path), path, score) == path_credited(seen, path, score),
    decreases path.len(),
{
    if path.len() > 0 {
        let rest = path.drop_last();
        let last = path.last();
        assert(path[path.len() - 1] == last);
        assert(within(seen, rest)) by {
            assert forall|k: int| 0 <= k < rest.len() implies (#[trigger] rest[k]).parent
                < seen.len() && rest[k].child < seen.len() && rest[k].s1_index
                < seen[rest[k].parent as int].s1.len() && rest[k].s2_index
                < seen[rest[k].parent as int].s2.len() by {
                assert(rest[k] == path[k]);
            }
        }
        lemma_entering_keeps_moves(seen, rest);
        let mid = path_entered(seen, rest);
        lemma_virtual_loss_is_undone(mid, last, score);
        assert(step_settled(step_entered(mid, last), last, score) == step_credited(
            mid,
            last,
            score,
        ));
        assert(within(seen, seq![last]));
        lemma_credit_commutes(seen, rest, last, score);
        let credited = step_credited(seen, last, score);
        assert(within(credited, rest)) by {
            assert forall|k: int| 0 <= k < rest.len() implies (#[trigger] rest[k]).parent
                < credited.len() && rest[k].child < credited.len() && rest[k].s1_index
                < credited[rest[k].parent as int].s1.len() && rest[k].s2_index
                < credited[rest[k].parent as int].s2.len() by {
                assert(rest[k] == path[k]);
            }
        }
        lemma_way_down_and_back(credited, rest, last.parent as int, score);
    }
}

/// Coming back to the root counts the iteration once there, which is how the
/// reported iterations are counted.
pub proof fn lemma_iteration_counts_once_at_the_root(
    seen: Seq<NodeView>,
    path: Seq<PathStep>,
    leaf: int,
    score: int,
)
    requires
        0 <= leaf < seen.len(),
        within(seen, path),
        way_to(path, leaf),
    ensures
        path_settled(
            seen.update(leaf, visited(seen[leaf])),
            path,
            score,
        )[0].times_visited == seen[0].times_visited.wrapping_add(1),
{
    let start = seen.update(leaf, visited(seen[leaf]));
    lemma_earlier_steps(path, leaf);
    assert(within(start, path)) by {
        assert forall|k: int| 0 <= k < path.len() implies (#[trigger] path[k]).parent < start.len()
            && path[k].child < start.len() && path[k].s1_index
            < start[path[k].parent as int].s1.len() && path[k].s2_index
            < start[path[k].parent as int].s2.len() by {}
    }
    lemma_root_visits(start, path, leaf, score);
}

proof fn lemma_root_visits(seen: Seq<NodeView>, path: Seq<PathStep>, n: int, score: int)
    requires
        within(seen, path),
        way_to(path, n),
        seen.len() > 0,
    ensures
        path_settled(seen, path, score)[0].times_visited == if path.len() == 0 {
            seen[0].times_visited
        } else {
            seen[0].times_visited.wrapping_add(1)
        },
    decreases path.len(),
{
    if path.len() > 0 {
        let rest = path.drop_last();
        let last = path.last();
        assert(path[path.len() - 1] == last);
        let next = step_settled(seen, last, score);
        assert(within(next, rest)) by {
            assert(within(seen, seq![last]));
            lemma_step_keeps_moves(seen, last, score);
            assert forall|k: int| 0 <= k < rest.len() implies (#[trigger] rest[k]).parent
                < next.len() && rest[k].child < next.len() && rest[k].s1_index
                < next[rest[k].parent as int].s1.len() && rest[k].s2_index
                < next[rest[k].parent as int].s2.len() by {
                assert(rest[k] == path[k]);
            }
        }
        lemma_root_visits(next, rest, last.parent as int, score);
        lemma_earlier_steps(rest, last.parent as int);
        assert(rest.len() == 0 <==> last.parent == 0);
        assert(0 < last.child < seen.len());
        assert(next[0].times_visited == if last.parent == 0 {
            seen[0].times_visited.wrapping_add(1)
        } else {
            seen[0].times_visited
        });
    }
}

/// How many steps of a way claim side one's move `i` in position `n`.
pub open spec fn claims_one(path: Seq<PathStep>, n: int, i: int) -> int
    decreases path.len(),
{
    if path.len() == 0 {
        0
    } else {
        claims_one(path.drop_last(), n, i) + if path.last().parent == n && path.last().s1_index
            == i {
            1int
        } else {
            0
        }
    }
}

/// How many steps of a way claim side two's move `j` in position `n`.
pub open spec fn claims_two(path: Seq<PathStep>, n: int, j: int) -> int
    decreases path.len(),
{
    if path.len() == 0 {
        0
    } else {
        claims_two(path.drop_last(), n, j) + if path.last().parent == n && path.last().s2_index
            == j {
            1int
        } else {
            0
        }
    }
}

/// The number of values of a counter.
pub open spec fn turns() -> int {
    0x1_0000_0000_0000_0000
}

/// Whether a counter went from `before` by `change`, as counters turn over.
pub open spec fn counts_to(before: u64, change: int, after: u64) -> bool {
    exists|k: int| before + change + #[trigger] (k * turns()) == after
}

/// Whether every step of a way is one between positions, by moves that they
/// have.
pub open spec fn within(seen: Seq<NodeView>, path: Seq<PathStep>) -> bool {
    forall|k: int|
        0 <= k < path.len() ==> (#[trigger] path[k]).parent < seen.len() && path[k].child
            < seen.len() && path[k].s1_index < seen[path[k].parent as int].s1.len()
            && path[k].s2_index < seen[path[k].parent as int].s2.len()
}

proof fn lemma_step_keeps_moves(seen: Seq<NodeView>, step: PathStep, score: int)
    requires
        within(seen, seq![step]),
    ensures
        step_settled(seen, step, score).len() == seen.len(),
        forall|m: int|
            0 <= m < seen.len() ==> (#[trigger] step_settled(seen, step, score)[m]).s1.len()
                == seen[m].s1.len() && step_settled(seen, step, score)[m].s2.len()
                == seen[m].s2.len(),
        forall|m: int, a: int|
            0 <= m < seen.len() && 0 <= a < seen[m].s1.len() ==> #[trigger] step_settled(
                seen,
                step,
                score,
            )[m].s1[a] == (if m == step.parent && a == step.s1_index {
                seen[m].s1[a].credited(score).released()
            } else {
                seen[m].s1[a]
            }),
        forall|m: int, a: int|
            0 <= m < seen.len() && 0 <= a < seen[m].s2.len() ==> #[trigger] step_settled(
                seen,
                step,
                score,
            )[m].s2[a] == (if m == step.parent && a == step.s2_index {
                seen[m].s2[a].credited(rest_of(score)).released()
            } else {
                seen[m].s2[a]
            }),
{
    assert(seq![step][0] == step);
}

} // verus!
