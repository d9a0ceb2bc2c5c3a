//! What chance decides: the outcome that an iteration goes to is the one that
//! the random draw picks.

use crate::evaluate::config::EvalConfig;
use crate::float32::Float32;
use crate::mcts::chance::{
    drawn, lemma_a_draw_is_a_call, lemma_pick, picked, random_below, weight, weight_sum,
};
use crate::mcts::iterate::{
    only_changed, pair_tried, s1_before, s2_before, visited_first,
};
use crate::mcts::moves::{Instruction, MoveChoice, StateInstructions};
use crate::mcts::node::{branch_position, pair_key, percentages, score_of_terminal, Node};
use crate::mcts::search::{can_come_up, Rules, SearchTerms};
use crate::selfplay::score::can_happen;
use crate::shared::tree::{comes_up, percentages_in, NodeView, SharedTree};
use crate::shared::worker::{takes_turn, Worker, WorkerAction, WorkerEvent, WorkerPhase};
use rand::rngs::SmallRng;
use vstd::prelude::*;

verus! {

/// Whether outcome `c` is the one that a random draw picks: a call of the
/// generator for a number up to the total weight gave one that falls in the
/// stretch of that outcome, behind the weights of those before it.
pub(crate) open spec fn picked_by_a_call(weights: Seq<i64>, c: int) -> bool {
    exists|call: &mut SmallRng, n: u128, x: u128|
        {
            &&& #[trigger] random_below.ensures((call, n), x)
            &&& n == weight_sum(weights, weights.len() as int) + 1
            &&& if x == 0 {
                c == 0
            } else {
                weight_sum(weights, c) < x <= weight_sum(weights, c) + weight(weights[c])
            }
        }
}

proof fn lemma_picked_by_a_call(weights: Seq<i64>, threshold: int, c: int)
    requires
        drawn(weight_sum(weights, weights.len() as int), threshold),
        c == picked(weights, threshold),
        0 <= c < weights.len(),
    ensures
        picked_by_a_call(weights, c),
{
    let total = weight_sum(weights, weights.len() as int);
    lemma_a_draw_is_a_call(total, threshold);
    lemma_pick(weights, threshold, c);
}

/// An outcome that came up is the one that a draw picks.
pub(crate) proof fn lemma_what_came_up(nodes: Seq<Node>, c: int)
    requires
        can_come_up(nodes, c),
        0 <= c < nodes.len(),
    ensures
        picked_by_a_call(
            Seq::new(nodes.len(), |k: int| nodes[k].instructions.percentage),
            c,
        ),
{
    let weights = percentages(nodes);
    assert(weights =~= Seq::new(nodes.len(), |k: int| nodes[k].instructions.percentage));
    let threshold = choose|threshold: int|
        drawn(weight_sum(weights, nodes.len() as int), threshold) && c == #[trigger] picked(
            weights,
            threshold,
        );
    lemma_picked_by_a_call(weights, threshold, c);
}

/// What happens in a game is what a draw picks, the only outcome, or the first
/// where none has any weight.
pub(crate) proof fn lemma_what_happened(outcomes: Seq<StateInstructions>, r: int)
    requires
        can_happen(outcomes, r),
    ensures
        0 <= r < outcomes.len(),
        ({
            let weights = Seq::new(outcomes.len(), |k: int| outcomes[k].percentage);
            if outcomes.len() == 1 || weight_sum(weights, weights.len() as int) == 0 {
                r == 0
            } else {
                picked_by_a_call(weights, r)
            }
        }),
{
    let weights = crate::mcts::search::outcome_percentages(outcomes);
    assert(weights =~= Seq::new(outcomes.len(), |k: int| outcomes[k].percentage));
    let total = weight_sum(weights, outcomes.len() as int);
    if outcomes.len() != 1 && total != 0 {
        let threshold = choose|threshold: int|
            drawn(total, threshold) && r == #[trigger] picked(weights, threshold);
        lemma_picked_by_a_call(weights, threshold, r);
    }
}

/// The position that comes up in a shared tree is what a draw picks among the
/// outcomes of its pair, the only one, or the first where none has any weight.
pub(crate) proof fn lemma_what_came_up_in_the_shared_tree(
    seen: Seq<NodeView>,
    first: int,
    count: int,
    r: int,
)
    requires
        count > 0,
        comes_up(seen, first, count, r),
    ensures
        first <= r < first + count,
        ({
            let weights = Seq::new(count as nat, |k: int| seen[first + k].percentage);
            if count == 1 || weight_sum(weights, count) == 0 {
                r == first
            } else {
                picked_by_a_call(weights, r - first)
            }
        }),
{
    let weights = percentages_in(seen, first, count);
    assert(weights =~= Seq::new(count as nat, |k: int| seen[first + k].percentage));
    let total = weight_sum(weights, count);
    if count != 1 && total != 0 {
        let threshold = choose|threshold: int|
            drawn(total, threshold) && r == first + #[trigger] picked(weights, threshold);
        lemma_picked_by_a_call(weights, threshold, r - first);
    }
}

/// A turn of a worker that goes on by an expanded pair of moves goes to the
/// outcome of that pair that a draw picks.
pub(crate) proof fn lemma_turn_follows_the_draw<U: Fn(u64, u64, u64) -> Float32>(
    n: usize,
    event: WorkerEvent,
    rank: U,
    before: (Worker, SharedTree),
    after: (Worker, SharedTree),
    action: WorkerAction,
    child: usize,
)
    requires
        before.1.wf(),
        before.0.wf(before.1),
        before.0.phase == WorkerPhase::Select(n),
        before.1.seen()[n as int].known,
        takes_turn(event, rank, before, after, action),
        action == WorkerAction::Apply(child),
    ensures
        exists|i: usize, j: usize|
            {
                let seen = before.1.seen();
                let branch = before.1.expanded()[(n, i, j)];
                let weights = Seq::new(
                    branch.1 as nat,
                    |k: int| seen[branch.0 + k].percentage,
                );
                &&& #[trigger] before.1.expanded().contains_key((n, i, j))
                &&& branch.0 <= child < branch.0 + branch.1
                &&& if branch.1 == 1 || weight_sum(weights, branch.1 as int) == 0 {
                    child == branch.0
                } else {
                    picked_by_a_call(weights, child - branch.0)
                }
                &&& after.0.phase == WorkerPhase::Select(child)
                &&& after.0.path@.len() == before.0.path@.len() + 1
                &&& after.0.path@.last().parent == n && after.0.path@.last().child == child
                    && after.0.path@.last().s1_index == i && after.0.path@.last().s2_index == j
            },
{
    let seen = before.1.seen();
    assert(crate::shared::worker::told(seen, n as int, event) == seen);
    assert(exists|i: usize, j: usize|
        {
            let branch = before.1.expanded()[(n, i, j)];
            &&& #[trigger] before.1.expanded().contains_key((n, i, j))
            &&& comes_up(seen, branch.0 as int, branch.1 as int, child as int)
            &&& after.0.phase == WorkerPhase::Select(child)
            &&& after.0.path@ == before.0.path@.push(
                crate::shared::tree::PathStep { parent: n, child, s1_index: i, s2_index: j },
            )
        });
    let (i, j) = choose|i: usize, j: usize|
        {
            let branch = before.1.expanded()[(n, i, j)];
            &&& #[trigger] before.1.expanded().contains_key((n, i, j))
            &&& comes_up(seen, branch.0 as int, branch.1 as int, child as int)
            &&& after.0.phase == WorkerPhase::Select(child)
            &&& after.0.path@ == before.0.path@.push(
                crate::shared::tree::PathStep { parent: n, child, s1_index: i, s2_index: j },
            )
        };
    let branch = before.1.expanded()[(n, i, j)];
    lemma_what_came_up_in_the_shared_tree(
        seen,
        branch.0 as int,
        branch.1 as int,
        child as int,
    );
    assert(before.1.expanded().contains_key((n, i, j)));
}

impl<S, O, P, G, A, R, V, W, U, D> Rules<S, O, P, G, A, R, V, W, U, D> where
    O: Fn(&S) -> i8,
    P: Fn(&S) -> (Vec<MoveChoice>, Vec<MoveChoice>),
    G: Fn(&S, &MoveChoice, &MoveChoice, bool) -> Vec<StateInstructions>,
    A: Fn(S, &Vec<Instruction>) -> S,
    R: Fn(S, &Vec<Instruction>) -> S,
    V: Fn(&S, &EvalConfig) -> Float32,
    W: Fn(Float32, Float32) -> u64,
    U: Fn(u128, u64, u64, Float32) -> Float32,
    D: Fn(Float32, Float32) -> Float32,
 {
    /// An outcome is visited only if the draw picked it: where an iteration
    /// through a node visits outcome `c` of branch `b` below it, new or not,
    /// a call of the generator gave a number in the stretch of that outcome.
    pub(crate) proof fn lemma_descent_follows_the_draw(
        self,
        state: S,
        level: u8,
        before: Node,
        after: Node,
        force: (Option<usize>, Option<usize>),
        terms: SearchTerms<'_>,
        score: u64,
        b: int,
        c: int,
    )
        requires
            before.root || score_of_terminal(after.terminal_result) is None,
            self.played(state, level, before, after, force, terms, score),
            0 <= b < after.children@.len(),
            0 <= c < after.children@[b].nodes@.len(),
            after.children@[b].nodes@[c].times_visited > if b < before.children@.len() {
                before.children@[b].nodes@[c].times_visited
            } else {
                0
            },
        ensures
            picked_by_a_call(
                Seq::new(
                    after.children@[b].nodes@.len(),
                    |k: int| after.children@[b].nodes@[k].instructions.percentage,
                ),
                c,
            ),
    {
        let (i, j) = choose|i: int, j: int|
            self.chosen(
                s1_before(before, after),
                before.times_visited,
                terms.exploration,
                force.0,
                i,
            ) && self.chosen(
                s2_before(before, after),
                before.times_visited,
                terms.exploration,
                force.1,
                j,
            ) && #[trigger] pair_tried(before, after, i, j, score as int) && self.pair_played(
                state,
                level,
                before,
                after,
                i,
                j,
                terms,
                score,
            );
        let s2 = s2_before(before, after);
        let now = after.children@[b].nodes@;
        match branch_position(before.children@, pair_key(i, j, s2.len() as int) as u32, 0) {
            Some(a) => {
                if before.children@[a].terminal_score is None {
                    let old_nodes = before.children@[a].nodes@;
                    let (d, there) = choose|d: int, there: S|
                        0 <= d < old_nodes.len() && can_come_up(old_nodes, d)
                            && #[trigger] self.leads(state, old_nodes[d], there) && only_changed(
                            before.children@,
                            after.children@,
                            a,
                            d,
                        ) && self.played(
                            there,
                            crate::mcts::iterate::deeper(level),
                            old_nodes[d],
                            after.children@[a].nodes@[d],
                            (None, None),
                            terms,
                            score,
                        );
                    if b != a {
                        assert(after.children@[b] == before.children@[b]);
                    }
                    assert(b == a);
                    if c != d {
                        assert(now[c] == old_nodes[c]);
                    }
                    assert(c == d);
                    lemma_what_came_up(old_nodes, c);
                    assert(Seq::new(old_nodes.len(), |k: int| old_nodes[k].instructions.percentage)
                        =~= Seq::new(now.len(), |k: int| now[k].instructions.percentage)) by {
                        assert forall|k: int| 0 <= k < now.len() implies (
                        #[trigger] now[k]).instructions.percentage
                            == old_nodes[k].instructions.percentage by {
                            if k != d {
                                assert(now[k] == old_nodes[k]);
                            }
                        }
                    }
                }
            },
            None => {
                let m1 = s1_before(before, after)[i].move_choice;
                let m2 = s2[j].move_choice;
                if m1 != MoveChoice::NoMove || m2 != MoveChoice::NoMove {
                    if b < before.children@.len() {
                        assert(after.children@[b] == before.children@[b]);
                    }
                    let added = after.children@.last();
                    assert(b == after.children@.len() - 1);
                    assert(now == added.nodes@);
                    if added.terminal_score is None {
                        let (d, there) = choose|d: int, there: S|
                            0 <= d < added.nodes@.len() && can_come_up(added.nodes@, d)
                                && #[trigger] self.leads(state, added.nodes@[d], there)
                                && visited_first(added.nodes@, d) && self.rolled_out(
                                added.nodes@[d],
                                &there,
                                terms,
                                score,
                            );
                        assert(now[c].times_visited > 0);
                        assert(c == d);
                        lemma_what_came_up(now, c);
                    } else {
                        assert(visited_first(now, -1));
                        assert(now[c].times_visited == 0);
                    }
                }
            },
        }
    }
}

} // verus!
