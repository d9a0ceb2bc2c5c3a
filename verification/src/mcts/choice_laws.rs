//! Which moves an iteration tries, and what it makes of them.

use crate::evaluate::config::EvalConfig;
use crate::float32::Float32;
use crate::mcts::iterate::{pair_tried, s1_before, s2_before};
use crate::mcts::laws::lemma_infinity;
use crate::mcts::moves::{
    rest_of, Instruction, MoveChoice, MoveNode, StateInstructions, SCORE_ONE,
};
use crate::mcts::node::{
    best_option, best_ranked, rank_of, ranks_as, score_of_terminal, Node, RankFn, LEAST_RANK,
    UNTRIED_RANK,
};
use crate::mcts::search::Rules;
use crate::rounding::{nearest_double, nearest_single};
use vstd::prelude::*;

verus! {

/// Whether the ranks of tried moves are finite numbers.
pub open spec fn finite_ranks(
    options: Seq<MoveNode>,
    visits: u64,
    exploration: Float32,
    calc: RankFn,
) -> bool {
    forall|i: int|
        0 <= i < options.len() && (#[trigger] options[i]).visits > 0 ==> calc(
            options[i].total_score,
            options[i].visits,
            visits,
            exploration,
        ).finite()
}

/// Whether move `i` is the one to try: the first that was not tried, and
/// where all were, the first whose rank no other exceeds.
pub open spec fn to_be_tried(
    options: Seq<MoveNode>,
    visits: u64,
    exploration: Float32,
    calc: RankFn,
    i: int,
) -> bool {
    &&& 0 <= i < options.len()
    &&& if options[i].visits == 0 {
        forall|k: int| 0 <= k < i ==> (#[trigger] options[k]).visits > 0
    } else {
        let own = calc(options[i].total_score, options[i].visits, visits, exploration);
        &&& forall|k: int| 0 <= k < options.len() ==> (#[trigger] options[k]).visits > 0
        &&& forall|k: int|
            0 <= k < options.len() ==> own.units() >= calc(
                (#[trigger] options[k]).total_score,
                options[k].visits,
                visits,
                exploration,
            ).units()
        &&& forall|k: int|
            0 <= k < i ==> own.units() > calc(
                (#[trigger] options[k]).total_score,
                options[k].visits,
                visits,
                exploration,
            ).units()
    }
}

proof fn lemma_best_so_far(
    options: Seq<MoveNode>,
    visits: u64,
    exploration: Float32,
    calc: RankFn,
    n: int,
)
    requires
        0 <= n <= options.len(),
        finite_ranks(options, visits, exploration, calc),
    ensures
        ({
            let best = best_ranked(options, visits, exploration, calc, n);
            &&& !best.1.nan()
            &&& best.1.units() >= (Float32 { bits: LEAST_RANK }).units()
            &&& n > 0 ==> 0 <= best.0 < n
            &&& n == 0 ==> best.0 == 0
            &&& n > 0 ==> best.1.units() == rank_of(
                options[best.0],
                visits,
                exploration,
                calc,
            ).units()
            &&& forall|k: int|
                0 <= k < n ==> best.1.units() >= rank_of(
                    #[trigger] options[k],
                    visits,
                    exploration,
                    calc,
                ).units()
            &&& forall|k: int|
                0 <= k < n && k < best.0 ==> best.1.units() > rank_of(
                    #[trigger] options[k],
                    visits,
                    exploration,
                    calc,
                ).units()
        }),
    decreases n,
{
    lemma_infinity();
    if n > 0 {
        lemma_best_so_far(options, visits, exploration, calc, n - 1);
        let rank = rank_of(options[n - 1], visits, exploration, calc);
        assert(!rank.nan());
        lemma_least_is_least(rank);
    }
}

/// No finite rank is below the least.
pub proof fn lemma_least_is_least(x: Float32)
    requires
        !x.nan(),
        x.finite() || x == (Float32 { bits: UNTRIED_RANK }),
    ensures
        x.units() >= (Float32 { bits: LEAST_RANK }).units(),
{
    let least = Float32 { bits: LEAST_RANK };
    lemma_infinity();
    crate::float32::lemma_order_of_magnitudes(x, least);
    crate::float32::lemma_order_of_magnitudes(least, x);
    crate::float32::lemma_order_of_magnitudes(Float32 { bits: 0 }, x);
    assert(least.magnitude_bits() == 0x7f7f_ffff);
    assert(x.finite() ==> x.magnitude_bits() <= 0x7f7f_ffff);
}

/// The option that is tried next is the first untried one; where all were
/// tried, no other has a higher rank.
pub proof fn lemma_best_option(
    options: Seq<MoveNode>,
    visits: u64,
    exploration: Float32,
    calc: RankFn,
)
    requires
        options.len() > 0,
        finite_ranks(options, visits, exploration, calc),
    ensures
        to_be_tried(
            options,
            visits,
            exploration,
            calc,
            best_option(options, visits, exploration, calc),
        ),
{
    lemma_infinity();
    lemma_best_so_far(options, visits, exploration, calc, options.len() as int);
    let i = best_option(options, visits, exploration, calc);
    let top = Float32 { bits: UNTRIED_RANK };
    assert forall|k: int| 0 <= k < options.len() && (#[trigger] options[k]).visits == 0 implies
        rank_of(options[k], visits, exploration, calc) == top by {}
    if options[i].visits == 0 {
        assert forall|k: int| 0 <= k < i implies (#[trigger] options[k]).visits > 0 by {}
    } else {
        let own = calc(options[i].total_score, options[i].visits, visits, exploration);
        assert(own.below(top));
        assert forall|k: int| 0 <= k < options.len() implies (#[trigger] options[k]).visits > 0 by {
            if options[k].visits == 0 {
                assert(rank_of(options[k], visits, exploration, calc) == top);
            }
        }
    }
}

/// Whether move `i` is tried: the one that is pinned, or the one to be tried.
pub open spec fn tries(
    options: Seq<MoveNode>,
    visits: u64,
    exploration: Float32,
    calc: RankFn,
    force: Option<usize>,
    i: int,
) -> bool {
    match force {
        Some(f) => i == f,
        None => to_be_tried(options, visits, exploration, calc, i),
    }
}

/// Whether one move was tried once more with a score, and the others not.
pub open spec fn tried_once_more(
    before: Seq<MoveNode>,
    after: Seq<MoveNode>,
    i: int,
    score: int,
) -> bool {
    &&& after.len() == before.len()
    &&& after[i].move_choice == before[i].move_choice
    &&& after[i].visits == before[i].visits + 1
    &&& after[i].total_score == nearest_double(before[i].total_score + score, 1)
    &&& forall|k: int| 0 <= k < before.len() && k != i ==> #[trigger] after[k] == before[k]
}

impl<S, O, P, G, A, R, V, W, U, D> Rules<S, O, P, G, A, R, V, W, U, D> where
    O: Fn(&S) -> i8,
    P: Fn(&S) -> (Vec<MoveChoice>, Vec<MoveChoice>),
    G: Fn(&S, &MoveChoice, &MoveChoice, bool) -> Vec<StateInstructions>,
    A: Fn(S, &Vec<Instruction>) -> S,
    R: Fn(S, &Vec<Instruction>) -> S,
    V: Fn(&S, &EvalConfig) -> Float32,
    W: Fn(Float32, Float32) -> u64,
    U: Fn(u128, u64, u64, Float32) -> Float32,
    D: Fn(Float32, Float32) -> Float32,
 {
    /// An iteration through a position tries, for each of the two sides, the
    /// move to be tried of that side, unless one is pinned. Side one's move is
    /// credited with the score and side two's with the rest of a win, unless
    /// neither side has a move; no other move changes.
    pub proof fn lemma_iteration_tries_the_best(
        self,
        before: Node,
        after: Node,
        exploration: Float32,
        force: (Option<usize>, Option<usize>),
        score: u64,
        calc: RankFn,
    )
        requires
            before.wf(),
            before.open(),
            before.times_visited < u64::MAX,
            before.root || score_of_terminal(after.terminal_result) is None,
            self.stepped(before, after, exploration, force, score),
            ranks_as(self.rank, calc),
            finite_ranks(before.s1(), before.times_visited, exploration, calc),
            finite_ranks(before.s2(), before.times_visited, exploration, calc),
        ensures
            after.times_visited == before.times_visited + 1,
            exists|i: int, j: int|
                {
                    &&& #[trigger] tries(
                        before.s1(),
                        before.times_visited,
                        exploration,
                        calc,
                        force.0,
                        i,
                    )
                    &&& #[trigger] tries(
                        before.s2(),
                        before.times_visited,
                        exploration,
                        calc,
                        force.1,
                        j,
                    )
                    &&& if before.s1()[i].move_choice == MoveChoice::NoMove
                        && before.s2()[j].move_choice == MoveChoice::NoMove {
                        after.s1() == before.s1() && after.s2() == before.s2()
                    } else {
                        tried_once_more(before.s1(), after.s1(), i, score as int)
                            && tried_once_more(
                            before.s2(),
                            after.s2(),
                            j,
                            nearest_single(SCORE_ONE - score, 1),
                        )
                    }
                },
    {
        let visits = before.times_visited;
        let (i, j) = choose|i: int, j: int|
            self.chosen(s1_before(before, after), visits, exploration, force.0, i) && self.chosen(
                s2_before(before, after),
                visits,
                exploration,
                force.1,
                j,
            ) && #[trigger] pair_tried(before, after, i, j, score as int);
        lemma_best_option(before.s1(), visits, exploration, calc);
        lemma_best_option(before.s2(), visits, exploration, calc);
        let a = before.s1()[i];
        let b = before.s2()[j];
        assert(a.visits <= visits && b.visits <= visits);
        crate::mcts::moves::lemma_rest(score as int);
        crate::mcts::moves::lemma_double_sum(
            a.total_score as int,
            score as int,
            a.visits as int,
        );
        crate::mcts::moves::lemma_double_sum(
            b.total_score as int,
            rest_of(score as int),
            b.visits as int,
        );
        assert(tries(before.s1(), visits, exploration, calc, force.0, i));
        assert(tries(before.s2(), visits, exploration, calc, force.1, j));
    }
}

} // verus!
