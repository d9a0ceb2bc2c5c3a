//! Which moves a worker tries in a position of the shared tree.

use crate::float32::Float32;
use crate::mcts::laws::lemma_infinity;
use crate::mcts::node::{LEAST_RANK, UNTRIED_RANK};
use crate::shared::tree::{
    best_pair, best_ranked, rank_of, ranks_as, MoveNode, NodeView, RankFn, SharedTree,
};
use crate::shared::worker::{takes_turn, Worker, WorkerAction, WorkerEvent, WorkerPhase};
use vstd::prelude::*;

verus! {

/// Whether the ranks of tried moves are finite numbers.
pub open spec fn finite_ranks(options: Seq<MoveNode>, visits: u64, calc: RankFn) -> bool {
    forall|i: int|
        0 <= i < options.len() && (#[trigger] options[i]).visits > 0 ==> calc(
            options[i].total_score,
            options[i].visits,
            visits,
        ).finite()
}

/// Whether move `i` is the one to try: the first that was not tried, and
/// where all were, the first whose rank no other exceeds.
pub open spec fn to_be_tried(options: Seq<MoveNode>, visits: u64, calc: RankFn, i: int) -> bool {
    &&& 0 <= i < options.len()
    &&& if options[i].visits == 0 {
        forall|k: int| 0 <= k < i ==> (#[trigger] options[k]).visits > 0
    } else {
        let own = calc(options[i].total_score, options[i].visits, visits);
        &&& forall|k: int| 0 <= k < options.len() ==> (#[trigger] options[k]).visits > 0
        &&& forall|k: int|
            0 <= k < options.len() ==> own.units() >= calc(
                (#[trigger] options[k]).total_score,
                options[k].visits,
                visits,
            ).units()
        &&& forall|k: int|
            0 <= k < i ==> own.units() > calc(
                (#[trigger] options[k]).total_score,
                options[k].visits,
                visits,
            ).units()
    }
}

/// Whether a position counts as visited so many times: by the workers that
/// came back to it and those under way below it, and at least once.
pub open spec fn counts_as_visited(v: NodeView, visits: u64) -> bool {
    let under_way = if v.virtual_losses < 0 {
        0
    } else {
        v.virtual_losses as int
    };
    &&& visits >= 1
    &&& visits == v.times_visited + under_way || (visits == 1 && v.times_visited + under_way == 0)
        || (visits == u64::MAX && v.times_visited + under_way > u64::MAX)
}

proof fn lemma_best_so_far(options: Seq<MoveNode>, visits: u64, calc: RankFn, n: int)
    requires
        0 <= n <= options.len(),
        finite_ranks(options, visits, calc),
    ensures
        ({
            let best = best_ranked(options, visits, calc, n);
            &&& !best.1.nan()
            &&& best.1.units() >= (Float32 { bits: LEAST_RANK }).units()
            &&& n > 0 ==> 0 <= best.0 < n
            &&& n == 0 ==> best.0 == 0
            &&& n > 0 ==> best.1.units() == rank_of(options[best.0], visits, calc).units()
            &&& forall|k: int|
                0 <= k < n ==> best.1.units() >= rank_of(
                    #[trigger] options[k],
                    visits,
                    calc,
                ).units()
            &&& forall|k: int|
                0 <= k < n && k < best.0 ==> best.1.units() > rank_of(
                    #[trigger] options[k],
                    visits,
                    calc,
                ).units()
        }),
    decreases n,
{
    lemma_infinity();
    if n > 0 {
        lemma_best_so_far(options, visits, calc, n - 1);
        let rank = rank_of(options[n - 1], visits, calc);
        assert(!rank.nan());
        crate::mcts::choice_laws::lemma_least_is_least(rank);
    }
}

proof fn lemma_best_move(options: Seq<MoveNode>, visits: u64, calc: RankFn)
    requires
        options.len() > 0,
        finite_ranks(options, visits, calc),
    ensures
        to_be_tried(
            options,
            visits,
            calc,
            best_ranked(options, visits, calc, options.len() as int).0,
        ),
{
    lemma_infinity();
    lemma_best_so_far(options, visits, calc, options.len() as int);
    let i = best_ranked(options, visits, calc, options.len() as int).0;
    let top = Float32 { bits: UNTRIED_RANK };
    if options[i].visits == 0 {
        assert forall|k: int| 0 <= k < i implies (#[trigger] options[k]).visits > 0 by {
            if options[k].visits == 0 {
                assert(rank_of(options[k], visits, calc) == top);
            }
        }
    } else {
        let own = calc(options[i].total_score, options[i].visits, visits);
        assert(own.below(top));
        assert forall|k: int| 0 <= k < options.len() implies (#[trigger] options[k]).visits > 0 by {
            if options[k].visits == 0 {
                assert(rank_of(options[k], visits, calc) == top);
            }
        }
    }
}

/// The pair that a worker chooses in a position has, for each of the two
/// sides, the move to be tried of that side: no move is tried a second time
/// while another of its side was not tried, and no other has a higher rank.
pub proof fn lemma_pair_is_best(v: NodeView, visits: u64, calc: RankFn)
    requires
        v.s1.len() > 0,
        v.s2.len() > 0,
        counts_as_visited(v, visits),
        finite_ranks(v.s1, visits, calc),
        finite_ranks(v.s2, visits, calc),
    ensures
        to_be_tried(v.s1, visits, calc, best_pair(v, calc).0),
        to_be_tried(v.s2, visits, calc, best_pair(v, calc).1),
{
    lemma_best_move(v.s1, visits, calc);
    lemma_best_move(v.s2, visits, calc);
}

/// A turn of a worker that chooses in a position whose moves are known claims
/// the move to be tried of each of the two sides, and no other move there.
pub proof fn lemma_turn_claims_the_best<U: Fn(u64, u64, u64) -> Float32>(
    n: usize,
    event: WorkerEvent,
    rank: U,
    before: (Worker, SharedTree),
    after: (Worker, SharedTree),
    action: WorkerAction,
    visits: u64,
    calc: RankFn,
)
    requires
        before.1.wf(),
        before.0.wf(before.1),
        before.0.phase == WorkerPhase::Select(n),
        before.1.seen()[n as int].known,
        takes_turn(event, rank, before, after, action),
        ranks_as(rank, calc),
        counts_as_visited(before.1.seen()[n as int], visits),
        finite_ranks(before.1.seen()[n as int].s1, visits, calc),
        finite_ranks(before.1.seen()[n as int].s2, visits, calc),
    ensures
        ({
            let old_s1 = before.1.seen()[n as int].s1;
            let old_s2 = before.1.seen()[n as int].s2;
            let new_s1 = after.1.seen()[n as int].s1;
            let new_s2 = after.1.seen()[n as int].s2;
            exists|i: int, j: int|
                {
                    &&& #[trigger] to_be_tried(old_s1, visits, calc, i)
                    &&& #[trigger] to_be_tried(old_s2, visits, calc, j)
                    &&& new_s1.len() == old_s1.len()
                    &&& new_s2.len() == old_s2.len()
                    &&& new_s1[i].visits == old_s1[i].visits.wrapping_add(3)
                    &&& new_s2[j].visits == old_s2[j].visits.wrapping_add(3)
                    &&& new_s1[i].total_score == old_s1[i].total_score
                    &&& new_s2[j].total_score == old_s2[j].total_score
                    &&& forall|k: int|
                        0 <= k < old_s1.len() && k != i ==> #[trigger] new_s1[k] == old_s1[k]
                    &&& forall|k: int|
                        0 <= k < old_s2.len() && k != j ==> #[trigger] new_s2[k] == old_s2[k]
                }
        }),
{
    let v = before.1.seen()[n as int];
    lemma_pair_is_best(v, visits, calc);
    let i = best_pair(v, calc).0;
    let j = best_pair(v, calc).1;
    assert(to_be_tried(v.s1, visits, calc, i) && to_be_tried(v.s2, visits, calc, j));
}

} // verus!
