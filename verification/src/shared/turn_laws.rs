//! What a worker asks for, turn by turn.

use crate::float32::Float32;
use crate::mcts::moves::{MoveChoice, SCORE_ONE};
use crate::shared::totals::score_in;
use crate::shared::tree::SharedTree;
use crate::shared::worker::{takes_turn, Worker, WorkerAction, WorkerEvent, WorkerPhase};
use vstd::prelude::*;

verus! {

/// The score that a worker comes back with is a win for side one, none for a
/// win of side two, and the value that it was told.
pub proof fn lemma_score_in(over: i8, value: u64)
    ensures
        over > 0 ==> score_in(WorkerEvent::Over(over)) == SCORE_ONE,
        over == -1 ==> score_in(WorkerEvent::Over(over)) == 0,
        score_in(WorkerEvent::Value(value)) == value,
{
}

/// A worker in a position whose moves are not known asks for them, and what
/// it is told is kept: each move once, in order, none of them tried.
pub proof fn lemma_moves_are_asked_for<U: Fn(u64, u64, u64) -> Float32>(
    n: usize,
    event: WorkerEvent,
    rank: U,
    before: (Worker, SharedTree),
    after: (Worker, SharedTree),
    action: WorkerAction,
)
    requires
        before.1.wf(),
        before.0.wf(before.1),
        before.0.phase == WorkerPhase::Select(n),
        before.0.expects(before.1, event),
        !before.1.seen()[n as int].known,
        takes_turn(event, rank, before, after, action),
    ensures
        event is Go ==> action == WorkerAction::AskOptions && after.1 == before.1
            && after.0.phase == before.0.phase,
        event matches WorkerEvent::Options(s1, s2) ==> {
            let v = after.1.seen()[n as int];
            &&& v.known
            &&& v.s1.len() == s1@.len() && v.s2.len() == s2@.len()
            &&& forall|i: int|
                0 <= i < s1@.len() ==> (#[trigger] v.s1[i]).move_choice == s1@[i]
                    && v.s1[i].total_score == 0
            &&& forall|j: int|
                0 <= j < s2@.len() ==> (#[trigger] v.s2[j]).move_choice == s2@[j]
                    && v.s2[j].total_score == 0
        },
{
}

/// A worker at a pair of moves that was not expanded, once it knows how the
/// battle stands: if it goes on, or this is the root, and some side moves, it
/// asks for the outcomes of just these moves, split by damage roll in the
/// first two levels. If nobody moves it asks for the value of the position.
/// If the battle is over it comes back.
pub proof fn lemma_what_an_unexpanded_pair_leads_to<U: Fn(u64, u64, u64) -> Float32>(
    n: usize,
    i: usize,
    j: usize,
    over: i8,
    rank: U,
    before: (Worker, SharedTree),
    after: (Worker, SharedTree),
    action: WorkerAction,
)
    requires
        before.1.wf(),
        before.0.wf(before.1),
        before.0.phase == WorkerPhase::Leaf(n, i, j),
        takes_turn(WorkerEvent::Over(over), rank, before, after, action),
    ensures
        ({
            let v = before.1.seen()[n as int];
            let m1 = v.s1[i as int].move_choice;
            let m2 = v.s2[j as int].move_choice;
            let moving = m1 != MoveChoice::NoMove || m2 != MoveChoice::NoMove;
            &&& (over == 0 || v.root) && moving ==> action == WorkerAction::AskOutcomes(
                m1,
                m2,
                v.depth < 2,
            ) && after.0.phase == WorkerPhase::Expand(n, i, j)
            &&& over == 0 && !moving ==> action == WorkerAction::AskValue && after.0.phase
                == WorkerPhase::Value(n)
            &&& over != 0 && (!v.root || !moving) ==> action == WorkerAction::Finish
        }),
{
}

/// A worker that reached a new position hears how the battle stands there,
/// and comes back if it is over; else it asks for the value of the position,
/// and comes back with that.
pub proof fn lemma_what_a_new_position_leads_to<U: Fn(u64, u64, u64) -> Float32>(
    n: usize,
    event: WorkerEvent,
    rank: U,
    before: (Worker, SharedTree),
    after: (Worker, SharedTree),
    action: WorkerAction,
)
    requires
        before.0.expects(before.1, event),
        takes_turn(event, rank, before, after, action),
    ensures
        before.0.phase == WorkerPhase::Arrive(n) ==> action == WorkerAction::AskOver
            && after.0.phase == WorkerPhase::Judge(n) && after.1 == before.1,
        before.0.phase == WorkerPhase::Judge(n) && event == WorkerEvent::Over(0) ==> action
            == WorkerAction::AskValue && after.0.phase == WorkerPhase::Value(n),
        before.0.phase == WorkerPhase::Judge(n) && (event matches WorkerEvent::Over(o) && o != 0)
            ==> action == WorkerAction::Finish,
        before.0.phase == WorkerPhase::Value(n) ==> action == WorkerAction::Finish,
        action == WorkerAction::Finish ==> after.0.phase is Done,
{
}

/// A worker that was told outcomes goes on to one of them. They are added
/// behind the positions that are there, in order, one level further down,
/// unless the pair was expanded meanwhile.
pub proof fn lemma_outcomes_are_added<U: Fn(u64, u64, u64) -> Float32>(
    pair: (usize, usize, usize),
    event: WorkerEvent,
    rank: U,
    before: (Worker, SharedTree),
    after: (Worker, SharedTree),
    action: WorkerAction,
    k: int,
)
    requires
        before.1.wf(),
        before.0.wf(before.1),
        before.0.phase == WorkerPhase::Expand(pair.0, pair.1, pair.2),
        before.0.expects(before.1, event),
        takes_turn(event, rank, before, after, action),
        !before.1.expanded().contains_key(pair),
        before.1.seen().len() <= usize::MAX,
        event matches WorkerEvent::Outcomes(list) && 0 <= k < list@.len() <= usize::MAX,
    ensures
        ({
            let list = event->Outcomes_0@;
            let first = before.1.seen().len() as int;
            let v = after.1.seen()[first + k];
            let above = before.1.seen()[pair.0 as int].depth;
            &&& after.1.seen().len() == first + list.len()
            &&& v.percentage == list[k].percentage
            &&& v.list == list[k].instruction_list@
            &&& above < 255 ==> v.depth == above + 1
            &&& !v.known && !v.root && v.times_visited == 0
            &&& after.1.expanded().contains_key(pair)
            &&& after.1.expanded()[pair].0 == first && after.1.expanded()[pair].1 == list.len()
            &&& action matches WorkerAction::Apply(child) && first <= child < first + list.len()
                && after.0.phase == WorkerPhase::Arrive(child)
        }),
{
}

} // verus!
