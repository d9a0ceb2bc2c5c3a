//! Searches that follow one another in one tree.

use crate::evaluate::config::EvalConfig;
use crate::float32::Float32;
use crate::mcts::laws::lemma_reported_visits;
use crate::mcts::moves::{
    all_untried, choices_of, position_of, Instruction, MoveChoice, MoveNode, SideReference,
    StateInstructions,
};
use crate::mcts::perform::{pinned, reports_of, MctsResult, MctsSideResult};
use crate::mcts::run::{
    ends, goes_on_at, lemma_iteration_limit_is_met, limit_of, whole_batches, SearchEnd, BATCH,
};
use crate::mcts::search::{Rules, SearchTerms};
use crate::mcts::size::MCTS_MAX_TREE_BYTES;
use crate::mcts::tree::{close_enough, ReusableTree};
use crate::selfplay::game::reported;
use crate::trajectory::relabel::visits_of;
use vstd::prelude::*;

verus! {

/// What is reported of a side.
pub open spec fn of_side(side: SideReference, result: MctsResult) -> Seq<MctsSideResult> {
    match side {
        SideReference::SideOne => result.s1@,
        SideReference::SideTwo => result.s2@,
    }
}

/// What is reported of the side opposite.
pub open spec fn of_other(side: SideReference, result: MctsResult) -> Seq<MctsSideResult> {
    match side {
        SideReference::SideOne => result.s2@,
        SideReference::SideTwo => result.s1@,
    }
}

/// Whether a move stands first at `place`.
pub open spec fn first_at(choices: Seq<MoveChoice>, choice: MoveChoice, place: int) -> bool {
    &&& 0 <= place < choices.len()
    &&& choices[place] == choice
    &&& forall|i: int| 0 <= i < place ==> #[trigger] choices[i] != choice
}

proof fn lemma_first_at(options: Seq<MoveNode>, choice: MoveChoice, place: int, from: int)
    requires
        first_at(choices_of(options), choice, place),
        0 <= from <= place,
    ensures
        position_of(options, choice, from) == Some(place),
    decreases place - from,
{
    assert(choices_of(options)[from] == options[from].move_choice);
    if from < place {
        lemma_first_at(options, choice, place, from + 1);
    }
}

proof fn lemma_reported(options: Seq<MoveNode>)
    ensures
        reported(reports_of(options)) == choices_of(options),
{
    assert(reported(reports_of(options)) =~= choices_of(options));
}

/// A search stops within a batch of its limit, so its counter has room
/// wherever the root had not many visits before.
proof fn lemma_counter_has_room(max_iterations: u32, end: SearchEnd, done: int, visits: int)
    requires
        max_iterations > 0,
        ends(limit_of(0, max_iterations), end, done, visits),
    ensures
        done < max_iterations + BATCH,
{
    let limit = limit_of(0, max_iterations);
    if done > BATCH {
        let (tree_bytes, elapsed) = choose|tree_bytes: u64, elapsed: u128|
            tree_bytes <= end.tree_bytes && #[trigger] goes_on_at(
                limit,
                tree_bytes,
                elapsed,
                done - BATCH,
            );
        assert(done - BATCH < max_iterations);
    }
}

impl<S, O, P, G, A, R, V, W, U, D> Rules<S, O, P, G, A, R, V, W, U, D> where
    O: Fn(&S) -> i8,
    P: Fn(&S) -> (Vec<MoveChoice>, Vec<MoveChoice>),
    G: Fn(&S, &MoveChoice, &MoveChoice, bool) -> Vec<StateInstructions>,
    A: Fn(S, &Vec<Instruction>) -> S,
    R: Fn(S, &Vec<Instruction>) -> S,
    V: Fn(&S, &EvalConfig) -> Float32,
    W: Fn(Float32, Float32) -> u64,
    U: Fn(u128, u64, u64, Float32) -> Float32,
    D: Fn(Float32, Float32) -> Float32,
 {
    /// Whether a position has one evaluation, which is close enough to
    /// itself, by an evaluator that is alike itself.
    pub open spec fn steady(self, state: S, config: EvalConfig) -> bool {
        &&& config.alike(config)
        &&& forall|x: Float32, y: Float32| #[trigger]
            self.evaluate.ensures((&state, &config), x) && #[trigger] self.evaluate.ensures(
                (&state, &config),
                y,
            ) ==> x == y
        &&& forall|x: Float32, drift: Float32| #[trigger]
            self.evaluate.ensures((&state, &config), x) && #[trigger] self.distance.ensures(
                (x, x),
                drift,
            ) ==> close_enough(drift)
    }

    /// Whether a search of `before` in this position goes on from its tree.
    pub open spec fn goes_on(
        self,
        before: ReusableTree,
        state: S,
        s1: Seq<MoveChoice>,
        s2: Seq<MoveChoice>,
        config: EvalConfig,
    ) -> bool {
        forall|current: Float32, drift: Float32| #[trigger]
            self.evaluate.ensures((&state, &config), current)
                && #[trigger] self.distance.ensures((current, before.anchor()), drift)
                ==> before.warm(s1, s2, drift, config)
    }

    /// A search that is limited by its iterations, in a fresh tree: it makes
    /// as many whole batches as reach the limit, which are the visits of its
    /// root, and reports on the moves that it was given, in their order. The
    /// tree is anchored at the evaluation of the position.
    pub proof fn lemma_first_search(
        self,
        before: ReusableTree,
        after: ReusableTree,
        state: S,
        s1: Seq<MoveChoice>,
        s2: Seq<MoveChoice>,
        committed: Option<(SideReference, MoveChoice)>,
        config: EvalConfig,
        max_iterations: u32,
        exploration: Float32,
        result: MctsResult,
        end: SearchEnd,
    )
        requires
            before.stored() is None,
            self.performed(
                before,
                after,
                state,
                s1,
                s2,
                committed,
                config,
                0,
                max_iterations,
                exploration,
                result,
                end,
            ),
            max_iterations > 0,
            end.tree_bytes < MCTS_MAX_TREE_BYTES,
        ensures
            result.iteration_count == whole_batches(max_iterations as int),
            after.stored() matches Some(node) && node.times_visited == result.iteration_count
                && node.open() && choices_of(node.s1()) == s1 && choices_of(node.s2()) == s2
                && result.s1@ == reports_of(node.s1()) && result.s2@ == reports_of(node.s2()),
            reported(result.s1@) == s1,
            reported(result.s2@) == s2,
            self.evaluate.ensures((&state, &config), after.anchor()),
            after.config() == config,
    {
        let (current, drift, start) = choose|
            current: Float32,
            drift: Float32,
            start: ReusableTree,
        |
            {
                &&& self.evaluate.ensures((&state, &config), current)
                &&& self.distance.ensures((current, before.anchor()), drift)
                &&& #[trigger] ReusableTree::rooted(before, start, s1, s2, current, drift, config)
                &&& after.anchor() == start.anchor()
                &&& after.config() == start.config()
                &&& start.stored() is Some && after.stored() is Some
                &&& self.searched(
                    state,
                    SearchTerms { root_eval: start.anchor(), config: &config, exploration },
                    start.stored()->0,
                    after.stored()->0,
                    match committed {
                        None => (None, None),
                        Some((side, choice)) => pinned(start.stored()->0, side, choice),
                    },
                    0,
                    max_iterations,
                    result,
                    end,
                )
            };
        let root = start.stored()->0;
        let last = after.stored()->0;
        let force = match committed {
            None => (None, None),
            Some((side, choice)) => pinned(root, side, choice),
        };
        self.lemma_iterations_are_counted(
            state,
            SearchTerms { root_eval: start.anchor(), config: &config, exploration },
            root,
            last,
            force,
            result.iteration_count as nat,
            end.tree_bytes,
        );
        let done = result.iteration_count as int;
        lemma_counter_has_room(max_iterations, end, done, last.times_visited as int);
        lemma_iteration_limit_is_met(
            limit_of(0, max_iterations),
            end,
            done,
            last.times_visited as int,
            max_iterations,
        );
        assert(choices_of(all_untried(s1)) =~= s1);
        assert(choices_of(all_untried(s2)) =~= s2);
        lemma_reported(last.s1());
        lemma_reported(last.s2());
    }

    /// A search that is limited by its iterations, in a tree worth going on
    /// with: the limit counts anew, the visits of the tree carry over, and
    /// it reports on the moves that it was given, in their order.
    pub proof fn lemma_next_search(
        self,
        before: ReusableTree,
        after: ReusableTree,
        state: S,
        s1: Seq<MoveChoice>,
        s2: Seq<MoveChoice>,
        committed: Option<(SideReference, MoveChoice)>,
        config: EvalConfig,
        max_iterations: u32,
        exploration: Float32,
        result: MctsResult,
        end: SearchEnd,
    )
        requires
            before.wf(),
            self.performed(
                before,
                after,
                state,
                s1,
                s2,
                committed,
                config,
                0,
                max_iterations,
                exploration,
                result,
                end,
            ),
            self.goes_on(before, state, s1, s2, config),
            max_iterations > 0,
            end.tree_bytes < MCTS_MAX_TREE_BYTES,
            before.stored()->0.times_visited + max_iterations + 2 * BATCH <= u64::MAX,
        ensures
            result.iteration_count == whole_batches(max_iterations as int),
            before.stored() is Some,
            after.stored() matches Some(node) && node.times_visited
                == before.stored()->0.times_visited + whole_batches(max_iterations as int),
            reported(result.s1@) == s1,
            reported(result.s2@) == s2,
    {
        let (current, drift, start) = choose|
            current: Float32,
            drift: Float32,
            start: ReusableTree,
        |
            {
                &&& self.evaluate.ensures((&state, &config), current)
                &&& self.distance.ensures((current, before.anchor()), drift)
                &&& #[trigger] ReusableTree::rooted(before, start, s1, s2, current, drift, config)
                &&& after.anchor() == start.anchor()
                &&& after.config() == start.config()
                &&& start.stored() is Some && after.stored() is Some
                &&& self.searched(
                    state,
                    SearchTerms { root_eval: start.anchor(), config: &config, exploration },
                    start.stored()->0,
                    after.stored()->0,
                    match committed {
                        None => (None, None),
                        Some((side, choice)) => pinned(start.stored()->0, side, choice),
                    },
                    0,
                    max_iterations,
                    result,
                    end,
                )
            };
        assert(start == before);
        let root = start.stored()->0;
        let last = after.stored()->0;
        let force = match committed {
            None => (None, None),
            Some((side, choice)) => pinned(root, side, choice),
        };
        self.lemma_iterations_are_counted(
            state,
            SearchTerms { root_eval: start.anchor(), config: &config, exploration },
            root,
            last,
            force,
            result.iteration_count as nat,
            end.tree_bytes,
        );
        let done = result.iteration_count as int;
        lemma_counter_has_room(max_iterations, end, done, last.times_visited as int);
        lemma_iteration_limit_is_met(
            limit_of(0, max_iterations),
            end,
            done,
            last.times_visited as int,
            max_iterations,
        );
        lemma_reported(last.s1());
        lemma_reported(last.s2());
    }

    /// Pondering right after a search, both limited by their iterations: the
    /// committed move has as many visits more as the second search made
    /// iterations, the other moves of its side have none more, and the moves
    /// of the side opposite share them.
    pub proof fn lemma_search_and_ponder(
        self,
        before: ReusableTree,
        between: ReusableTree,
        after: ReusableTree,
        state: S,
        s1: Seq<MoveChoice>,
        s2: Seq<MoveChoice>,
        side: SideReference,
        committed: MoveChoice,
        config: EvalConfig,
        iterations: (u32, u32),
        exploration: Float32,
        first: (MctsResult, SearchEnd),
        second: (MctsResult, SearchEnd),
        place: int,
    )
        requires
            before.stored() is None,
            between.wf(),
            self.performed(
                before,
                between,
                state,
                s1,
                s2,
                None,
                config,
                0,
                iterations.0,
                exploration,
                first.0,
                first.1,
            ),
            self.performed(
                between,
                after,
                state,
                s1,
                s2,
                Some((side, committed)),
                config,
                0,
                iterations.1,
                exploration,
                second.0,
                second.1,
            ),
            self.steady(state, config),
            iterations.0 > 0,
            iterations.1 > 0,
            first.1.tree_bytes < MCTS_MAX_TREE_BYTES,
            second.1.tree_bytes < MCTS_MAX_TREE_BYTES,
            committed != MoveChoice::NoMove,
            first_at(
                match side {
                    SideReference::SideOne => s1,
                    SideReference::SideTwo => s2,
                },
                committed,
                place,
            ),
        ensures
            second.0.iteration_count == whole_batches(iterations.1 as int),
            of_side(side, second.0).len() == of_side(side, first.0).len(),
            forall|i: int|
                0 <= i < of_side(side, first.0).len() ==> (#[trigger] of_side(
                    side,
                    second.0,
                )[i]).visits == of_side(side, first.0)[i].visits + if i == place {
                    whole_batches(iterations.1 as int)
                } else {
                    0
                },
            visits_of(of_other(side, second.0), of_other(side, second.0).len() as int) == visits_of(
                of_other(side, first.0),
                of_other(side, first.0).len() as int,
            ) + whole_batches(iterations.1 as int),
    {
        self.lemma_first_search(
            before,
            between,
            state,
            s1,
            s2,
            None,
            config,
            iterations.0,
            exploration,
            first.0,
            first.1,
        );
        let root = between.stored()->0;
        assert(whole_batches(iterations.0 as int) <= iterations.0 + BATCH);
        assert(self.goes_on(between, state, s1, s2, config)) by {
            assert forall|current: Float32, drift: Float32| #[trigger]
                self.evaluate.ensures((&state, &config), current)
                    && #[trigger] self.distance.ensures(
                    (current, between.anchor()),
                    drift,
                ) implies between.warm(s1, s2, drift, config) by {
                assert(current == between.anchor());
            }
        }
        self.lemma_next_search(
            between,
            after,
            state,
            s1,
            s2,
            Some((side, committed)),
            config,
            iterations.1,
            exploration,
            second.0,
            second.1,
        );
        match side {
            SideReference::SideOne => {
                lemma_first_at(root.s1(), committed, place, 0);
                self.lemma_pondering_pins_the_committed_move(
                    between,
                    after,
                    state,
                    s1,
                    s2,
                    committed,
                    config,
                    0,
                    iterations.1,
                    exploration,
                    second.0,
                    second.1,
                    place,
                );
                lemma_reported_visits(root.s2(), root.s2().len() as int);
            },
            SideReference::SideTwo => {
                lemma_first_at(root.s2(), committed, place, 0);
                self.lemma_pondering_pins_the_committed_move_of_side_two(
                    between,
                    after,
                    state,
                    s1,
                    s2,
                    committed,
                    config,
                    0,
                    iterations.1,
                    exploration,
                    second.0,
                    second.1,
                    place,
                );
                lemma_reported_visits(root.s1(), root.s1().len() as int);
            },
        }
    }
}

} // verus!
