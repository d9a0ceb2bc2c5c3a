//! What a turn of a game is, told by what each side is given.

use crate::evaluate::config::EvalConfig;
use crate::float32::Float32;
use crate::mcts::moves::{Instruction, MoveChoice, SideReference, StateInstructions};
use crate::mcts::perform::{MctsResult, MctsSideResult};
use crate::mcts::run::SearchEnd;
use crate::mcts::search::Rules;
use crate::mcts::tree::ReusableTree;
use crate::selfplay::game::{best_report, forced, Moment, Play};
use crate::selfplay::score::{best_of, better, lemma_best_is_best, EngineConfig};
use vstd::prelude::*;

verus! {

/// Whether a move is one of the most visited of a report.
pub open spec fn most_visited(reports: Seq<MctsSideResult>, choice: MoveChoice) -> bool {
    exists|i: int|
        0 <= i < reports.len() && (#[trigger] reports[i]).move_choice == choice && forall|k: int|
            0 <= k < reports.len() ==> (#[trigger] reports[k]).visits <= reports[i].visits
}

proof fn lemma_best_is_most_visited(reports: Seq<MctsSideResult>)
    requires
        reports.len() > 0,
    ensures
        most_visited(reports, reports[best_of(reports, reports.len() as int)].move_choice),
{
    let i = best_of(reports, reports.len() as int);
    lemma_best_is_best(reports, reports.len() as int);
    assert forall|k: int| 0 <= k < reports.len() implies (#[trigger] reports[k]).visits
        <= reports[i].visits by {
        assert(!better(reports[k], reports[i]));
    }
    assert(reports[i].move_choice == reports[i].move_choice);
}

impl<S, O, P, G, A, R, V, W, U, D> Rules<S, O, P, G, A, R, V, W, U, D> where
    O: Fn(&S) -> i8,
    P: Fn(&S) -> (Vec<MoveChoice>, Vec<MoveChoice>),
    G: Fn(&S, &MoveChoice, &MoveChoice, bool) -> Vec<StateInstructions>,
    A: Fn(S, &Vec<Instruction>) -> S,
    R: Fn(S, &Vec<Instruction>) -> S,
    V: Fn(&S, &EvalConfig) -> Float32,
    W: Fn(Float32, Float32) -> u64,
    U: Fn(u128, u64, u64, Float32) -> Float32,
    D: Fn(Float32, Float32) -> Float32,
 {
    /// Whether a search of a position with a side's own configuration can
    /// have reported `result`: on several threads where it has them, and else
    /// as many iterations and as much time as it has, with its exploration,
    /// and with damage rolls split as it has it.
    pub open spec fn searched_by<
        H: Fn(&S, &Vec<MoveChoice>, &Vec<MoveChoice>, &EngineConfig) -> MctsResult,
    >(
        self,
        state: S,
        config: EngineConfig,
        options: (Vec<MoveChoice>, Vec<MoveChoice>),
        shared: H,
        result: MctsResult,
    ) -> bool {
        if config.threads > 1 {
            shared.ensures((&state, &options.0, &options.1, &config), result)
        } else {
            exists|c: EvalConfig, start: ReusableTree, left: ReusableTree, end: SearchEnd|
                #[trigger] (Rules {
                    branch_all_depths: config.branch_all_depths,
                    ..self
                }).performed(
                    start,
                    left,
                    state,
                    options.0@,
                    options.1@,
                    None,
                    c,
                    (config.time_ms * 1_000_000) as u128,
                    config.iterations,
                    config.exploration_constant,
                    result,
                    end,
                ) && (!config.tree_reuse ==> start.stored() is None)
        }
    }

    /// Whether a side decides for `choice` of its moves: for no move where it
    /// has none, for the only one, and else for one of the most visited of
    /// what a search with its own configuration reports of its own moves.
    pub open spec fn decides_for<
        H: Fn(&S, &Vec<MoveChoice>, &Vec<MoveChoice>, &EngineConfig) -> MctsResult,
    >(
        self,
        state: S,
        config: EngineConfig,
        options: (Vec<MoveChoice>, Vec<MoveChoice>),
        on_one: bool,
        shared: H,
        choice: MoveChoice,
    ) -> bool {
        let own = if on_one {
            options.0@
        } else {
            options.1@
        };
        &&& own.len() == 0 ==> choice == MoveChoice::NoMove
        &&& own.len() == 1 ==> choice == own[0]
        &&& own.len() >= 2 ==> exists|result: MctsResult| #[trigger]
            self.searched_by(state, config, options, shared, result) && (on_one ==> result.s1@.len()
                > 0 ==> most_visited(result.s1@, choice)) && (!on_one ==> result.s2@.len() > 0
                ==> most_visited(result.s2@, choice))
    }

    /// A turn of a game that is not over: each side decides for itself, by its
    /// own configuration and its own moves, and what happens is one of the
    /// outcomes of the two decisions, which leads to the next position.
    pub proof fn lemma_what_a_turn_is<
        Q: Fn(&S) -> (Vec<MoveChoice>, Vec<MoveChoice>),
        H: Fn(&S, &Vec<MoveChoice>, &Vec<MoveChoice>, &EngineConfig) -> MctsResult,
        T: Fn(&S, &MoveChoice, &MoveChoice) -> Vec<StateInstructions>,
    >(
        self,
        s1_config: EngineConfig,
        s2_config: EngineConfig,
        root_options: Q,
        shared: H,
        turn_outcomes: T,
        at: Moment<S>,
        next: Moment<S>,
        play: Play,
    )
        requires
            self.turned(
                s1_config,
                s2_config,
                root_options,
                shared,
                turn_outcomes,
                at,
                next,
                play,
            ),
        ensures
            self.over.ensures((&at.state,), 0i8),
            exists|options: (Vec<MoveChoice>, Vec<MoveChoice>)| #[trigger]
                root_options.ensures((&at.state,), options) && self.decides_for(
                    at.state,
                    s1_config,
                    options,
                    true,
                    shared,
                    play.s1_choice,
                ),
            exists|options: (Vec<MoveChoice>, Vec<MoveChoice>)| #[trigger]
                root_options.ensures((&at.state,), options) && self.decides_for(
                    at.state,
                    s2_config,
                    options,
                    false,
                    shared,
                    play.s2_choice,
                ),
            turn_outcomes.ensures((&at.state, &play.s1_choice, &play.s2_choice), play.outcomes),
            0 <= play.happened < play.outcomes@.len(),
            self.apply.ensures(
                (at.state, &play.outcomes@[play.happened].instruction_list),
                next.state,
            ),
            s1_config.tree_reuse ==> next.s1_reuse.attempts == at.s1_reuse.attempts + 1,
            !s1_config.tree_reuse ==> next.s1_reuse == at.s1_reuse,
            s2_config.tree_reuse ==> next.s2_reuse.attempts == at.s2_reuse.attempts + 1,
            !s2_config.tree_reuse ==> next.s2_reuse == at.s2_reuse,
    {
        self.lemma_decides(
            at.state,
            s1_config,
            SideReference::SideOne,
            at.s1_tree,
            play.s1_searched,
            root_options,
            shared,
            play.s1_choice,
        );
        self.lemma_decides(
            at.state,
            s2_config,
            SideReference::SideTwo,
            at.s2_tree,
            play.s2_searched,
            root_options,
            shared,
            play.s2_choice,
        );
    }

    proof fn lemma_decides<
        Q: Fn(&S) -> (Vec<MoveChoice>, Vec<MoveChoice>),
        H: Fn(&S, &Vec<MoveChoice>, &Vec<MoveChoice>, &EngineConfig) -> MctsResult,
    >(
        self,
        state: S,
        config: EngineConfig,
        role: SideReference,
        before: ReusableTree,
        after: ReusableTree,
        root_options: Q,
        shared: H,
        choice: MoveChoice,
    )
        requires
            self.picks(state, config, role, before, after, root_options, shared, choice),
        ensures
            exists|options: (Vec<MoveChoice>, Vec<MoveChoice>)| #[trigger]
                root_options.ensures((&state,), options) && self.decides_for(
                    state,
                    config,
                    options,
                    role == SideReference::SideOne,
                    shared,
                    choice,
                ),
    {
        let options = choose|options: (Vec<MoveChoice>, Vec<MoveChoice>)| #[trigger]
            root_options.ensures((&state,), options) && match forced(
                match role {
                    SideReference::SideOne => options.0@,
                    SideReference::SideTwo => options.1@,
                },
            ) {
                Some(only) => choice == only && after == before,
                None => exists|result: MctsResult|
                    choice == best_report(result, role) && #[trigger] self.splitting(
                        config.branch_all_depths,
                    ).reports(state, config, options, before, after, shared, result),
            };
        let own = match role {
            SideReference::SideOne => options.0@,
            SideReference::SideTwo => options.1@,
        };
        if own.len() >= 2 {
            let result = choose|result: MctsResult|
                choice == best_report(result, role) && #[trigger] self.splitting(
                    config.branch_all_depths,
                ).reports(state, config, options, before, after, shared, result);
            assert(self.searched_by(state, config, options, shared, result));
            if result.s1@.len() > 0 {
                lemma_best_is_most_visited(result.s1@);
            }
            if result.s2@.len() > 0 {
                lemma_best_is_most_visited(result.s2@);
            }
        }
        assert(self.decides_for(
            state,
            config,
            options,
            role == SideReference::SideOne,
            shared,
            choice,
        ));
    }
}

} // verus!
