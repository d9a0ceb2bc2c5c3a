//! One game of self-play.

use crate::evaluate::config::EvalConfig;
use crate::float32::Float32;
use crate::mcts::moves::{
    all_untried, choices_of, options_wf, Instruction, MoveChoice, MoveNode, SideReference,
    StateInstructions, SCORE_ONE,
};
use crate::mcts::perform::{countable, pinned, reports_of, MctsResult, MctsSideResult};
use crate::mcts::run::{SearchEnd, BATCH};
use crate::mcts::search::{Rules, SearchTerms};
use crate::mcts::tree::{advanced, made_by, ReusableTree};
use crate::rounding::MOST_ROUNDED;
use crate::selfplay::score::{
    best_by_visits, best_of, can_happen, sample_outcome, EngineConfig, ReuseCounter, SCORE_HALF,
};
use rand::rngs::SmallRng;
use vstd::prelude::*;

verus! {

/// A decision that needs no search: no move, or the only one.
pub open spec fn forced(options: Seq<MoveChoice>) -> Option<MoveChoice> {
    if options.len() == 0 {
        Some(MoveChoice::NoMove)
    } else if options.len() == 1 {
        Some(options[0])
    } else {
        None
    }
}

pub fn forced_choice(options: &Vec<MoveChoice>) -> (r: Option<MoveChoice>)
    ensures
        r == forced(options@),
{
    if options.len() == 0 {
        Some(MoveChoice::NoMove)
    } else if options.len() == 1 {
        Some(options[0])
    } else {
        None
    }
}

/// The moves that are reported on.
pub open spec fn reported(results: Seq<MctsSideResult>) -> Seq<MoveChoice> {
    Seq::new(results.len(), |i: int| results[i].move_choice)
}

/// Whether `choice` is the forced decision of a side, or one of its moves.
pub open spec fn decision(options: Seq<MoveChoice>, choice: MoveChoice) -> bool {
    match forced(options) {
        Some(only) => choice == only,
        None => options.contains(choice),
    }
}

/// How a game ended.
#[derive(Clone, Copy, Debug, PartialEq, Eq, Structural)]
pub struct GameResult {
    /// A win of side one, nothing for a win of side two, half for a draw.
    pub s1_score: u64,
    pub decisions: usize,
    /// Whether the game ended without a winner.
    pub capped: bool,
    pub s1_reuse: ReuseCounter,
    pub s2_reuse: ReuseCounter,
}

/// What a game stands at before a turn: the position, the tree that each
/// side keeps, and how often it could use it.
pub struct Moment<S> {
    pub state: S,
    pub s1_tree: ReusableTree,
    pub s2_tree: ReusableTree,
    pub s1_reuse: ReuseCounter,
    pub s2_reuse: ReuseCounter,
}

/// A turn: the decision of each side and the tree that its search left, what
/// could have come of the decisions, and what did.
pub struct Play {
    pub s1_choice: MoveChoice,
    pub s2_choice: MoveChoice,
    pub s1_searched: ReusableTree,
    pub s2_searched: ReusableTree,
    pub outcomes: Vec<StateInstructions>,
    pub happened: int,
}

/// The visits on the root of a tree, none for a cold one.
pub open spec fn visits_on(tree: ReusableTree) -> u64 {
    match tree.stored() {
        Some(node) => node.times_visited,
        None => 0,
    }
}

/// Whether a search can start from `start`, given the tree before: it is the
/// same one, or cold if the visit counter has no room for another batch.
pub open spec fn ready(before: ReusableTree, start: ReusableTree) -> bool {
    if visits_on(before) > u64::MAX - BATCH {
        start.stored() is None && start.anchor() == before.anchor() && start.config()
            == before.config()
    } else {
        start == before
    }
}

/// Whether a counter counted one attempt.
pub open spec fn counted_attempt(
    before: ReuseCounter,
    after: ReuseCounter,
    hit: bool,
    warm_visits: u64,
) -> bool {
    &&& after.attempts == before.attempts + 1
    &&& after.hits == before.hits + if hit {
        1int
    } else {
        0
    }
    &&& after.warm_visits == before.warm_visits + if hit {
        warm_visits as int
    } else {
        0
    }
}

/// What becomes of a side's tree and counter after a turn: a kept tree is
/// advanced by what happened, and the attempt is counted.
pub open spec fn moved_on(
    keeps: bool,
    searched: ReusableTree,
    after: ReusableTree,
    before_reuse: ReuseCounter,
    after_reuse: ReuseCounter,
    s1_choice: MoveChoice,
    s2_choice: MoveChoice,
    outcome: Seq<Instruction>,
) -> bool {
    if keeps {
        exists|hit: bool|
            advanced(
                searched.stored(),
                after.stored(),
                s1_choice,
                s2_choice,
                |nodes| made_by(nodes, outcome),
                hit,
            ) && after.anchor() == searched.anchor() && after.config() == searched.config()
                && #[trigger] counted_attempt(before_reuse, after_reuse, hit, visits_on(after))
    } else {
        after == searched && after_reuse == before_reuse
    }
}

/// Moves that brought no more than a win a try can be averaged.
proof fn lemma_countable(options: Seq<MoveNode>, cap: int)
    requires
        options_wf(options, cap),
    ensures
        countable(reports_of(options)),
{
    assert forall|i: int| 0 <= i < options.len() implies (
    #[trigger] reports_of(options)[i]).total_score <= MOST_ROUNDED by {
        let v = options[i].visits as int;
        assert(options[i].total_score <= SCORE_ONE * v);
        assert(SCORE_ONE * v <= 0x8000_0000_0000_0000 * 0x1_0000_0000_0000_0000)
            by (nonlinear_arith)
            requires
                0 <= v <= 0xffff_ffff_ffff_ffff,
                SCORE_ONE == 0x8000_0000_0000_0000,
        ;
    }
}

/// The move that a search of a side plays.
pub open spec fn best_report(result: MctsResult, role: SideReference) -> MoveChoice {
    match role {
        SideReference::SideOne => result.s1@[best_of(
            result.s1@,
            result.s1@.len() as int,
        )].move_choice,
        SideReference::SideTwo => result.s2@[best_of(
            result.s2@,
            result.s2@.len() as int,
        )].move_choice,
    }
}

/// Nanoseconds in a millisecond.
pub const NANOS_PER_MS: u128 = 1_000_000;

impl<S, O, P, G, A, R, V, W, U, D> Rules<S, O, P, G, A, R, V, W, U, D> where
    O: Fn(&S) -> i8,
    P: Fn(&S) -> (Vec<MoveChoice>, Vec<MoveChoice>),
    G: Fn(&S, &MoveChoice, &MoveChoice, bool) -> Vec<StateInstructions>,
    A: Fn(S, &Vec<Instruction>) -> S,
    R: Fn(S, &Vec<Instruction>) -> S,
    V: Fn(&S, &EvalConfig) -> Float32,
    W: Fn(Float32, Float32) -> u64,
    U: Fn(u128, u64, u64, Float32) -> Float32,
    D: Fn(Float32, Float32) -> Float32,
 {
    /// A search reports on the moves that it was given, in their order.
    pub proof fn lemma_reports_cover_options(
        self,
        before: ReusableTree,
        after: ReusableTree,
        state: S,
        s1: Seq<MoveChoice>,
        s2: Seq<MoveChoice>,
        committed: Option<(SideReference, MoveChoice)>,
        config: EvalConfig,
        max_time: u128,
        max_iterations: u32,
        exploration: Float32,
        result: MctsResult,
        end: SearchEnd,
    )
        requires
            self.performed(
                before,
                after,
                state,
                s1,
                s2,
                committed,
                config,
                max_time,
                max_iterations,
                exploration,
                result,
                end,
            ),
            before.wf(),
        ensures
            reported(result.s1@) == s1,
            reported(result.s2@) == s2,
            countable(result.s1@),
            countable(result.s2@),
    {
        let (current, drift, start) = choose|
            current: Float32,
            drift: Float32,
            start: ReusableTree,
        |
            {
                &&& self.evaluate.ensures((&state, &config), current)
                &&& self.distance.ensures((current, before.anchor()), drift)
                &&& #[trigger] ReusableTree::rooted(before, start, s1, s2, current, drift, config)
                &&& after.anchor() == start.anchor()
                &&& after.config() == start.config()
                &&& start.stored() is Some && after.stored() is Some
                &&& self.searched(
                    state,
                    SearchTerms { root_eval: start.anchor(), config: &config, exploration },
                    start.stored()->0,
                    after.stored()->0,
                    match committed {
                        None => (None, None),
                        Some((side, choice)) => pinned(start.stored()->0, side, choice),
                    },
                    max_time,
                    max_iterations,
                    result,
                    end,
                )
            };
        let root = start.stored()->0;
        let last = after.stored()->0;
        let force = match committed {
            None => (None, None),
            Some((side, choice)) => pinned(root, side, choice),
        };
        lemma_countable(last.s1(), last.times_visited as int);
        lemma_countable(last.s2(), last.times_visited as int);
        assert(choices_of(all_untried(s1)) =~= s1);
        assert(choices_of(all_untried(s2)) =~= s2);
        self.lemma_iterations_are_counted(
            state,
            SearchTerms { root_eval: start.anchor(), config: &config, exploration },
            root,
            last,
            force,
            result.iteration_count as nat,
            end.tree_bytes,
        );
        assert(reported(result.s1@) =~= choices_of(last.s1()));
        assert(reported(result.s2@) =~= choices_of(last.s2()));
    }

    /// Whether the other questions that a game asks can always be asked: the
    /// moves at the root are at most 255 a side, and if one side has a
    /// choice the other has a move; a shared search reports on the moves
    /// that it was given, with scores that can be averaged.
    pub open spec fn playable<
        Q: Fn(&S) -> (Vec<MoveChoice>, Vec<MoveChoice>),
        H: Fn(&S, &Vec<MoveChoice>, &Vec<MoveChoice>, &EngineConfig) -> MctsResult,
    >(self, root_options: Q, shared: H) -> bool {
        &&& self.sound()
        &&& forall|s: &S| #[trigger] root_options.requires((s,))
        &&& forall|s: &S, r: (Vec<MoveChoice>, Vec<MoveChoice>)| #[trigger]
            root_options.ensures((s,), r) ==> r.0@.len() <= 255 && r.1@.len() <= 255 && (
            r.0@.len() >= 2 ==> r.1@.len() >= 1) && (r.1@.len() >= 2 ==> r.0@.len() >= 1)
        &&& forall|s: &S, a: &Vec<MoveChoice>, b: &Vec<MoveChoice>, c: &EngineConfig| #[trigger]
            shared.requires((s, a, b, c))
        &&& forall|
            s: &S,
            a: &Vec<MoveChoice>,
            b: &Vec<MoveChoice>,
            c: &EngineConfig,
            r: MctsResult,
        | #[trigger]
            shared.ensures((s, a, b, c), r) ==> reported(r.s1@) == a@ && reported(r.s2@) == b@
                && countable(r.s1@) && countable(r.s2@)
    }

    /// The same rules, with damage rolls split everywhere or not.
    pub open spec fn splitting(self, branch_all_depths: bool) -> Self {
        Rules { branch_all_depths, ..self }
    }

    /// Whether a search as configured can have reported `result` and left
    /// the tree `after`: on several threads, in the kept tree, or from
    /// scratch.
    pub open spec fn reports<
        H: Fn(&S, &Vec<MoveChoice>, &Vec<MoveChoice>, &EngineConfig) -> MctsResult,
    >(
        self,
        state: S,
        config: EngineConfig,
        options: (Vec<MoveChoice>, Vec<MoveChoice>),
        before: ReusableTree,
        after: ReusableTree,
        shared: H,
        result: MctsResult,
    ) -> bool {
        let max_time = (config.time_ms * NANOS_PER_MS) as u128;
        if config.threads > 1 {
            after == before && shared.ensures((&state, &options.0, &options.1, &config), result)
        } else if config.tree_reuse {
            exists|c: EvalConfig, start: ReusableTree, end: SearchEnd|
                c.is_default() && ready(before, start) && #[trigger] self.performed(
                    start,
                    after,
                    state,
                    options.0@,
                    options.1@,
                    None,
                    c,
                    max_time,
                    config.iterations,
                    config.exploration_constant,
                    result,
                    end,
                )
        } else {
            after == before && exists|
                c: EvalConfig,
                start: ReusableTree,
                left: ReusableTree,
                end: SearchEnd,
            |
                c.is_default() && start.stored() is None && start.anchor().bits == 0
                    && #[trigger] self.performed(
                    start,
                    left,
                    state,
                    options.0@,
                    options.1@,
                    None,
                    c,
                    max_time,
                    config.iterations,
                    config.exploration_constant,
                    result,
                    end,
                )
        }
    }

    /// Whether a side with this configuration can have decided for `choice`
    /// and left the tree `after`: what is forced, or the best move of a
    /// search.
    pub open spec fn picks<
        Q: Fn(&S) -> (Vec<MoveChoice>, Vec<MoveChoice>),
        H: Fn(&S, &Vec<MoveChoice>, &Vec<MoveChoice>, &EngineConfig) -> MctsResult,
    >(
        self,
        state: S,
        config: EngineConfig,
        role: SideReference,
        before: ReusableTree,
        after: ReusableTree,
        root_options: Q,
        shared: H,
        choice: MoveChoice,
    ) -> bool {
        exists|options: (Vec<MoveChoice>, Vec<MoveChoice>)| #[trigger]
            root_options.ensures((&state,), options) && match forced(
                match role {
                    SideReference::SideOne => options.0@,
                    SideReference::SideTwo => options.1@,
                },
            ) {
                Some(only) => choice == only && after == before,
                None => exists|result: MctsResult|
                    choice == best_report(result, role) && #[trigger] self.splitting(
                        config.branch_all_depths,
                    ).reports(state, config, options, before, after, shared, result),
            }
    }

    /// Decides for a side: what is forced, or the best move of a search, on
    /// several threads, in a kept tree or from scratch as configured.
    pub fn pick_move<
        Q: Fn(&S) -> (Vec<MoveChoice>, Vec<MoveChoice>),
        H: Fn(&S, &Vec<MoveChoice>, &Vec<MoveChoice>, &EngineConfig) -> MctsResult,
    >(
        &mut self,
        state: S,
        config: &EngineConfig,
        role: SideReference,
        tree: &mut ReusableTree,
        root_options: &Q,
        shared: &H,
    ) -> (r: (S, MoveChoice))
        requires
            old(self).playable(*root_options, *shared),
            old(tree).wf(),
        ensures
            *final(self) == old(self).splitting(final(self).branch_all_depths),
            final(tree).wf(),
            old(self).undoes() ==> r.0 == state,
            old(self).picks(
                state,
                *config,
                role,
                *old(tree),
                *final(tree),
                *root_options,
                *shared,
                r.1,
            ),
            exists|options: (Vec<MoveChoice>, Vec<MoveChoice>)| #[trigger]
                root_options.ensures((&state,), options) && decision(
                    match role {
                        SideReference::SideOne => options.0@,
                        SideReference::SideTwo => options.1@,
                    },
                    r.1,
                ),
    {
        let options = root_options(&state);
        let own = match role {
            SideReference::SideOne => forced_choice(&options.0),
            SideReference::SideTwo => forced_choice(&options.1),
        };
        if let Some(choice) = own {
            return (state, choice);
        }
        self.branch_all_depths = config.branch_all_depths;
        assert(*self == old(self).splitting(config.branch_all_depths));
        let (back, result) = self.search_for_move(state, config, &options, tree, shared);
        let choice = match role {
            SideReference::SideOne => {
                assert(reported(result.s1@).len() == options.0@.len());
                let choice = best_by_visits(&result.s1);
                assert(reported(result.s1@)[best_of(result.s1@, result.s1@.len() as int)]
                    == choice);
                choice
            },
            SideReference::SideTwo => {
                assert(reported(result.s2@).len() == options.1@.len());
                let choice = best_by_visits(&result.s2);
                assert(reported(result.s2@)[best_of(result.s2@, result.s2@.len() as int)]
                    == choice);
                choice
            },
        };
        assert(choice == best_report(result, role));
        (back, choice)
    }

    /// Searches as configured.
    fn search_for_move<
        H: Fn(&S, &Vec<MoveChoice>, &Vec<MoveChoice>, &EngineConfig) -> MctsResult,
    >(
        &self,
        state: S,
        config: &EngineConfig,
        options: &(Vec<MoveChoice>, Vec<MoveChoice>),
        tree: &mut ReusableTree,
        shared: &H,
    ) -> (r: (S, MctsResult))
        requires
            self.sound(),
            old(tree).wf(),
            1 <= options.0@.len() <= 255,
            1 <= options.1@.len() <= 255,
            shared.requires((&state, &options.0, &options.1, config)),
            forall|m: MctsResult| #[trigger]
                shared.ensures((&state, &options.0, &options.1, config), m) ==> reported(m.s1@)
                    == options.0@ && reported(m.s2@) == options.1@ && countable(m.s1@)
                    && countable(m.s2@),
        ensures
            final(tree).wf(),
            self.undoes() ==> r.0 == state,
            self.reports(state, *config, *options, *old(tree), *final(tree), *shared, r.1),
            reported(r.1.s1@) == options.0@,
            reported(r.1.s2@) == options.1@,
            countable(r.1.s1@),
            countable(r.1.s2@),
    {
        let max_time: u128 = config.time_ms as u128 * NANOS_PER_MS;
        if config.threads > 1 {
            let result = shared(&state, &options.0, &options.1, config);
            (state, result)
        } else if config.tree_reuse {
            if tree.root_visits() > u64::MAX - BATCH {
                tree.reset();
            }
            let ghost start = *tree;
            let (back, result, end) = self.perform_mcts_with_tree(
                tree,
                state,
                &options.0,
                &options.1,
                max_time,
                config.iterations,
                config.exploration_constant,
            );
            proof {
                let c = choose|c: EvalConfig|
                    c.is_default() && #[trigger] self.performed(
                        start,
                        *tree,
                        state,
                        options.0@,
                        options.1@,
                        None,
                        c,
                        max_time,
                        config.iterations,
                        config.exploration_constant,
                        result,
                        end,
                    );
                self.lemma_reports_cover_options(
                    start,
                    *tree,
                    state,
                    options.0@,
                    options.1@,
                    None,
                    c,
                    max_time,
                    config.iterations,
                    config.exploration_constant,
                    result,
                    end,
                );
            }
            (back, result)
        } else {
            let (back, result, end) = self.perform_mcts(
                state,
                &options.0,
                &options.1,
                max_time,
                config.iterations,
                config.exploration_constant,
            );
            proof {
                let (c, start, left) = choose|
                    c: EvalConfig,
                    start: ReusableTree,
                    left: ReusableTree,
                |
                    c.is_default() && start.stored() is None && start.anchor().bits == 0
                        && #[trigger] self.performed(
                        start,
                        left,
                        state,
                        options.0@,
                        options.1@,
                        None,
                        c,
                        max_time,
                        config.iterations,
                        config.exploration_constant,
                        result,
                        end,
                    );
                self.lemma_reports_cover_options(
                    start,
                    left,
                    state,
                    options.0@,
                    options.1@,
                    None,
                    c,
                    max_time,
                    config.iterations,
                    config.exploration_constant,
                    result,
                    end,
                );
            }
            (back, result)
        }
    }

    /// Whether both sides can have decided as in `play`, and these were the
    /// outcomes that could come of it. The battle was not over.
    pub open spec fn decided<
        Q: Fn(&S) -> (Vec<MoveChoice>, Vec<MoveChoice>),
        H: Fn(&S, &Vec<MoveChoice>, &Vec<MoveChoice>, &EngineConfig) -> MctsResult,
        T: Fn(&S, &MoveChoice, &MoveChoice) -> Vec<StateInstructions>,
    >(
        self,
        s1_config: EngineConfig,
        s2_config: EngineConfig,
        root_options: Q,
        shared: H,
        turn_outcomes: T,
        at: Moment<S>,
        play: Play,
    ) -> bool {
        &&& self.over.ensures((&at.state,), 0i8)
        &&& self.picks(
            at.state,
            s1_config,
            SideReference::SideOne,
            at.s1_tree,
            play.s1_searched,
            root_options,
            shared,
            play.s1_choice,
        )
        &&& self.picks(
            at.state,
            s2_config,
            SideReference::SideTwo,
            at.s2_tree,
            play.s2_searched,
            root_options,
            shared,
            play.s2_choice,
        )
        &&& turn_outcomes.ensures((&at.state, &play.s1_choice, &play.s2_choice), play.outcomes)
    }

    /// Whether `play` can have led from one moment of a game to the next.
    pub open spec fn turned<
        Q: Fn(&S) -> (Vec<MoveChoice>, Vec<MoveChoice>),
        H: Fn(&S, &Vec<MoveChoice>, &Vec<MoveChoice>, &EngineConfig) -> MctsResult,
        T: Fn(&S, &MoveChoice, &MoveChoice) -> Vec<StateInstructions>,
    >(
        self,
        s1_config: EngineConfig,
        s2_config: EngineConfig,
        root_options: Q,
        shared: H,
        turn_outcomes: T,
        at: Moment<S>,
        next: Moment<S>,
        play: Play,
    ) -> bool {
        let happened = play.outcomes@[play.happened].instruction_list;
        &&& self.decided(
            s1_config,
            s2_config,
            root_options,
            shared,
            turn_outcomes,
            at,
            play,
        )
        &&& can_happen(play.outcomes@, play.happened)
        &&& self.apply.ensures((at.state, &happened), next.state)
        &&& moved_on(
            s1_config.tree_reuse,
            play.s1_searched,
            next.s1_tree,
            at.s1_reuse,
            next.s1_reuse,
            play.s1_choice,
            play.s2_choice,
            happened@,
        )
        &&& moved_on(
            s2_config.tree_reuse,
            play.s2_searched,
            next.s2_tree,
            at.s2_reuse,
            next.s2_reuse,
            play.s1_choice,
            play.s2_choice,
            happened@,
        )
    }

    /// Whether `n` turns can have led from `start` to `end`.
    pub open spec fn turns<
        Q: Fn(&S) -> (Vec<MoveChoice>, Vec<MoveChoice>),
        H: Fn(&S, &Vec<MoveChoice>, &Vec<MoveChoice>, &EngineConfig) -> MctsResult,
        T: Fn(&S, &MoveChoice, &MoveChoice) -> Vec<StateInstructions>,
    >(
        self,
        s1_config: EngineConfig,
        s2_config: EngineConfig,
        root_options: Q,
        shared: H,
        turn_outcomes: T,
        start: Moment<S>,
        end: Moment<S>,
        n: nat,
    ) -> bool
        decreases n,
    {
        if n == 0 {
            end == start
        } else {
            exists|mid: Moment<S>, play: Play|
                self.turns(
                    s1_config,
                    s2_config,
                    root_options,
                    shared,
                    turn_outcomes,
                    start,
                    mid,
                    (n - 1) as nat,
                ) && #[trigger] self.turned(
                    s1_config,
                    s2_config,
                    root_options,
                    shared,
                    turn_outcomes,
                    mid,
                    end,
                    play,
                )
        }
    }

    /// Whether a game can end in `end` with this score: side one's if the
    /// battle is over, half a win if the turns are up or nothing can come of
    /// the decisions.
    pub open spec fn ended<
        Q: Fn(&S) -> (Vec<MoveChoice>, Vec<MoveChoice>),
        H: Fn(&S, &Vec<MoveChoice>, &Vec<MoveChoice>, &EngineConfig) -> MctsResult,
        T: Fn(&S, &MoveChoice, &MoveChoice) -> Vec<StateInstructions>,
    >(
        self,
        s1_config: EngineConfig,
        s2_config: EngineConfig,
        root_options: Q,
        shared: H,
        turn_outcomes: T,
        end: Moment<S>,
        max_turns: usize,
        result: GameResult,
    ) -> bool {
        if result.decisions == max_turns {
            result.capped && result.s1_score == SCORE_HALF
        } else if result.capped {
            result.s1_score == SCORE_HALF && exists|play: Play|
                play.outcomes@.len() == 0 && #[trigger] self.decided(
                    s1_config,
                    s2_config,
                    root_options,
                    shared,
                    turn_outcomes,
                    end,
                    play,
                )
        } else {
            exists|over: i8|
                over != 0 && #[trigger] self.over.ensures((&end.state,), over) && result.s1_score
                    == if over > 0 {
                    SCORE_ONE
                } else {
                    0
                }
        }
    }

    /// Whether a game can have gone from `start` to `end` and been scored so.
    pub open spec fn game_told<
        Q: Fn(&S) -> (Vec<MoveChoice>, Vec<MoveChoice>),
        H: Fn(&S, &Vec<MoveChoice>, &Vec<MoveChoice>, &EngineConfig) -> MctsResult,
        T: Fn(&S, &MoveChoice, &MoveChoice) -> Vec<StateInstructions>,
    >(
        self,
        s1_config: EngineConfig,
        s2_config: EngineConfig,
        root_options: Q,
        shared: H,
        turn_outcomes: T,
        start: Moment<S>,
        end: Moment<S>,
        max_turns: usize,
        result: GameResult,
    ) -> bool {
        &&& self.turns(
            s1_config,
            s2_config,
            root_options,
            shared,
            turn_outcomes,
            start,
            end,
            result.decisions as nat,
        )
        &&& self.ended(
            s1_config,
            s2_config,
            root_options,
            shared,
            turn_outcomes,
            end,
            max_turns,
            result,
        )
        &&& result.s1_reuse == end.s1_reuse
        &&& result.s2_reuse == end.s2_reuse
    }

    /// Plays a game between two configurations. What happens is sampled. Each
    /// side that keeps its tree advances it by what happened. `tell` is told
    /// of every decision.
    pub fn play_game<
        Q: Fn(&S) -> (Vec<MoveChoice>, Vec<MoveChoice>),
        H: Fn(&S, &Vec<MoveChoice>, &Vec<MoveChoice>, &EngineConfig) -> MctsResult,
        T: Fn(&S, &MoveChoice, &MoveChoice) -> Vec<StateInstructions>,
        X: Fn(usize, &S, &MoveChoice, &MoveChoice),
    >(
        &mut self,
        initial_state: S,
        s1_config: &EngineConfig,
        s2_config: &EngineConfig,
        max_turns: usize,
        rng: &mut SmallRng,
        root_options: &Q,
        shared: &H,
        turn_outcomes: &T,
        tell: &X,
    ) -> (r: GameResult)
        requires
            old(self).playable(*root_options, *shared),
            forall|s: &S, a: &MoveChoice, b: &MoveChoice| #[trigger]
                turn_outcomes.requires((s, a, b)),
            forall|n: usize, s: &S, a: &MoveChoice, b: &MoveChoice| #[trigger]
                tell.requires((n, s, a, b)),
        ensures
            *final(self) == old(self).splitting(final(self).branch_all_depths),
            r.decisions <= max_turns,
            r.s1_score == 0 || r.s1_score == SCORE_HALF || r.s1_score == SCORE_ONE,
            r.capped == (r.s1_score == SCORE_HALF),
            !r.capped ==> r.decisions < max_turns,
            max_turns > 0 && (forall|over: i8| #[trigger]
                old(self).over.ensures((&initial_state,), over) ==> over != 0) ==> r.decisions == 0
                && !r.capped && exists|over: i8| #[trigger]
                old(self).over.ensures((&initial_state,), over) && r.s1_score == if over > 0 {
                    SCORE_ONE
                } else {
                    0
                },
            r.s1_reuse.wf(),
            r.s2_reuse.wf(),
            r.s1_reuse.attempts == if s1_config.tree_reuse {
                r.decisions
            } else {
                0
            },
            r.s2_reuse.attempts == if s2_config.tree_reuse {
                r.decisions
            } else {
                0
            },
            old(self).undoes() ==> exists|start: Moment<S>, end: Moment<S>|
                fresh_game(initial_state, start) && #[trigger] old(self).game_told(
                    *s1_config,
                    *s2_config,
                    *root_options,
                    *shared,
                    *turn_outcomes,
                    start,
                    end,
                    max_turns,
                    r,
                ),
    {
        let mut state = initial_state;
        let mut decisions: usize = 0;
        let mut s1_tree = ReusableTree::new();
        let mut s2_tree = ReusableTree::new();
        let mut s1_reuse = ReuseCounter::new();
        let mut s2_reuse = ReuseCounter::new();
        let ghost rules = *self;
        let ghost start = Moment { state, s1_tree, s2_tree, s1_reuse, s2_reuse };
        while decisions < max_turns
            invariant
                decisions <= max_turns,
                rules == *old(self),
                *self == rules.splitting(self.branch_all_depths),
                rules.playable(*root_options, *shared),
                forall|s: &S, a: &MoveChoice, b: &MoveChoice| #[trigger]
                    turn_outcomes.requires((s, a, b)),
                forall|n: usize, s: &S, a: &MoveChoice, b: &MoveChoice| #[trigger]
                    tell.requires((n, s, a, b)),
                s1_tree.wf(),
                s2_tree.wf(),
                s1_reuse.wf(),
                s2_reuse.wf(),
                s1_reuse.attempts == if s1_config.tree_reuse {
                    decisions
                } else {
                    0
                },
                s2_reuse.attempts == if s2_config.tree_reuse {
                    decisions
                } else {
                    0
                },
                fresh_game(initial_state, start),
                decisions == 0 ==> state == initial_state,
                decisions > 0 ==> rules.over.ensures((&initial_state,), 0i8),
                rules.undoes() ==> rules.turns(
                    *s1_config,
                    *s2_config,
                    *root_options,
                    *shared,
                    *turn_outcomes,
                    start,
                    Moment { state, s1_tree, s2_tree, s1_reuse, s2_reuse },
                    decisions as nat,
                ),
            decreases max_turns - decisions,
        {
            let ghost at = Moment { state, s1_tree, s2_tree, s1_reuse, s2_reuse };
            let over: i8 = (self.over)(&state);
            if over != 0 {
                let result = GameResult {
                    s1_score: if over > 0 {
                        SCORE_ONE
                    } else {
                        0
                    },
                    decisions,
                    capped: false,
                    s1_reuse,
                    s2_reuse,
                };
                assert(rules.over.ensures((&at.state,), over));
                assert(rules.undoes() ==> rules.game_told(
                    *s1_config,
                    *s2_config,
                    *root_options,
                    *shared,
                    *turn_outcomes,
                    start,
                    at,
                    max_turns,
                    result,
                ));
                return result;
            }
            assert(rules.over.ensures((&at.state,), 0i8));
            let ghost searching = *self;
            let (after_one, s1_choice) = self.pick_move(
                state,
                s1_config,
                SideReference::SideOne,
                &mut s1_tree,
                root_options,
                shared,
            );
            let ghost turning = *self;
            let (after_two, s2_choice) = self.pick_move(
                after_one,
                s2_config,
                SideReference::SideTwo,
                &mut s2_tree,
                root_options,
                shared,
            );
            tell(decisions, &after_two, &s1_choice, &s2_choice);
            let instructions = turn_outcomes(&after_two, &s1_choice, &s2_choice);
            let ghost play = Play {
                s1_choice,
                s2_choice,
                s1_searched: s1_tree,
                s2_searched: s2_tree,
                outcomes: instructions,
                happened: 0,
            };
            proof {
                if rules.undoes() {
                    assert(searching.undoes() && turning.undoes());
                    assert(after_one == at.state && after_two == at.state);
                    assert(searching.splitting(s1_config.branch_all_depths) == rules.splitting(
                        s1_config.branch_all_depths,
                    ));
                    assert(turning.splitting(s2_config.branch_all_depths) == rules.splitting(
                        s2_config.branch_all_depths,
                    ));
                    assert(rules.decided(
                        *s1_config,
                        *s2_config,
                        *root_options,
                        *shared,
                        *turn_outcomes,
                        at,
                        play,
                    ));
                }
            }
            if instructions.len() == 0 {
                let result = GameResult {
                    s1_score: SCORE_HALF,
                    decisions,
                    capped: true,
                    s1_reuse,
                    s2_reuse,
                };
                assert(rules.undoes() ==> rules.game_told(
                    *s1_config,
                    *s2_config,
                    *root_options,
                    *shared,
                    *turn_outcomes,
                    start,
                    at,
                    max_turns,
                    result,
                ));
                return result;
            }
            let happened: usize = sample_outcome(&instructions, rng);
            let outcome = &instructions[happened];
            if s1_config.tree_reuse {
                let hit = s1_tree.advance(
                    &s1_choice,
                    &s2_choice,
                    outcome.instruction_list.as_slice(),
                );
                s1_reuse.track(hit, s1_tree.root_visits());
                assert(counted_attempt(at.s1_reuse, s1_reuse, hit, visits_on(s1_tree)));
            }
            if s2_config.tree_reuse {
                let hit = s2_tree.advance(
                    &s1_choice,
                    &s2_choice,
                    outcome.instruction_list.as_slice(),
                );
                s2_reuse.track(hit, s2_tree.root_visits());
                assert(counted_attempt(at.s2_reuse, s2_reuse, hit, visits_on(s2_tree)));
            }
            state = (self.apply)(after_two, &outcome.instruction_list);
            decisions = decisions + 1;
            proof {
                if rules.undoes() {
                    let next = Moment { state, s1_tree, s2_tree, s1_reuse, s2_reuse };
                    let turn = Play { happened: happened as int, ..play };
                    assert(rules.decided(
                        *s1_config,
                        *s2_config,
                        *root_options,
                        *shared,
                        *turn_outcomes,
                        at,
                        turn,
                    ));
                    assert(rules.turned(
                        *s1_config,
                        *s2_config,
                        *root_options,
                        *shared,
                        *turn_outcomes,
                        at,
                        next,
                        turn,
                    ));
                }
            }
        }
        let result = GameResult {
            s1_score: SCORE_HALF,
            decisions,
            capped: true,
            s1_reuse,
            s2_reuse,
        };
        assert(rules.undoes() ==> rules.game_told(
            *s1_config,
            *s2_config,
            *root_options,
            *shared,
            *turn_outcomes,
            start,
            Moment { state, s1_tree, s2_tree, s1_reuse, s2_reuse },
            max_turns,
            result,
        ));
        result
    }
}

/// Whether a game starts here: in this position, with cold trees and nothing
/// counted.
pub open spec fn fresh_game<S>(state: S, start: Moment<S>) -> bool {
    &&& start.state == state
    &&& start.s1_tree.stored() is None && start.s2_tree.stored() is None
    &&& start.s1_tree.anchor().bits == 0 && start.s2_tree.anchor().bits == 0
    &&& start.s1_reuse.attempts == 0 && start.s1_reuse.hits == 0 && start.s1_reuse.warm_visits == 0
    &&& start.s2_reuse.attempts == 0 && start.s2_reuse.hits == 0 && start.s2_reuse.warm_visits == 0
}

} // verus!
