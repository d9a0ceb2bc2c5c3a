//! Whole searches and what they report.

use crate::evaluate::config::EvalConfig;
use crate::float32::Float32;
use crate::mcts::moves::{
    find_choice, position_of, Instruction, MoveChoice, MoveNode, SideReference, StateInstructions,
};
use crate::mcts::node::Node;
use crate::mcts::run::{ends, limit_of, search_limit, SearchEnd, BATCH};
use crate::mcts::search::{Rules, SearchTerms};
use crate::mcts::tree::ReusableTree;
use crate::rounding::{
    lemma_double_is_rounded, nearest_double, nearest_single, round_quotient, DOUBLE_RANGE,
    MOST_ROUNDED, SINGLE_RANGE,
};
use vstd::prelude::*;

verus! {

/// What a search found out about one move.
#[derive(Clone, Copy, Debug, PartialEq, Eq, Structural)]
pub struct MctsSideResult {
    pub move_choice: MoveChoice,
    pub total_score: u128,
    pub visits: u64,
}

/// What a search found out.
#[derive(Clone, Debug)]
pub struct MctsResult {
    pub s1: Vec<MctsSideResult>,
    pub s2: Vec<MctsSideResult>,
    pub iteration_count: u64,
}

/// The average of so many scores: the quotient in double precision, rounded
/// to single precision.
pub open spec fn average_of(total_score: int, visits: int) -> int {
    nearest_single(nearest_double(total_score, visits), 1)
}

fn find_average(total_score: u128, visits: u64) -> (r: u128)
    requires
        total_score <= MOST_ROUNDED,
        visits > 0,
    ensures
        r == average_of(total_score as int, visits as int),
{
    proof {
        lemma_double_is_rounded(total_score as int, visits as int);
    }
    let quotient: u128 = round_quotient(total_score, visits as u128, DOUBLE_RANGE);
    round_quotient(quotient, 1, SINGLE_RANGE)
}

/// What is reported of moves that brought no more than can be averaged.
pub open spec fn countable(results: Seq<MctsSideResult>) -> bool {
    forall|i: int| 0 <= i < results.len() ==> (#[trigger] results[i]).total_score <= MOST_ROUNDED
}

impl MctsSideResult {
    /// The average score as a share of a win, zero for an untried move.
    pub fn average_score(&self) -> (r: u128)
        requires
            self.total_score <= MOST_ROUNDED,
        ensures
            r == if self.visits == 0 {
                0
            } else {
                average_of(self.total_score as int, self.visits as int)
            },
    {
        if self.visits == 0 {
            return 0;
        }
        find_average(self.total_score, self.visits)
    }
}

impl MoveNode {
    /// The average score as a share of a win.
    pub fn average_score(&self) -> (r: u128)
        requires
            self.visits > 0,
            self.total_score <= MOST_ROUNDED,
        ensures
            r == average_of(self.total_score as int, self.visits as int),
    {
        find_average(self.total_score, self.visits)
    }
}

/// What is reported of a move.
pub open spec fn report_of(option: MoveNode) -> MctsSideResult {
    MctsSideResult {
        move_choice: option.move_choice,
        total_score: option.total_score,
        visits: option.visits,
    }
}

/// What is reported of a side's moves.
pub open spec fn reports_of(options: Seq<MoveNode>) -> Seq<MctsSideResult> {
    Seq::new(options.len(), |i: int| report_of(options[i]))
}

fn report(options: &Vec<MoveNode>) -> (r: Vec<MctsSideResult>)
    ensures
        r@ == reports_of(options@),
{
    let mut r: Vec<MctsSideResult> = Vec::new();
    let mut i: usize = 0;
    while i < options.len()
        invariant
            i <= options.len(),
            r@ == reports_of(options@).take(i as int),
        decreases options.len() - i,
    {
        r.push(
            MctsSideResult {
                move_choice: options[i].move_choice,
                total_score: options[i].total_score,
                visits: options[i].visits,
            },
        );
        i = i + 1;
        assert(r@ =~= reports_of(options@).take(i as int));
    }
    assert(r@ =~= reports_of(options@));
    r
}

/// Reports the moves of a root.
pub fn collect_result(root_node: &Node, iteration_count: u64) -> (r: MctsResult)
    requires
        root_node.open(),
    ensures
        r.s1@ == reports_of(root_node.s1()),
        r.s2@ == reports_of(root_node.s2()),
        r.iteration_count == iteration_count,
{
    MctsResult {
        s1: report(root_node.s1_options.as_ref().unwrap()),
        s2: report(root_node.s2_options.as_ref().unwrap()),
        iteration_count,
    }
}

/// Which moves a search pins at its root.
pub open spec fn pinned(root: Node, side: SideReference, committed: MoveChoice) -> (
    Option<usize>,
    Option<usize>,
) {
    match side {
        SideReference::SideOne => (
            match position_of(root.s1(), committed, 0) {
                Some(i) => Some(i as usize),
                None => None,
            },
            None,
        ),
        SideReference::SideTwo => (
            None,
            match position_of(root.s2(), committed, 0) {
                Some(i) => Some(i as usize),
                None => None,
            },
        ),
    }
}

fn pin(root: &Node, side: SideReference, committed: &MoveChoice) -> (r: (
    Option<usize>,
    Option<usize>,
))
    requires
        root.open(),
    ensures
        r == pinned(*root, side, *committed),
        r.0 matches Some(f) ==> f < root.s1().len() && root.s1()[f as int].move_choice
            == *committed,
        r.1 matches Some(f) ==> f < root.s2().len() && root.s2()[f as int].move_choice
            == *committed,
{
    match side {
        SideReference::SideOne => (
            find_choice(root.s1_options.as_ref().unwrap(), committed),
            None,
        ),
        SideReference::SideTwo => (
            None,
            find_choice(root.s2_options.as_ref().unwrap(), committed),
        ),
    }
}

impl<S, O, P, G, A, R, V, W, U, D> Rules<S, O, P, G, A, R, V, W, U, D> where
    O: Fn(&S) -> i8,
    P: Fn(&S) -> (Vec<MoveChoice>, Vec<MoveChoice>),
    G: Fn(&S, &MoveChoice, &MoveChoice, bool) -> Vec<StateInstructions>,
    A: Fn(S, &Vec<Instruction>) -> S,
    R: Fn(S, &Vec<Instruction>) -> S,
    V: Fn(&S, &EvalConfig) -> Float32,
    W: Fn(Float32, Float32) -> u64,
    U: Fn(u128, u64, u64, Float32) -> Float32,
    D: Fn(Float32, Float32) -> Float32,
 {
    /// Whether a search from `start` with some moves pinned can have ended
    /// in `after`, reported `result` and stopped as `end` says. The reported
    /// count is that of this search alone.
    pub open spec fn searched(
        self,
        state: S,
        terms: SearchTerms<'_>,
        start: Node,
        after: Node,
        force: (Option<usize>, Option<usize>),
        max_time: u128,
        max_iterations: u32,
        result: MctsResult,
        end: SearchEnd,
    ) -> bool {
        &&& after.wf() && after.root && after.open()
        &&& after.times_visited == start.times_visited + result.iteration_count
        &&& self.iterated(
            state,
            terms,
            start,
            after,
            force,
            result.iteration_count as nat,
            end.tree_bytes,
        )
        &&& ends(
            limit_of(max_time, max_iterations),
            end,
            result.iteration_count as int,
            after.times_visited as int,
        )
        &&& result.s1@ == reports_of(after.s1())
        &&& result.s2@ == reports_of(after.s2())
    }

    /// Whether a search in `before` can have left `after` and reported
    /// `result`: it went on from the stored tree where that was worth going
    /// on with, and from a fresh root else. A committed move is pinned at
    /// the root that it started from.
    pub open spec fn performed(
        self,
        before: ReusableTree,
        after: ReusableTree,
        state: S,
        s1: Seq<MoveChoice>,
        s2: Seq<MoveChoice>,
        committed: Option<(SideReference, MoveChoice)>,
        config: EvalConfig,
        max_time: u128,
        max_iterations: u32,
        exploration: Float32,
        result: MctsResult,
        end: SearchEnd,
    ) -> bool {
        exists|current: Float32, drift: Float32, start: ReusableTree|
            {
                &&& self.evaluate.ensures((&state, &config), current)
                &&& self.distance.ensures((current, before.anchor()), drift)
                &&& #[trigger] ReusableTree::rooted(before, start, s1, s2, current, drift, config)
                &&& after.anchor() == start.anchor()
                &&& after.config() == start.config()
                &&& start.stored() is Some && after.stored() is Some
                &&& self.searched(
                    state,
                    SearchTerms { root_eval: start.anchor(), config: &config, exploration },
                    start.stored()->0,
                    after.stored()->0,
                    match committed {
                        None => (None, None),
                        Some((side, choice)) => pinned(start.stored()->0, side, choice),
                    },
                    max_time,
                    max_iterations,
                    result,
                    end,
                )
            }
    }

    fn perform(
        &self,
        tree: &mut ReusableTree,
        state: S,
        side_one_options: &Vec<MoveChoice>,
        side_two_options: &Vec<MoveChoice>,
        committed: Option<(SideReference, MoveChoice)>,
        eval_config: EvalConfig,
        max_time: u128,
        max_iterations: u32,
        exploration_constant: Float32,
    ) -> (r: (S, MctsResult, SearchEnd))
        requires
            self.sound(),
            old(tree).wf(),
            old(tree).stored() matches Some(node) ==> node.times_visited <= u64::MAX - BATCH,
            1 <= side_one_options@.len() <= 255,
            1 <= side_two_options@.len() <= 255,
        ensures
            final(tree).wf(),
            self.undoes() ==> r.0 == state,
            self.performed(
                *old(tree),
                *final(tree),
                state,
                side_one_options@,
                side_two_options@,
                committed,
                eval_config,
                max_time,
                max_iterations,
                exploration_constant,
                r.1,
                r.2,
            ),
    {
        let current = (self.evaluate)(&state, &eval_config);
        let unused = tree.ensure_root(
            current,
            eval_config,
            side_one_options,
            side_two_options,
            &self.distance,
        );
        self.search_stored(
            tree,
            state,
            unused,
            exploration_constant,
            committed,
            max_time,
            max_iterations,
        )
    }

    /// Searches in a tree that is stored, with a committed move of one side
    /// pinned at the root if one is given. Without an evaluator of its own
    /// the search goes by that of the tree.
    fn search_stored(
        &self,
        tree: &mut ReusableTree,
        state: S,
        eval_config: Option<EvalConfig>,
        exploration: Float32,
        committed: Option<(SideReference, MoveChoice)>,
        max_time: u128,
        max_iterations: u32,
    ) -> (r: (S, MctsResult, SearchEnd))
        requires
            self.sound(),
            old(tree).wf(),
            old(tree).stored() matches Some(node) && node.open() && node.times_visited <= u64::MAX
                - BATCH,
        ensures
            final(tree).wf(),
            final(tree).anchor() == old(tree).anchor(),
            final(tree).config() == old(tree).config(),
            final(tree).stored() is Some,
            self.undoes() ==> r.0 == state,
            self.searched(
                state,
                SearchTerms {
                    root_eval: old(tree).anchor(),
                    config: &match eval_config {
                        Some(config) => config,
                        None => old(tree).config(),
                    },
                    exploration,
                },
                old(tree).stored()->0,
                final(tree).stored()->0,
                match committed {
                    None => (None, None),
                    Some((side, choice)) => pinned(old(tree).stored()->0, side, choice),
                },
                max_time,
                max_iterations,
                r.1,
                r.2,
            ),
    {
        let mut root = tree.take_root();
        let start_visits: u64 = root.times_visited;
        let force = match committed {
            None => (None, None),
            Some((side, choice)) => pin(&root, side, &choice),
        };
        let limit = search_limit(max_time, max_iterations);
        let terms = SearchTerms {
            root_eval: tree.anchor_eval(),
            config: match &eval_config {
                Some(config) => config,
                None => tree.eval_config(),
            },
            exploration,
        };
        let (back, end) = self.run_mcts_loop(&mut root, state, terms, limit, force);
        let count: u64 = root.times_visited - start_visits;
        let result = collect_result(&root, count);
        tree.put_root(root);
        (back, result, end)
    }

    /// Searches on in `tree` if it is worth going on with, else from a fresh
    /// root. Iteration limits and the reported count are those of this call.
    /// `max_time` is in nanoseconds.
    pub fn perform_mcts_with_tree_and_eval(
        &self,
        tree: &mut ReusableTree,
        state: S,
        side_one_options: &Vec<MoveChoice>,
        side_two_options: &Vec<MoveChoice>,
        eval_config: EvalConfig,
        max_time: u128,
        max_iterations: u32,
        exploration_constant: Float32,
    ) -> (r: (S, MctsResult, SearchEnd))
        requires
            self.sound(),
            old(tree).wf(),
            old(tree).stored() matches Some(node) ==> node.times_visited <= u64::MAX - BATCH,
            1 <= side_one_options@.len() <= 255,
            1 <= side_two_options@.len() <= 255,
        ensures
            final(tree).wf(),
            self.undoes() ==> r.0 == state,
            self.performed(
                *old(tree),
                *final(tree),
                state,
                side_one_options@,
                side_two_options@,
                None,
                eval_config,
                max_time,
                max_iterations,
                exploration_constant,
                r.1,
                r.2,
            ),
    {
        self.perform(
            tree,
            state,
            side_one_options,
            side_two_options,
            None,
            eval_config,
            max_time,
            max_iterations,
            exploration_constant,
        )
    }

    /// Searches on in `tree` with the production evaluator.
    pub fn perform_mcts_with_tree(
        &self,
        tree: &mut ReusableTree,
        state: S,
        side_one_options: &Vec<MoveChoice>,
        side_two_options: &Vec<MoveChoice>,
        max_time: u128,
        max_iterations: u32,
        exploration_constant: Float32,
    ) -> (r: (S, MctsResult, SearchEnd))
        requires
            self.sound(),
            old(tree).wf(),
            old(tree).stored() matches Some(node) ==> node.times_visited <= u64::MAX - BATCH,
            1 <= side_one_options@.len() <= 255,
            1 <= side_two_options@.len() <= 255,
        ensures
            final(tree).wf(),
            self.undoes() ==> r.0 == state,
            exists|config: EvalConfig|
                config.is_default() && #[trigger] self.performed(
                    *old(tree),
                    *final(tree),
                    state,
                    side_one_options@,
                    side_two_options@,
                    None,
                    config,
                    max_time,
                    max_iterations,
                    exploration_constant,
                    r.1,
                    r.2,
                ),
    {
        self.perform_mcts_with_tree_and_eval(
            tree,
            state,
            side_one_options,
            side_two_options,
            EvalConfig::default(),
            max_time,
            max_iterations,
            exploration_constant,
        )
    }

    /// Searches with the root move of `ponder_side` pinned to
    /// `committed_move`, as during the opponent's think time. Below the root
    /// the search is free, and it is free altogether if the move is not among
    /// the root's.
    pub fn perform_mcts_ponder_with_eval(
        &self,
        tree: &mut ReusableTree,
        state: S,
        side_one_options: &Vec<MoveChoice>,
        side_two_options: &Vec<MoveChoice>,
        ponder_side: SideReference,
        committed_move: &MoveChoice,
        eval_config: EvalConfig,
        max_time: u128,
        max_iterations: u32,
        exploration_constant: Float32,
    ) -> (r: (S, MctsResult, SearchEnd))
        requires
            self.sound(),
            old(tree).wf(),
            old(tree).stored() matches Some(node) ==> node.times_visited <= u64::MAX - BATCH,
            1 <= side_one_options@.len() <= 255,
            1 <= side_two_options@.len() <= 255,
        ensures
            final(tree).wf(),
            self.undoes() ==> r.0 == state,
            self.performed(
                *old(tree),
                *final(tree),
                state,
                side_one_options@,
                side_two_options@,
                Some((ponder_side, *committed_move)),
                eval_config,
                max_time,
                max_iterations,
                exploration_constant,
                r.1,
                r.2,
            ),
    {
        self.perform(
            tree,
            state,
            side_one_options,
            side_two_options,
            Some((ponder_side, *committed_move)),
            eval_config,
            max_time,
            max_iterations,
            exploration_constant,
        )
    }

    /// Ponders with the production evaluator.
    pub fn perform_mcts_ponder(
        &self,
        tree: &mut ReusableTree,
        state: S,
        side_one_options: &Vec<MoveChoice>,
        side_two_options: &Vec<MoveChoice>,
        ponder_side: SideReference,
        committed_move: &MoveChoice,
        max_time: u128,
        max_iterations: u32,
        exploration_constant: Float32,
    ) -> (r: (S, MctsResult, SearchEnd))
        requires
            self.sound(),
            old(tree).wf(),
            old(tree).stored() matches Some(node) ==> node.times_visited <= u64::MAX - BATCH,
            1 <= side_one_options@.len() <= 255,
            1 <= side_two_options@.len() <= 255,
        ensures
            final(tree).wf(),
            self.undoes() ==> r.0 == state,
            exists|config: EvalConfig|
                config.is_default() && #[trigger] self.performed(
                    *old(tree),
                    *final(tree),
                    state,
                    side_one_options@,
                    side_two_options@,
                    Some((ponder_side, *committed_move)),
                    config,
                    max_time,
                    max_iterations,
                    exploration_constant,
                    r.1,
                    r.2,
                ),
    {
        self.perform_mcts_ponder_with_eval(
            tree,
            state,
            side_one_options,
            side_two_options,
            ponder_side,
            committed_move,
            EvalConfig::default(),
            max_time,
            max_iterations,
            exploration_constant,
        )
    }

    /// Searches from a fresh root.
    pub fn perform_mcts_with_eval(
        &self,
        state: S,
        side_one_options: &Vec<MoveChoice>,
        side_two_options: &Vec<MoveChoice>,
        eval_config: EvalConfig,
        max_time: u128,
        max_iterations: u32,
        exploration_constant: Float32,
    ) -> (r: (S, MctsResult, SearchEnd))
        requires
            self.sound(),
            1 <= side_one_options@.len() <= 255,
            1 <= side_two_options@.len() <= 255,
        ensures
            self.undoes() ==> r.0 == state,
            exists|before: ReusableTree, after: ReusableTree|
                before.stored() is None && before.anchor().bits == 0 && #[trigger] self.performed(
                    before,
                    after,
                    state,
                    side_one_options@,
                    side_two_options@,
                    None,
                    eval_config,
                    max_time,
                    max_iterations,
                    exploration_constant,
                    r.1,
                    r.2,
                ),
    {
        let mut tree = ReusableTree::new();
        self.perform_mcts_with_tree_and_eval(
            &mut tree,
            state,
            side_one_options,
            side_two_options,
            eval_config,
            max_time,
            max_iterations,
            exploration_constant,
        )
    }

    /// Searches from a fresh root with the production evaluator.
    pub fn perform_mcts(
        &self,
        state: S,
        side_one_options: &Vec<MoveChoice>,
        side_two_options: &Vec<MoveChoice>,
        max_time: u128,
        max_iterations: u32,
        exploration_constant: Float32,
    ) -> (r: (S, MctsResult, SearchEnd))
        requires
            self.sound(),
            1 <= side_one_options@.len() <= 255,
            1 <= side_two_options@.len() <= 255,
        ensures
            self.undoes() ==> r.0 == state,
            exists|config: EvalConfig, before: ReusableTree, after: ReusableTree|
                config.is_default() && before.stored() is None && before.anchor().bits == 0 && #[trigger] self.performed(
                    before,
                    after,
                    state,
                    side_one_options@,
                    side_two_options@,
                    None,
                    config,
                    max_time,
                    max_iterations,
                    exploration_constant,
                    r.1,
                    r.2,
                ),
    {
        self.perform_mcts_with_eval(
            state,
            side_one_options,
            side_two_options,
            EvalConfig::default(),
            max_time,
            max_iterations,
            exploration_constant,
        )
    }
}

} // verus!
