//! What holds of searches, whatever chance brings.

use crate::evaluate::config::EvalConfig;
use crate::float32::{lemma_order_of_magnitudes, Float32};
use crate::mcts::iterate::{pair_tried, s1_before, s2_before, same_branch, same_place};
use crate::mcts::moves::{
    all_untried, balanced, choices_of, lemma_credit_keeps_balance, lemma_credit_sums, lemma_rest,
    lemma_room,
    options_wf, position_of, rest_of, visits_sum, Instruction, MoveChoice, MoveNode, SideReference,
    StateInstructions,
};
use crate::mcts::node::{
    best_option, best_ranked, rank_of, Node, RankFn, LEAST_RANK, UNTRIED_RANK,
};
use crate::mcts::perform::{pinned, report_of, reports_of, MctsResult};
use crate::mcts::run::{
    lemma_iteration_limit_is_met, limit_of, whole_batches, SearchEnd, StopReason, BATCH,
};
use crate::mcts::search::{Rules, SearchTerms};
use crate::mcts::size::MCTS_MAX_TREE_BYTES;
use crate::mcts::tree::ReusableTree;
use crate::trajectory::relabel::visits_of;
use vstd::prelude::*;

verus! {

impl<S, O, P, G, A, R, V, W, U, D> Rules<S, O, P, G, A, R, V, W, U, D> where
    O: Fn(&S) -> i8,
    P: Fn(&S) -> (Vec<MoveChoice>, Vec<MoveChoice>),
    G: Fn(&S, &MoveChoice, &MoveChoice, bool) -> Vec<StateInstructions>,
    A: Fn(S, &Vec<Instruction>) -> S,
    R: Fn(S, &Vec<Instruction>) -> S,
    V: Fn(&S, &EvalConfig) -> Float32,
    W: Fn(Float32, Float32) -> u64,
    U: Fn(u128, u64, u64, Float32) -> Float32,
    D: Fn(Float32, Float32) -> Float32,
 {
    /// Every iteration counts once at the root, and the root goes on
    /// offering the same moves.
    pub proof fn lemma_iterations_are_counted(
        self,
        state: S,
        terms: SearchTerms<'_>,
        before: Node,
        after: Node,
        force: (Option<usize>, Option<usize>),
        n: nat,
        bytes: u64,
    )
        requires
            self.iterated(state, terms, before, after, force, n, bytes),
            before.root,
            before.open(),
        ensures
            after.root,
            after.open(),
            after.times_visited == before.times_visited + n,
            choices_of(after.s1()) == choices_of(before.s1()),
            choices_of(after.s2()) == choices_of(before.s2()),
        decreases n,
    {
        if n > 0 {
            let (mid, score, mid_bytes) = choose|mid: Node, score: u64, mid_bytes: u64|
                self.iterated(state, terms, before, mid, force, (n - 1) as nat, mid_bytes)
                    && #[trigger] self.iterated_once(
                    state,
                    terms,
                    mid,
                    after,
                    force,
                    score,
                    mid_bytes,
                    bytes,
                );
            self.lemma_iterations_are_counted(
                state,
                terms,
                before,
                mid,
                force,
                (n - 1) as nat,
                mid_bytes,
            );
            let (i, j) = choose|i: int, j: int|
                self.chosen(
                    s1_before(mid, after),
                    mid.times_visited,
                    terms.exploration,
                    force.0,
                    i,
                ) && self.chosen(
                    s2_before(mid, after),
                    mid.times_visited,
                    terms.exploration,
                    force.1,
                    j,
                ) && #[trigger] pair_tried(mid, after, i, j, score as int);
            assert(choices_of(after.s1()) =~= choices_of(mid.s1()));
            assert(choices_of(after.s2()) =~= choices_of(mid.s2()));
        }
    }

    /// Every branch that was expanded stays, with the same outcomes, and no
    /// outcome loses visits.
    pub proof fn lemma_expanded_branches_stay(
        self,
        state: S,
        terms: SearchTerms<'_>,
        before: Node,
        after: Node,
        force: (Option<usize>, Option<usize>),
        n: nat,
        bytes: u64,
    )
        requires
            self.iterated(state, terms, before, after, force, n, bytes),
        ensures
            before.children@.len() <= after.children@.len(),
            forall|b: int|
                0 <= b < before.children@.len() ==> same_branch(
                    before.children@[b],
                    #[trigger] after.children@[b],
                ),
        decreases n,
    {
        if n > 0 {
            let (mid, score, mid_bytes) = choose|mid: Node, score: u64, mid_bytes: u64|
                self.iterated(state, terms, before, mid, force, (n - 1) as nat, mid_bytes)
                    && #[trigger] self.iterated_once(
                    state,
                    terms,
                    mid,
                    after,
                    force,
                    score,
                    mid_bytes,
                    bytes,
                );
            self.lemma_expanded_branches_stay(
                state,
                terms,
                before,
                mid,
                force,
                (n - 1) as nat,
                mid_bytes,
            );
            assert forall|b: int| 0 <= b < before.children@.len() implies same_branch(
                before.children@[b],
                #[trigger] after.children@[b],
            ) by {
                let x = before.children@[b];
                let y = mid.children@[b];
                let z = after.children@[b];
                assert(same_branch(x, y));
                assert(same_branch(y, z));
                assert forall|j: int| 0 <= j < x.nodes@.len() implies same_place(
                    x.nodes@[j],
                    #[trigger] z.nodes@[j],
                ) && z.nodes@[j].times_visited >= x.nodes@[j].times_visited by {
                    assert(same_place(x.nodes@[j], y.nodes@[j]));
                }
            }
        }
    }

    /// Pondering pins the committed move: while side one's move `f` is
    /// pinned, no other move of side one gains a visit, and if that move is
    /// one at all every iteration visits it.
    pub proof fn lemma_ponder_pins_side_one(
        self,
        state: S,
        terms: SearchTerms<'_>,
        before: Node,
        after: Node,
        f: usize,
        n: nat,
        bytes: u64,
    )
        requires
            self.iterated(state, terms, before, after, (Some(f), None), n, bytes),
            before.root,
            before.wf(),
            before.open(),
            f < before.s1().len(),
            before.times_visited + n <= u64::MAX,
        ensures
            after.s1().len() == before.s1().len(),
            forall|i: int|
                0 <= i < before.s1().len() && i != f ==> #[trigger] after.s1()[i]
                    == before.s1()[i],
            before.s1()[f as int].move_choice != MoveChoice::NoMove
                ==> after.s1()[f as int].visits == before.s1()[f as int].visits + n,
        decreases n,
    {
        let force = (Some(f), None::<usize>);
        if n > 0 {
            let (mid, score, mid_bytes) = choose|mid: Node, score: u64, mid_bytes: u64|
                self.iterated(state, terms, before, mid, force, (n - 1) as nat, mid_bytes)
                    && #[trigger] self.iterated_once(
                    state,
                    terms,
                    mid,
                    after,
                    force,
                    score,
                    mid_bytes,
                    bytes,
                );
            self.lemma_ponder_pins_side_one(
                state,
                terms,
                before,
                mid,
                f,
                (n - 1) as nat,
                mid_bytes,
            );
            self.lemma_iterations_are_counted(
                state,
                terms,
                before,
                mid,
                force,
                (n - 1) as nat,
                mid_bytes,
            );
            let (i, j) = choose|i: int, j: int|
                self.chosen(
                    s1_before(mid, after),
                    mid.times_visited,
                    terms.exploration,
                    force.0,
                    i,
                ) && self.chosen(
                    s2_before(mid, after),
                    mid.times_visited,
                    terms.exploration,
                    force.1,
                    j,
                ) && #[trigger] pair_tried(mid, after, i, j, score as int);
            assert(i == f);
            assert(choices_of(mid.s1())[f as int] == choices_of(before.s1())[f as int]);
            assert(before.s1()[f as int].visits <= before.times_visited);
        }
    }

    /// Pondering pins the committed move of side two in the same way.
    pub proof fn lemma_ponder_pins_side_two(
        self,
        state: S,
        terms: SearchTerms<'_>,
        before: Node,
        after: Node,
        f: usize,
        n: nat,
        bytes: u64,
    )
        requires
            self.iterated(state, terms, before, after, (None, Some(f)), n, bytes),
            before.root,
            before.wf(),
            before.open(),
            f < before.s2().len(),
            before.times_visited + n <= u64::MAX,
        ensures
            after.s2().len() == before.s2().len(),
            forall|i: int|
                0 <= i < before.s2().len() && i != f ==> #[trigger] after.s2()[i]
                    == before.s2()[i],
            before.s2()[f as int].move_choice != MoveChoice::NoMove
                ==> after.s2()[f as int].visits == before.s2()[f as int].visits + n,
        decreases n,
    {
        let force = (None::<usize>, Some(f));
        if n > 0 {
            let (mid, score, mid_bytes) = choose|mid: Node, score: u64, mid_bytes: u64|
                self.iterated(state, terms, before, mid, force, (n - 1) as nat, mid_bytes)
                    && #[trigger] self.iterated_once(
                    state,
                    terms,
                    mid,
                    after,
                    force,
                    score,
                    mid_bytes,
                    bytes,
                );
            self.lemma_ponder_pins_side_two(
                state,
                terms,
                before,
                mid,
                f,
                (n - 1) as nat,
                mid_bytes,
            );
            self.lemma_iterations_are_counted(
                state,
                terms,
                before,
                mid,
                force,
                (n - 1) as nat,
                mid_bytes,
            );
            let (i, j) = choose|i: int, j: int|
                self.chosen(
                    s1_before(mid, after),
                    mid.times_visited,
                    terms.exploration,
                    force.0,
                    i,
                ) && self.chosen(
                    s2_before(mid, after),
                    mid.times_visited,
                    terms.exploration,
                    force.1,
                    j,
                ) && #[trigger] pair_tried(mid, after, i, j, score as int);
            assert(j == f);
            assert(choices_of(mid.s2())[f as int] == choices_of(before.s2())[f as int]);
            assert(before.s2()[f as int].visits <= before.times_visited);
        }
    }

    /// Where in no pair of moves that can be chosen both sides stay idle, every
    /// iteration visits one move of each side, and brings the two of them one
    /// win together, up to rounding.
    pub proof fn lemma_iterations_are_shared_out(
        self,
        state: S,
        terms: SearchTerms<'_>,
        before: Node,
        after: Node,
        force: (Option<usize>, Option<usize>),
        n: nat,
        bytes: u64,
    )
        requires
            self.iterated(state, terms, before, after, force, n, bytes),
            before.root,
            before.wf(),
            before.open(),
            before.times_visited + n <= u64::MAX,
            !choices_of(before.s1()).contains(MoveChoice::NoMove) || !choices_of(
                before.s2(),
            ).contains(MoveChoice::NoMove) || (force.0 matches Some(f) && f < before.s1().len()
                && before.s1()[f as int].move_choice != MoveChoice::NoMove) || (
            force.1 matches Some(f) && f < before.s2().len()
                && before.s2()[f as int].move_choice != MoveChoice::NoMove),
        ensures
            options_wf(after.s1(), before.times_visited + n),
            options_wf(after.s2(), before.times_visited + n),
            balanced(after.s1(), after.s2()),
            visits_sum(after.s1(), after.s1().len() as int) == visits_sum(
                before.s1(),
                before.s1().len() as int,
            ) + n,
            visits_sum(after.s2(), after.s2().len() as int) == visits_sum(
                before.s2(),
                before.s2().len() as int,
            ) + n,
        decreases n,
    {
        if n > 0 {
            let (mid, score, mid_bytes) = choose|mid: Node, score: u64, mid_bytes: u64|
                self.iterated(state, terms, before, mid, force, (n - 1) as nat, mid_bytes)
                    && #[trigger] self.iterated_once(
                    state,
                    terms,
                    mid,
                    after,
                    force,
                    score,
                    mid_bytes,
                    bytes,
                );
            self.lemma_iterations_are_counted(
                state,
                terms,
                before,
                mid,
                force,
                (n - 1) as nat,
                mid_bytes,
            );
            self.lemma_iterations_are_shared_out(
                state,
                terms,
                before,
                mid,
                force,
                (n - 1) as nat,
                mid_bytes,
            );
            let (i, j) = choose|i: int, j: int|
                self.chosen(
                    s1_before(mid, after),
                    mid.times_visited,
                    terms.exploration,
                    force.0,
                    i,
                ) && self.chosen(
                    s2_before(mid, after),
                    mid.times_visited,
                    terms.exploration,
                    force.1,
                    j,
                ) && #[trigger] pair_tried(mid, after, i, j, score as int);
            assert(choices_of(mid.s1()).len() == mid.s1().len());
            assert(choices_of(mid.s2()).len() == mid.s2().len());
            assert(choices_of(before.s1()).len() == before.s1().len());
            assert(choices_of(before.s2()).len() == before.s2().len());
            assert(0 <= i < mid.s1().len() && 0 <= j < mid.s2().len());
            assert(choices_of(mid.s1())[i] == mid.s1()[i].move_choice);
            assert(choices_of(mid.s2())[j] == mid.s2()[j].move_choice);
            assert(choices_of(before.s1())[i] == before.s1()[i].move_choice);
            assert(choices_of(before.s2())[j] == before.s2()[j].move_choice);
            let cap = before.times_visited + n - 1;
            lemma_credit_keeps_balance(mid.s1(), mid.s2(), i, j, score as int, cap);
            lemma_room(mid.s1(), i, cap);
            lemma_room(mid.s2(), j, cap);
            lemma_credit_sums(mid.s1(), i, score as int, mid.s1().len() as int);
            lemma_rest(score as int);
            lemma_credit_sums(mid.s2(), j, rest_of(score as int), mid.s2().len() as int);
        }
    }

    /// A search that is limited by its iterations alone makes as many whole
    /// batches as reach the limit, whatever visits its tree had before, and
    /// so does any search that stopped for that limit; unless its tree takes
    /// as much memory as it may or its counter is full.
    pub proof fn lemma_iteration_limited_search(
        self,
        before: ReusableTree,
        after: ReusableTree,
        state: S,
        s1: Seq<MoveChoice>,
        s2: Seq<MoveChoice>,
        committed: Option<(SideReference, MoveChoice)>,
        config: EvalConfig,
        max_time: u128,
        max_iterations: u32,
        exploration: Float32,
        result: MctsResult,
        end: SearchEnd,
    )
        requires
            self.performed(
                before,
                after,
                state,
                s1,
                s2,
                committed,
                config,
                max_time,
                max_iterations,
                exploration,
                result,
                end,
            ),
            max_iterations > 0,
            end.reason == StopReason::Iterations || (max_time == 0 && end.tree_bytes
                < MCTS_MAX_TREE_BYTES && after.stored()->0.times_visited <= u64::MAX - BATCH),
        ensures
            end.reason == StopReason::Iterations,
            result.iteration_count == whole_batches(max_iterations as int),
    {
        lemma_iteration_limit_is_met(
            limit_of(max_time, max_iterations),
            end,
            result.iteration_count as int,
            after.stored()->0.times_visited as int,
            max_iterations,
        );
    }

    /// A search that was given a tree worth going on with adds its iterations
    /// to the visits of the tree, which keeps its anchor and its evaluator.
    pub proof fn lemma_warm_visits_carry_over(
        self,
        before: ReusableTree,
        after: ReusableTree,
        state: S,
        s1: Seq<MoveChoice>,
        s2: Seq<MoveChoice>,
        committed: Option<(SideReference, MoveChoice)>,
        config: EvalConfig,
        max_time: u128,
        max_iterations: u32,
        exploration: Float32,
        result: MctsResult,
        end: SearchEnd,
    )
        requires
            self.performed(
                before,
                after,
                state,
                s1,
                s2,
                committed,
                config,
                max_time,
                max_iterations,
                exploration,
                result,
                end,
            ),
            forall|current: Float32, drift: Float32| #[trigger]
                self.evaluate.ensures((&state, &config), current)
                    && #[trigger] self.distance.ensures((current, before.anchor()), drift)
                    ==> before.warm(s1, s2, drift, config),
        ensures
            before.stored() is Some,
            after.stored() matches Some(node) && node.times_visited
                == before.stored()->0.times_visited + result.iteration_count,
            after.anchor() == before.anchor(),
            after.config() == before.config(),
    {
    }

    /// Pondering in a tree worth going on with: every iteration visits the
    /// committed move of side one, no other move of side one is visited, and
    /// side two's moves share all the new visits.
    pub proof fn lemma_pondering_pins_the_committed_move(
        self,
        before: ReusableTree,
        after: ReusableTree,
        state: S,
        s1: Seq<MoveChoice>,
        s2: Seq<MoveChoice>,
        committed: MoveChoice,
        config: EvalConfig,
        max_time: u128,
        max_iterations: u32,
        exploration: Float32,
        result: MctsResult,
        end: SearchEnd,
        place: int,
    )
        requires
            self.performed(
                before,
                after,
                state,
                s1,
                s2,
                Some((SideReference::SideOne, committed)),
                config,
                max_time,
                max_iterations,
                exploration,
                result,
                end,
            ),
            before.wf(),
            forall|current: Float32, drift: Float32| #[trigger]
                self.evaluate.ensures((&state, &config), current)
                    && #[trigger] self.distance.ensures((current, before.anchor()), drift)
                    ==> before.warm(s1, s2, drift, config),
            committed != MoveChoice::NoMove,
            position_of(before.stored()->0.s1(), committed, 0) == Some(place),
            0 <= place < before.stored()->0.s1().len(),
        ensures
            ({
                let root = before.stored()->0;
                &&& result.s1@.len() == root.s1().len()
                &&& forall|i: int|
                    0 <= i < root.s1().len() ==> (#[trigger] result.s1@[i]).visits
                        == root.s1()[i].visits + if i == place {
                        result.iteration_count as int
                    } else {
                        0
                    }
                &&& visits_of(result.s2@, result.s2@.len() as int) == visits_sum(
                    root.s2(),
                    root.s2().len() as int,
                ) + result.iteration_count
            }),
    {
        let (current, drift, start) = choose|
            current: Float32,
            drift: Float32,
            start: ReusableTree,
        |
            {
                &&& self.evaluate.ensures((&state, &config), current)
                &&& self.distance.ensures((current, before.anchor()), drift)
                &&& #[trigger] ReusableTree::rooted(before, start, s1, s2, current, drift, config)
                &&& after.anchor() == start.anchor()
                &&& after.config() == start.config()
                &&& start.stored() is Some && after.stored() is Some
                &&& self.searched(
                    state,
                    SearchTerms { root_eval: start.anchor(), config: &config, exploration },
                    start.stored()->0,
                    after.stored()->0,
                    pinned(start.stored()->0, SideReference::SideOne, committed),
                    max_time,
                    max_iterations,
                    result,
                    end,
                )
            };
        assert(start == before);
        let root = before.stored()->0;
        let last = after.stored()->0;
        let terms = SearchTerms { root_eval: start.anchor(), config: &config, exploration };
        let n = result.iteration_count as nat;
        let f = place as usize;
        lemma_position(root.s1(), committed, 0);
        assert(root.s1().len() <= 255);
        assert(pinned(root, SideReference::SideOne, committed) == (Some(f), None::<usize>));
        self.lemma_ponder_pins_side_one(state, terms, root, last, f, n, end.tree_bytes);
        self.lemma_iterations_are_shared_out(
            state,
            terms,
            root,
            last,
            (Some(f), None),
            n,
            end.tree_bytes,
        );
        lemma_reported_visits(last.s2(), last.s2().len() as int);
        assert forall|i: int| 0 <= i < root.s1().len() implies (#[trigger] result.s1@[i]).visits
            == root.s1()[i].visits + if i == place {
            result.iteration_count as int
        } else {
            0
        } by {
            assert(result.s1@[i] == report_of(last.s1()[i]));
            if i != f {
                assert(last.s1()[i] == root.s1()[i]);
            }
        }
    }

    /// Pondering in a tree worth going on with: every iteration visits the
    /// committed move of side two, no other move of side two is visited, and
    /// side one's moves share all the new visits.
    pub proof fn lemma_pondering_pins_the_committed_move_of_side_two(
        self,
        before: ReusableTree,
        after: ReusableTree,
        state: S,
        s1: Seq<MoveChoice>,
        s2: Seq<MoveChoice>,
        committed: MoveChoice,
        config: EvalConfig,
        max_time: u128,
        max_iterations: u32,
        exploration: Float32,
        result: MctsResult,
        end: SearchEnd,
        place: int,
    )
        requires
            self.performed(
                before,
                after,
                state,
                s1,
                s2,
                Some((SideReference::SideTwo, committed)),
                config,
                max_time,
                max_iterations,
                exploration,
                result,
                end,
            ),
            before.wf(),
            forall|current: Float32, drift: Float32| #[trigger]
                self.evaluate.ensures((&state, &config), current)
                    && #[trigger] self.distance.ensures((current, before.anchor()), drift)
                    ==> before.warm(s1, s2, drift, config),
            committed != MoveChoice::NoMove,
            position_of(before.stored()->0.s2(), committed, 0) == Some(place),
            0 <= place < before.stored()->0.s2().len(),
        ensures
            ({
                let root = before.stored()->0;
                &&& result.s2@.len() == root.s2().len()
                &&& forall|i: int|
                    0 <= i < root.s2().len() ==> (#[trigger] result.s2@[i]).visits
                        == root.s2()[i].visits + if i == place {
                        result.iteration_count as int
                    } else {
                        0
                    }
                &&& visits_of(result.s1@, result.s1@.len() as int) == visits_sum(
                    root.s1(),
                    root.s1().len() as int,
                ) + result.iteration_count
            }),
    {
        let (current, drift, start) = choose|
            current: Float32,
            drift: Float32,
            start: ReusableTree,
        |
            {
                &&& self.evaluate.ensures((&state, &config), current)
                &&& self.distance.ensures((current, before.anchor()), drift)
                &&& #[trigger] ReusableTree::rooted(before, start, s1, s2, current, drift, config)
                &&& after.anchor() == start.anchor()
                &&& after.config() == start.config()
                &&& start.stored() is Some && after.stored() is Some
                &&& self.searched(
                    state,
                    SearchTerms { root_eval: start.anchor(), config: &config, exploration },
                    start.stored()->0,
                    after.stored()->0,
                    pinned(start.stored()->0, SideReference::SideTwo, committed),
                    max_time,
                    max_iterations,
                    result,
                    end,
                )
            };
        assert(start == before);
        let root = before.stored()->0;
        let last = after.stored()->0;
        let terms = SearchTerms { root_eval: start.anchor(), config: &config, exploration };
        let n = result.iteration_count as nat;
        let f = place as usize;
        lemma_position(root.s2(), committed, 0);
        assert(root.s2().len() <= 255);
        assert(pinned(root, SideReference::SideTwo, committed) == (None::<usize>, Some(f)));
        self.lemma_ponder_pins_side_two(state, terms, root, last, f, n, end.tree_bytes);
        self.lemma_iterations_are_shared_out(
            state,
            terms,
            root,
            last,
            (None, Some(f)),
            n,
            end.tree_bytes,
        );
        lemma_reported_visits(last.s1(), last.s1().len() as int);
        assert forall|i: int| 0 <= i < root.s2().len() implies (#[trigger] result.s2@[i]).visits
            == root.s2()[i].visits + if i == place {
            result.iteration_count as int
        } else {
            0
        } by {
            assert(result.s2@[i] == report_of(last.s2()[i]));
            if i != f {
                assert(last.s2()[i] == root.s2()[i]);
            }
        }
    }

    /// A search whose evaluator differs from that of the stored tree starts
    /// cold: the visits of its tree are its own iterations, and its anchor is
    /// the evaluation of its position.
    pub proof fn lemma_other_evaluator_starts_cold(
        self,
        before: ReusableTree,
        after: ReusableTree,
        state: S,
        s1: Seq<MoveChoice>,
        s2: Seq<MoveChoice>,
        committed: Option<(SideReference, MoveChoice)>,
        config: EvalConfig,
        max_time: u128,
        max_iterations: u32,
        exploration: Float32,
        result: MctsResult,
        end: SearchEnd,
    )
        requires
            self.performed(
                before,
                after,
                state,
                s1,
                s2,
                committed,
                config,
                max_time,
                max_iterations,
                exploration,
                result,
                end,
            ),
            !before.config().alike(config),
        ensures
            after.stored() matches Some(node) && node.times_visited == result.iteration_count,
            self.evaluate.ensures((&state, &config), after.anchor()),
            after.config() == config,
    {
    }

    /// Pondering on a move that its side does not have is a search without a
    /// pinned move.
    pub proof fn lemma_ponder_without_the_move_is_free(
        self,
        before: ReusableTree,
        after: ReusableTree,
        state: S,
        s1: Seq<MoveChoice>,
        s2: Seq<MoveChoice>,
        side: SideReference,
        committed: MoveChoice,
        config: EvalConfig,
        max_time: u128,
        max_iterations: u32,
        exploration: Float32,
        result: MctsResult,
        end: SearchEnd,
    )
        requires
            self.performed(
                before,
                after,
                state,
                s1,
                s2,
                Some((side, committed)),
                config,
                max_time,
                max_iterations,
                exploration,
                result,
                end,
            ),
            match side {
                SideReference::SideOne => !s1.contains(committed),
                SideReference::SideTwo => !s2.contains(committed),
            },
        ensures
            self.performed(
                before,
                after,
                state,
                s1,
                s2,
                None,
                config,
                max_time,
                max_iterations,
                exploration,
                result,
                end,
            ),
    {
        let (current, drift, start) = choose|
            current: Float32,
            drift: Float32,
            start: ReusableTree,
        |
            {
                &&& self.evaluate.ensures((&state, &config), current)
                &&& self.distance.ensures((current, before.anchor()), drift)
                &&& #[trigger] ReusableTree::rooted(before, start, s1, s2, current, drift, config)
                &&& after.anchor() == start.anchor()
                &&& after.config() == start.config()
                &&& start.stored() is Some && after.stored() is Some
                &&& self.searched(
                    state,
                    SearchTerms { root_eval: start.anchor(), config: &config, exploration },
                    start.stored()->0,
                    after.stored()->0,
                    pinned(start.stored()->0, side, committed),
                    max_time,
                    max_iterations,
                    result,
                    end,
                )
            };
        let root = start.stored()->0;
        assert(choices_of(all_untried(s1)) =~= s1);
        assert(choices_of(all_untried(s2)) =~= s2);
        match side {
            SideReference::SideOne => lemma_not_found(root.s1(), committed, 0),
            SideReference::SideTwo => lemma_not_found(root.s2(), committed, 0),
        }
        assert(pinned(root, side, committed) == (None::<usize>, None::<usize>));
    }
}

/// A move that is found is the one that was looked for.
proof fn lemma_position(options: Seq<MoveNode>, choice: MoveChoice, from: int)
    requires
        0 <= from,
    ensures
        position_of(options, choice, from) matches Some(i) ==> from <= i < options.len()
            && options[i].move_choice == choice,
    decreases options.len() - from,
{
    if from < options.len() {
        lemma_position(options, choice, from + 1);
    }
}

/// Reports add up to the visits of the options.
pub proof fn lemma_reported_visits(options: Seq<MoveNode>, n: int)
    requires
        n <= options.len(),
    ensures
        visits_of(reports_of(options), n) == visits_sum(options, n),
    decreases n,
{
    if n > 0 {
        lemma_reported_visits(options, n - 1);
    }
}

/// A move that is not among the options is not found.
proof fn lemma_not_found(options: Seq<MoveNode>, choice: MoveChoice, from: int)
    requires
        !choices_of(options).contains(choice),
        0 <= from,
    ensures
        position_of(options, choice, from) is None,
    decreases options.len() - from,
{
    if from < options.len() {
        assert(choices_of(options)[from] == options[from].move_choice);
        lemma_not_found(options, choice, from + 1);
    }
}

/// Every move is tried before any is tried again: as long as some option was
/// not tried, the first such option is the next, provided that the ranks of
/// tried options are finite.
pub proof fn lemma_untried_options_come_first(
    options: Seq<MoveNode>,
    parent_visits: u64,
    exploration: Float32,
    calc: RankFn,
    first: int,
)
    requires
        0 <= first < options.len(),
        options[first].visits == 0,
        forall|i: int| 0 <= i < first ==> (#[trigger] options[i]).visits > 0,
        forall|i: int|
            0 <= i < options.len() && (#[trigger] options[i]).visits > 0 ==> calc(
                options[i].total_score,
                options[i].visits,
                parent_visits,
                exploration,
            ).finite(),
    ensures
        best_option(options, parent_visits, exploration, calc) == first,
{
    lemma_infinity();
    lemma_finite_best(options, parent_visits, exploration, calc, first, first);
    lemma_infinite_best(options, parent_visits, exploration, calc, first, options.len() as int);
}

/// Infinity is above every finite number.
pub proof fn lemma_infinity()
    ensures
        !(Float32 { bits: UNTRIED_RANK }).nan(),
        !(Float32 { bits: LEAST_RANK }).nan(),
        (Float32 { bits: LEAST_RANK }).finite(),
        forall|x: Float32| #[trigger]
            x.finite() ==> x.below(Float32 { bits: UNTRIED_RANK }) && !(Float32 {
                bits: UNTRIED_RANK,
            }).below(x),
        !(Float32 { bits: UNTRIED_RANK }).below(Float32 { bits: UNTRIED_RANK }),
{
    let top = Float32 { bits: UNTRIED_RANK };
    assert(top.exponent() == 255);
    assert(top.fraction() == 0);
    assert((Float32 { bits: LEAST_RANK }).exponent() == 254);
    assert forall|x: Float32| #[trigger] x.finite() implies x.below(top) && !top.below(x) by {
        lemma_order_of_magnitudes(x, top);
        lemma_order_of_magnitudes(top, x);
        assert(x.magnitude_bits() < top.magnitude_bits());
    }
}

proof fn lemma_finite_best(
    options: Seq<MoveNode>,
    parent_visits: u64,
    exploration: Float32,
    calc: RankFn,
    first: int,
    n: int,
)
    requires
        0 <= n <= first < options.len(),
        forall|i: int| 0 <= i < first ==> (#[trigger] options[i]).visits > 0,
        forall|i: int|
            0 <= i < options.len() && (#[trigger] options[i]).visits > 0 ==> calc(
                options[i].total_score,
                options[i].visits,
                parent_visits,
                exploration,
            ).finite(),
    ensures
        best_ranked(options, parent_visits, exploration, calc, n).1.finite(),
    decreases n,
{
    lemma_infinity();
    if n > 0 {
        lemma_finite_best(options, parent_visits, exploration, calc, first, n - 1);
        assert(options[n - 1].visits > 0);
    }
}

proof fn lemma_infinite_best(
    options: Seq<MoveNode>,
    parent_visits: u64,
    exploration: Float32,
    calc: RankFn,
    first: int,
    n: int,
)
    requires
        0 <= first < n <= options.len(),
        options[first].visits == 0,
        best_ranked(options, parent_visits, exploration, calc, first).1.finite(),
        forall|i: int|
            0 <= i < options.len() && (#[trigger] options[i]).visits > 0 ==> calc(
                options[i].total_score,
                options[i].visits,
                parent_visits,
                exploration,
            ).finite(),
    ensures
        best_ranked(options, parent_visits, exploration, calc, n) == (first, Float32 { bits: UNTRIED_RANK }),
    decreases n,
{
    lemma_infinity();
    if n - 1 > first {
        lemma_infinite_best(options, parent_visits, exploration, calc, first, n - 1);
        let rank = rank_of(options[n - 1], parent_visits, exploration, calc);
        if options[n - 1].visits > 0 {
            assert(rank.finite());
        }
    }
}

} // verus!
