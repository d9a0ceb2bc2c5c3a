//! What an iteration scores: the positions that it reaches, and the outcomes
//! that it adds on the way.

use crate::evaluate::config::EvalConfig;
use crate::float32::Float32;
use crate::mcts::chance::weight_sum;
use crate::mcts::iterate::{
    deeper, only_changed, pair_tried, s1_before, s2_before, visited_first,
};
use crate::mcts::moves::{
    Instruction, MoveChoice, SideReference, StateInstructions, SCORE_ONE,
};
use crate::mcts::node::{
    branch_position, pair_key, percentages, score_of_terminal, total_weight, Node,
};
use crate::mcts::perform::{pinned, MctsResult};
use crate::mcts::run::SearchEnd;
use crate::mcts::search::{can_come_up, won_weight, Rules, SearchTerms};
use crate::mcts::tree::ReusableTree;
use crate::rounding::{lemma_rounding_is_near, lemma_rounding_keeps_bounds, nearest, SINGLE_RANGE};
use vstd::prelude::*;

verus! {

/// The weights of the outcomes that side one wins, and none for the others.
pub open spec fn won_percentages(nodes: Seq<Node>) -> Seq<i64> {
    Seq::new(
        nodes.len(),
        |k: int|
            if nodes[k].terminal_result == 1 {
                nodes[k].instructions.percentage
            } else {
                0
            },
    )
}

proof fn lemma_won_weight(nodes: Seq<Node>, n: int)
    requires
        0 <= n <= nodes.len(),
    ensures
        won_weight(nodes, n) == weight_sum(won_percentages(nodes), n),
        0 <= won_weight(nodes, n) <= weight_sum(percentages(nodes), n),
    decreases n,
{
    if n > 0 {
        lemma_won_weight(nodes, n - 1);
    }
}

proof fn lemma_all_or_nothing(nodes: Seq<Node>, n: int)
    requires
        0 <= n <= nodes.len(),
    ensures
        (forall|k: int|
            0 <= k < n && (#[trigger] nodes[k]).instructions.percentage > 0
                ==> nodes[k].terminal_result == 1) ==> won_weight(nodes, n) == weight_sum(
            percentages(nodes),
            n,
        ),
        (forall|k: int|
            0 <= k < n && (#[trigger] nodes[k]).instructions.percentage > 0
                ==> nodes[k].terminal_result != 1) ==> won_weight(nodes, n) == 0,
    decreases n,
{
    if n > 0 {
        lemma_all_or_nothing(nodes, n - 1);
        lemma_won_weight(nodes, n - 1);
        let a = nodes[n - 1];
    }
}

impl<S, O, P, G, A, R, V, W, U, D> Rules<S, O, P, G, A, R, V, W, U, D> where
    O: Fn(&S) -> i8,
    P: Fn(&S) -> (Vec<MoveChoice>, Vec<MoveChoice>),
    G: Fn(&S, &MoveChoice, &MoveChoice, bool) -> Vec<StateInstructions>,
    A: Fn(S, &Vec<Instruction>) -> S,
    R: Fn(S, &Vec<Instruction>) -> S,
    V: Fn(&S, &EvalConfig) -> Float32,
    W: Fn(Float32, Float32) -> u64,
    U: Fn(u128, u64, u64, Float32) -> Float32,
    D: Fn(Float32, Float32) -> Float32,
 {
    /// The expected score of a pair whose outcomes all end the battle is the
    /// share of the weight that side one wins, up to rounding: a whole win
    /// where it wins all that can happen, and nothing where it wins none.
    pub proof fn lemma_expected_score_is_the_share_won(self, nodes: Seq<Node>, score: u64)
        requires
            self.pair_scored(nodes, Some(score)),
        ensures
            ({
                let total = weight_sum(percentages(nodes), nodes.len() as int);
                let won = weight_sum(won_percentages(nodes), nodes.len() as int);
                &&& total > 0
                &&& forall|k: int|
                    0 <= k < nodes.len() && (#[trigger] nodes[k]).instructions.percentage > 0
                        ==> nodes[k].terminal_result == 1 || nodes[k].terminal_result == -1
                &&& score <= SCORE_ONE
                &&& -SCORE_ONE * total <= 0x80_0000 * (score * total - SCORE_ONE * won) <= SCORE_ONE
                    * total
                &&& (forall|k: int|
                    0 <= k < nodes.len() && (#[trigger] nodes[k]).instructions.percentage > 0
                        ==> nodes[k].terminal_result == 1) ==> score == SCORE_ONE
                &&& (forall|k: int|
                    0 <= k < nodes.len() && (#[trigger] nodes[k]).instructions.percentage > 0
                        ==> nodes[k].terminal_result == -1) ==> score == 0
            }),
    {
        let n = nodes.len() as int;
        let total = total_weight(nodes);
        let won = won_weight(nodes, n);
        let range = SINGLE_RANGE as int;
        lemma_won_weight(nodes, n);
        lemma_all_or_nothing(nodes, n);
        assert forall|k: int|
            0 <= k < nodes.len() && (#[trigger] nodes[k]).instructions.percentage > 0 implies
            nodes[k].terminal_result == 1 || nodes[k].terminal_result == -1 by {
            assert(score_of_terminal(nodes[k].terminal_result) is Some);
        }
        assert(0 <= SCORE_ONE * won <= SCORE_ONE * total) by (nonlinear_arith)
            requires
                0 <= won <= total,
        ;
        vstd::arithmetic::power2::lemma2_to64_rest();
        assert(vstd::arithmetic::power2::pow2(40) == 0x100_0000_0000);
        lemma_rounding_keeps_bounds(SCORE_ONE * won, total, SCORE_ONE as int, 40, range);
        lemma_rounding_is_near(SCORE_ONE * won, total, range);
        let q = SCORE_ONE * won / total;
        assert(0 <= q <= SCORE_ONE) by (nonlinear_arith)
            requires
                q == SCORE_ONE * won / total,
                0 <= SCORE_ONE * won <= SCORE_ONE * total,
                total > 0,
        ;
        crate::rounding::lemma_spacing_in_proportion(q, range);
        let s = crate::rounding::spacing(q, range);
        let x = score * total - SCORE_ONE * won;
        assert(-(s * total) <= 2 * x <= s * total);
        if q < range {
            assert(s == 1);
        }
        assert(range * s <= 2 * SCORE_ONE);
        assert(-SCORE_ONE * total <= 0x80_0000 * x <= SCORE_ONE * total) by (nonlinear_arith)
            requires
                -(s * total) <= 2 * x <= s * total,
                range * s <= 2 * SCORE_ONE,
                range == 0x100_0000,
                total > 0,
                s >= 1,
        ;
        if won == total {
            assert(nearest(SCORE_ONE * total, total, range) == SCORE_ONE) by {
                lemma_exact(SCORE_ONE as int, total, range);
            }
        }
        if won == 0 {
            assert(SCORE_ONE * 0 == 0) by (nonlinear_arith);
            lemma_exact(0, total, range);
            assert(0 * total == 0) by (nonlinear_arith);
        }
    }

    /// An iteration that adds a branch adds the outcomes of the two moves
    /// that it tries there, as the engine gives them, split by damage roll
    /// near the root or where that is asked for everywhere. Unless they all
    /// end the battle, it goes to one of them and scores it: by the result of
    /// the battle where that is over, and else by what the evaluator says of
    /// it, seen from the root.
    pub proof fn lemma_new_outcomes_are_scored(
        self,
        state: S,
        level: u8,
        before: Node,
        after: Node,
        force: (Option<usize>, Option<usize>),
        terms: SearchTerms<'_>,
        score: u64,
    )
        requires
            before.root || score_of_terminal(after.terminal_result) is None,
            self.played(state, level, before, after, force, terms, score),
            after.children@.len() > before.children@.len(),
        ensures
            ({
                let added = after.children@.last();
                let nodes = added.nodes@;
                exists|i: int, j: int, list: Vec<StateInstructions>|
                    {
                        let m1 = s1_before(before, after)[i].move_choice;
                        let m2 = s2_before(before, after)[j].move_choice;
                        &&& #[trigger] pair_tried(before, after, i, j, score as int)
                        &&& self.outcomes.ensures(
                            (&state, &m1, &m2, level <= 1 || self.branch_all_depths),
                            list,
                        )
                        &&& m1 != MoveChoice::NoMove || m2 != MoveChoice::NoMove
                        &&& nodes.len() == (#[trigger] list@).len()
                        &&& forall|k: int|
                            0 <= k < nodes.len() ==> (#[trigger] nodes[k]).instructions == list@[k]
                                && nodes[k].s1_choice == i && nodes[k].s2_choice == j
                    }
            }),
            after.children@.last().terminal_score is None ==> ({
                let nodes = after.children@.last().nodes@;
                exists|c: int, there: S|
                    {
                        &&& 0 <= c < nodes.len()
                        &&& nodes[c].times_visited == 1
                        &&& #[trigger] self.apply.ensures(
                            (state, &nodes[c].instructions.instruction_list),
                            there,
                        )
                        &&& nodes[c].terminal_result == 1 ==> score == SCORE_ONE
                        &&& nodes[c].terminal_result == -1 ==> score == 0
                        &&& nodes[c].terminal_result != 1 && nodes[c].terminal_result != -1
                            ==> exists|eval: Float32| #[trigger]
                            self.evaluate.ensures((&there, terms.config), eval)
                                && self.sigmoid.ensures((eval, terms.root_eval), score)
                    }
            }),
            after.children@.last().terminal_score matches Some(x) ==> score == x,
    {
        let (i, j) = choose|i: int, j: int|
            self.chosen(
                s1_before(before, after),
                before.times_visited,
                terms.exploration,
                force.0,
                i,
            ) && self.chosen(
                s2_before(before, after),
                before.times_visited,
                terms.exploration,
                force.1,
                j,
            ) && #[trigger] pair_tried(before, after, i, j, score as int) && self.pair_played(
                state,
                level,
                before,
                after,
                i,
                j,
                terms,
                score,
            );
        let s2 = s2_before(before, after);
        assert(branch_position(before.children@, pair_key(i, j, s2.len() as int) as u32, 0)
            is None);
        let split = level <= 1 || self.branch_all_depths;
        let m1 = s1_before(before, after)[i].move_choice;
        let m2 = s2[j].move_choice;
        let added = after.children@.last();
        let nodes = added.nodes@;
        assert(self.grown(&state, m1, m2, split, nodes));
        let list = choose|list: Vec<StateInstructions>| #[trigger]
            self.outcome_of(&state, m1, m2, split, list) && list@.len() == nodes.len() && forall|
                k: int,
            |
                0 <= k < nodes.len() ==> (#[trigger] nodes[k]).instructions == list@[k];
        assert(self.outcomes.ensures((&state, &m1, &m2, split), list));
        assert(pair_tried(before, after, i, j, score as int));
        if added.terminal_score is None {
            let (c, there) = choose|c: int, there: S|
                0 <= c < nodes.len() && can_come_up(nodes, c) && #[trigger] self.leads(
                    state,
                    nodes[c],
                    there,
                ) && visited_first(nodes, c) && self.rolled_out(nodes[c], &there, terms, score);
            assert(self.apply.ensures((state, &nodes[c].instructions.instruction_list), there));
            assert(nodes[c].times_visited == 1);
            assert(!nodes[c].root);
        }
    }

    /// An iteration that goes on by a pair that was expanded before visits one
    /// of its outcomes in the position that this outcome leads to, one level
    /// further down, with no move pinned there, and scores what that visit
    /// scores.
    pub proof fn lemma_going_on_goes_one_level_down(
        self,
        state: S,
        level: u8,
        before: Node,
        after: Node,
        force: (Option<usize>, Option<usize>),
        terms: SearchTerms<'_>,
        score: u64,
        b: int,
        c: int,
    )
        requires
            before.root || score_of_terminal(after.terminal_result) is None,
            self.played(state, level, before, after, force, terms, score),
            level < 255,
            0 <= b < before.children@.len(),
            0 <= c < before.children@[b].nodes@.len(),
            after.children@.len() == before.children@.len(),
            after.children@[b].nodes@[c].times_visited > before.children@[b].nodes@[c].times_visited,
        ensures
            exists|there: S| #[trigger]
                self.apply.ensures(
                    (state, &before.children@[b].nodes@[c].instructions.instruction_list),
                    there,
                ) && self.played(
                    there,
                    (level + 1) as u8,
                    before.children@[b].nodes@[c],
                    after.children@[b].nodes@[c],
                    (None, None),
                    terms,
                    score,
                ),
    {
        let (i, j) = choose|i: int, j: int|
            self.chosen(
                s1_before(before, after),
                before.times_visited,
                terms.exploration,
                force.0,
                i,
            ) && self.chosen(
                s2_before(before, after),
                before.times_visited,
                terms.exploration,
                force.1,
                j,
            ) && #[trigger] pair_tried(before, after, i, j, score as int) && self.pair_played(
                state,
                level,
                before,
                after,
                i,
                j,
                terms,
                score,
            );
        let s2 = s2_before(before, after);
        if let Some(a) = branch_position(
            before.children@,
            pair_key(i, j, s2.len() as int) as u32,
            0,
        ) {
            if before.children@[a].terminal_score is None {
                let old_nodes = before.children@[a].nodes@;
                let (d, there) = choose|d: int, there: S|
                    0 <= d < old_nodes.len() && can_come_up(old_nodes, d) && #[trigger] self.leads(
                        state,
                        old_nodes[d],
                        there,
                    ) && only_changed(before.children@, after.children@, a, d) && self.played(
                        there,
                        deeper(level),
                        old_nodes[d],
                        after.children@[a].nodes@[d],
                        (None, None),
                        terms,
                        score,
                    );
                if b != a {
                    assert(after.children@[b] == before.children@[b]);
                }
                if c != d {
                    assert(after.children@[a].nodes@[c] == old_nodes[c]);
                }
                assert(self.apply.ensures((state, &old_nodes[c].instructions.instruction_list), there));
            }
        }
    }

    /// The outcomes that an iteration adds below the root of a search are
    /// split by damage roll.
    pub proof fn lemma_outcomes_of_the_root_are_split(
        self,
        state: S,
        terms: SearchTerms<'_>,
        before: Node,
        after: Node,
        force: (Option<usize>, Option<usize>),
        score: u64,
        old_bytes: u64,
        new_bytes: u64,
    )
        requires
            self.undoes(),
            before.root,
            self.iterated_once(state, terms, before, after, force, score, old_bytes, new_bytes),
            after.children@.len() > before.children@.len(),
        ensures
            exists|i: int, j: int, list: Vec<StateInstructions>|
                {
                    let m1 = s1_before(before, after)[i].move_choice;
                    let m2 = s2_before(before, after)[j].move_choice;
                    &&& #[trigger] pair_tried(before, after, i, j, score as int)
                    &&& self.outcomes.ensures((&state, &m1, &m2, true), list)
                    &&& after.children@.last().nodes@.len() == (#[trigger] list@).len()
                    &&& forall|k: int|
                        0 <= k < list@.len() ==> (
                        #[trigger] after.children@.last().nodes@[k]).instructions == list@[k]
                },
    {
        self.lemma_new_outcomes_are_scored(state, 0, before, after, force, terms, score);
        let nodes = after.children@.last().nodes@;
        let (i, j, list) = choose|i: int, j: int, list: Vec<StateInstructions>|
            {
                let m1 = s1_before(before, after)[i].move_choice;
                let m2 = s2_before(before, after)[j].move_choice;
                &&& #[trigger] pair_tried(before, after, i, j, score as int)
                &&& self.outcomes.ensures((&state, &m1, &m2, 0u8 <= 1 || self.branch_all_depths), list)
                &&& m1 != MoveChoice::NoMove || m2 != MoveChoice::NoMove
                &&& nodes.len() == (#[trigger] list@).len()
                &&& forall|k: int|
                    0 <= k < nodes.len() ==> (#[trigger] nodes[k]).instructions == list@[k]
                        && nodes[k].s1_choice == i && nodes[k].s2_choice == j
            };
        assert(pair_tried(before, after, i, j, score as int));
        assert(nodes.len() == list@.len());
    }

    /// A search scores what it sees from the evaluation that its tree is
    /// anchored at, by the evaluator and the exploration that it was given,
    /// from the position that it was given.
    pub proof fn lemma_scores_are_seen_from_the_anchor(
        self,
        before: ReusableTree,
        after: ReusableTree,
        state: S,
        s1: Seq<MoveChoice>,
        s2: Seq<MoveChoice>,
        committed: Option<(SideReference, MoveChoice)>,
        config: EvalConfig,
        max_time: u128,
        max_iterations: u32,
        exploration: Float32,
        result: MctsResult,
        end: SearchEnd,
    )
        requires
            self.performed(
                before,
                after,
                state,
                s1,
                s2,
                committed,
                config,
                max_time,
                max_iterations,
                exploration,
                result,
                end,
            ),
        ensures
            exists|root: Node, force: (Option<usize>, Option<usize>)| #[trigger]
                self.iterated(
                    state,
                    SearchTerms { root_eval: after.anchor(), config: &config, exploration },
                    root,
                    after.stored()->0,
                    force,
                    result.iteration_count as nat,
                    end.tree_bytes,
                ) && (committed is None ==> force == (None::<usize>, None::<usize>)) && (
                root.times_visited == 0 || before.stored() == Some(root)),
    {
        let (current, drift, start) = choose|
            current: Float32,
            drift: Float32,
            start: ReusableTree,
        |
            {
                &&& self.evaluate.ensures((&state, &config), current)
                &&& self.distance.ensures((current, before.anchor()), drift)
                &&& #[trigger] ReusableTree::rooted(before, start, s1, s2, current, drift, config)
                &&& after.anchor() == start.anchor()
                &&& after.config() == start.config()
                &&& start.stored() is Some && after.stored() is Some
                &&& self.searched(
                    state,
                    SearchTerms { root_eval: start.anchor(), config: &config, exploration },
                    start.stored()->0,
                    after.stored()->0,
                    match committed {
                        None => (None, None),
                        Some((side, choice)) => pinned(start.stored()->0, side, choice),
                    },
                    max_time,
                    max_iterations,
                    result,
                    end,
                )
            };
        let force = match committed {
            None => (None, None),
            Some((side, choice)) => pinned(start.stored()->0, side, choice),
        };
        assert(self.iterated(
            state,
            SearchTerms { root_eval: after.anchor(), config: &config, exploration },
            start.stored()->0,
            after.stored()->0,
            force,
            result.iteration_count as nat,
            end.tree_bytes,
        ));
    }
}

proof fn lemma_exact(x: int, d: int, range: int)
    requires
        x == 0 || x == SCORE_ONE,
        d > 0,
        range == SINGLE_RANGE,
    ensures
        nearest(x * d, d, range) == x,
{
    assert(0 <= x * d <= x * d) by (nonlinear_arith)
        requires
            x >= 0,
            d > 0,
    ;
    assert(x * d / d == x) by (nonlinear_arith)
        requires
            d > 0,
    ;
    vstd::arithmetic::power2::lemma2_to64_rest();
    assert(vstd::arithmetic::power2::pow2(40) == 0x100_0000_0000);
    crate::rounding::lemma_spacing_divides(x, 40, range);
    let s = crate::rounding::spacing(x, range);
    let p: int = 0x100_0000_0000;
    let k = p / s;
    vstd::arithmetic::div_mod::lemma_fundamental_div_mod(p, s);
    let m = if x == 0 {
        0
    } else {
        k * 0x80_0000
    };
    assert(x == s * m) by (nonlinear_arith)
        requires
            p == s * k,
            p == 0x100_0000_0000,
            x == 0 && m == 0 || x == 0x8000_0000_0000_0000 && m == k * 0x80_0000,
    ;
    let step = s * d;
    assert(x * d == step * m) by (nonlinear_arith)
        requires
            x == s * m,
            step == s * d,
    ;
    assert(step > 0) by (nonlinear_arith)
        requires
            step == s * d,
            s >= 1,
            d > 0,
    ;
    vstd::arithmetic::div_mod::lemma_fundamental_div_mod_converse(x * d, step, m, 0);
    assert(m * s == s * m) by (nonlinear_arith);
}

} // verus!
