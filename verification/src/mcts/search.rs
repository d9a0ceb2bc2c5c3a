//! One iteration of the search: down the tree, one position further, back up.

use crate::evaluate::config::EvalConfig;
use crate::float32::Float32;
use crate::mcts::chance::{draw_threshold, drawn, picked, weight, weight_of, weight_sum};
use crate::mcts::moves::{Instruction, MoveChoice, MoveNode, StateInstructions, SCORE_ONE};
use crate::mcts::node::{
    best_option, pair_key, percentages, ranks_all, ranks_as, sample_node,
    score_of_terminal, terminal_of, terminal_result_from_battle_result,
    terminal_score_from_cached_result, total_weight, weigh, ChildBranch, Node, RankFn,
    TERMINAL_NONTERMINAL, TERMINAL_UNKNOWN,
};
use crate::mcts::size::{adds_branch, approx_branch_bytes, capped, takes_bytes};
use core::marker::PhantomData;
use rand::rngs::SmallRng;
use crate::rounding::{
    lemma_rounding_keeps_bounds, nearest_single, round_quotient, SINGLE_RANGE,
};
use vstd::arithmetic::power2::{lemma2_to64_rest, pow2};
use vstd::prelude::*;

verus! {

/// The battle as the search knows it, on positions of type `S`.
///
/// `over` is the battle result of a position: zero while it is open, minus
/// one for a win of side two, one for a win of side one. `options` are the
/// moves of both sides. `outcomes` are the chance outcomes of a pair of
/// moves, split by damage roll where the flag is set. `apply` and `reverse`
/// make and take back the changes of an outcome. `evaluate` is the static
/// evaluation of a position. `sigmoid` turns an evaluation into side one's
/// expected score, given the evaluation that scores are centered on. `rank`
/// ranks an option. `distance` is how far two evaluations are apart.
pub struct Rules<S, O, P, G, A, R, V, W, U, D> {
    pub over: O,
    pub options: P,
    pub outcomes: G,
    pub apply: A,
    pub reverse: R,
    pub evaluate: V,
    pub sigmoid: W,
    pub rank: U,
    pub distance: D,
    /// Split outcomes by damage roll everywhere, not only in the first two
    /// turns.
    pub branch_all_depths: bool,
    /// Let the expected score stand in for outcomes that all end the battle.
    pub terminal_pair_cache: bool,
    pub positions: PhantomData<S>,
}

/// What a search goes by: the evaluation that its scores are centered on,
/// its evaluator, and how much it explores.
#[derive(Clone, Copy)]
pub struct SearchTerms<'a> {
    pub root_eval: Float32,
    pub config: &'a EvalConfig,
    pub exploration: Float32,
}

/// The percentages of some outcomes.
pub open spec fn outcome_percentages(outcomes: Seq<StateInstructions>) -> Seq<i64> {
    Seq::new(outcomes.len(), |j: int| outcomes[j].percentage)
}

impl<S, O, P, G, A, R, V, W, U, D> Rules<S, O, P, G, A, R, V, W, U, D> where
    O: Fn(&S) -> i8,
    P: Fn(&S) -> (Vec<MoveChoice>, Vec<MoveChoice>),
    G: Fn(&S, &MoveChoice, &MoveChoice, bool) -> Vec<StateInstructions>,
    A: Fn(S, &Vec<Instruction>) -> S,
    R: Fn(S, &Vec<Instruction>) -> S,
    V: Fn(&S, &EvalConfig) -> Float32,
    W: Fn(Float32, Float32) -> u64,
    U: Fn(u128, u64, u64, Float32) -> Float32,
    D: Fn(Float32, Float32) -> Float32,
 {
    /// Every question can be asked in every position, each side always has
    /// between one and 255 moves, a pair of moves has some outcome that can
    /// happen and no more weight than 64 bits count, and an expected score
    /// is a share of a win.
    pub open spec fn sound(self) -> bool {
        &&& forall|s: &S| #[trigger] self.over.requires((s,))
        &&& forall|s: &S| #[trigger] self.options.requires((s,))
        &&& forall|s: &S, a: &MoveChoice, b: &MoveChoice, d: bool| #[trigger]
            self.outcomes.requires((s, a, b, d))
        &&& forall|s: S, l: &Vec<Instruction>| #[trigger] self.apply.requires((s, l))
        &&& forall|s: S, l: &Vec<Instruction>| #[trigger] self.reverse.requires((s, l))
        &&& forall|s: &S, c: &EvalConfig| #[trigger] self.evaluate.requires((s, c))
        &&& forall|e: Float32, root: Float32| #[trigger] self.sigmoid.requires((e, root))
        &&& ranks_all(self.rank)
        &&& forall|a: Float32, b: Float32| #[trigger] self.distance.requires((a, b))
        &&& forall|s: &S, r: (Vec<MoveChoice>, Vec<MoveChoice>)| #[trigger]
            self.options.ensures((s,), r) ==> 1 <= r.0@.len() <= 255 && 1 <= r.1@.len() <= 255
        &&& forall|s: &S, a: &MoveChoice, b: &MoveChoice, d: bool, r: Vec<StateInstructions>|
            #[trigger]
            self.outcomes.ensures((s, a, b, d), r) ==> r@.len() > 0 && 0 < weight_sum(
                outcome_percentages(r@),
                r@.len() as int,
            ) <= u64::MAX
        &&& forall|e: Float32, root: Float32, r: u64| #[trigger]
            self.sigmoid.ensures((e, root), r) ==> r <= SCORE_ONE
    }

    /// Taking back what was just made gives the position before.
    pub open spec fn undoes(self) -> bool {
        forall|s: S, l: &Vec<Instruction>, t: S, u: S|
            #[trigger] self.apply.ensures((s, l), t) && #[trigger] self.reverse.ensures((t, l), u)
                ==> u == s
    }

    /// Whether `result` can be what is remembered of a position.
    pub open spec fn terminal_in(self, s: &S, result: i8) -> bool {
        exists|r: i8| #[trigger] self.over.ensures((s,), r) && result == terminal_of(r)
    }

    /// Whether what is remembered of the end of a position was looked up
    /// there, unless it was known. In the root it is not looked up.
    pub open spec fn end_looked_up(self, state: &S, before: Node, after: Node) -> bool {
        if before.root || before.terminal_result != TERMINAL_UNKNOWN {
            after.terminal_result == before.terminal_result
        } else {
            self.terminal_in(state, after.terminal_result)
        }
    }

    /// Looks up whether the battle is over, unless that is known. The root
    /// of a search is never treated as over.
    pub fn terminal_score(&self, node: &mut Node, state: &S) -> (r: Option<u64>)
        requires
            self.sound(),
            old(node).wf(),
        ensures
            final(node).wf(),
            final(node).root == old(node).root,
            final(node).times_visited == old(node).times_visited,
            final(node).instructions == old(node).instructions,
            final(node).s1_choice == old(node).s1_choice,
            final(node).s2_choice == old(node).s2_choice,
            final(node).s1_options == old(node).s1_options,
            final(node).s2_options == old(node).s2_options,
            final(node).children == old(node).children,
            self.end_looked_up(state, *old(node), *final(node)),
            r == if old(node).root {
                None
            } else {
                score_of_terminal(final(node).terminal_result)
            },
            r matches Some(x) ==> x <= SCORE_ONE,
    {
        if node.root {
            return None;
        }
        if node.terminal_result == TERMINAL_UNKNOWN {
            let result: i8 = (self.over)(state);
            node.terminal_result = terminal_result_from_battle_result(result);
        }
        terminal_score_from_cached_result(node.terminal_result)
    }

    /// Whether `score` can be what is expected by a position's evaluation.
    pub open spec fn expected(self, state: &S, terms: SearchTerms<'_>, score: u64) -> bool {
        exists|eval: Float32| #[trigger]
            self.evaluate.ensures((state, terms.config), eval) && self.sigmoid.ensures(
                (eval, terms.root_eval),
                score,
            )
    }

    /// Whether `score` can be the score of a position: it is the result of
    /// the battle if that is over there, and what is expected if not.
    pub open spec fn rolled_out(
        self,
        node: Node,
        state: &S,
        terms: SearchTerms<'_>,
        score: u64,
    ) -> bool {
        if node.root {
            ||| exists|r: i8| #[trigger]
                self.over.ensures((state,), r) && score_of_terminal(terminal_of(r)) == Some(score)
            ||| exists|r: i8| #[trigger]
                self.over.ensures((state,), r) && score_of_terminal(terminal_of(r)) is None
                    && self.expected(state, terms, score)
        } else {
            match score_of_terminal(node.terminal_result) {
                Some(x) => score == x,
                None => self.expected(state, terms, score),
            }
        }
    }

    /// The option that is tried: the forced one, or the best ranked.
    pub open spec fn chosen(
        self,
        options: Seq<MoveNode>,
        visits: u64,
        exploration: Float32,
        force: Option<usize>,
        i: int,
    ) -> bool {
        &&& 0 <= i < options.len()
        &&& match force {
            Some(f) => i == f,
            None => forall|calc: RankFn|
                ranks_as(self.rank, calc) ==> i == #[trigger] best_option(
                    options,
                    visits,
                    exploration,
                    calc,
                ),
        }
    }

    /// The pair of moves that is tried in a node.
    pub fn select_pair(
        &self,
        node: &Node,
        exploration: Float32,
        force: (Option<usize>, Option<usize>),
    ) -> (r: (usize, usize))
        requires
            self.sound(),
            node.wf(),
            node.open(),
            force.0 matches Some(f) ==> f < node.s1().len(),
            force.1 matches Some(f) ==> f < node.s2().len(),
        ensures
            self.chosen(node.s1(), node.times_visited, exploration, force.0, r.0 as int),
            self.chosen(node.s2(), node.times_visited, exploration, force.1, r.1 as int),
    {
        let s1: usize = match force.0 {
            Some(index) => index,
            None => node.maximize_ucb_for_side(
                node.s1_options.as_ref().unwrap(),
                exploration,
                &self.rank,
            ),
        };
        let s2: usize = match force.1 {
            Some(index) => index,
            None => node.maximize_ucb_for_side(
                node.s2_options.as_ref().unwrap(),
                exploration,
                &self.rank,
            ),
        };
        (s1, s2)
    }

    /// What is remembered of an outcome's end, if anything, is so of the
    /// position that the outcome makes of `state`.
    pub open spec fn end_is_known(self, state: S, node: Node) -> bool {
        node.terminal_result == TERMINAL_UNKNOWN || exists|t: S| #[trigger]
            self.apply.ensures((state, &node.instructions.instruction_list), t)
                && self.terminal_in(&t, node.terminal_result)
    }

    /// Whether `score` is the expected score of a pair of moves with these
    /// outcomes, which it has if expected scores are used and every outcome
    /// that can happen ends the battle.
    pub open spec fn pair_scored(self, nodes: Seq<Node>, score: Option<u64>) -> bool {
        match score {
            Some(x) => {
                &&& self.terminal_pair_cache
                &&& all_decided(nodes, nodes.len() as int)
                &&& total_weight(nodes) > 0
                &&& x == nearest_single(
                    SCORE_ONE * won_weight(nodes, nodes.len() as int),
                    total_weight(nodes),
                )
            },
            None => self.terminal_pair_cache ==> goes_on(nodes) || total_weight(nodes) == 0,
        }
    }

    /// Looks up which outcomes end the battle, up to the first that does not.
    /// If all that can happen do, gives the expected score.
    pub fn terminal_pair_score_for_nodes(&self, nodes: &mut Vec<Node>, state: S) -> (r: (
        S,
        Option<u64>,
    ))
        requires
            self.sound(),
            forall|j: int|
                0 <= j < old(nodes)@.len() ==> (#[trigger] old(nodes)@[j]).unvisited(),
            total_weight(old(nodes)@) <= u64::MAX,
        ensures
            self.undoes() ==> r.0 == state,
            final(nodes)@.len() == old(nodes)@.len(),
            forall|j: int|
                0 <= j < old(nodes)@.len() ==> looked_up(
                    old(nodes)@[j],
                    #[trigger] final(nodes)@[j],
                ),
            self.undoes() ==> forall|j: int|
                0 <= j < final(nodes)@.len() ==> self.end_is_known(
                    state,
                    #[trigger] final(nodes)@[j],
                ),
            !self.terminal_pair_cache ==> r.1 is None && final(nodes)@ == old(nodes)@,
            self.pair_scored(final(nodes)@, r.1),
            r.1 matches Some(score) ==> score <= SCORE_ONE,
    {
        if !self.terminal_pair_cache {
            return (state, None);
        }
        let mut now = state;
        let mut total: u128 = 0;
        let mut won: u128 = 0;
        let mut i: usize = 0;
        while i < nodes.len()
            invariant
                i <= nodes@.len(),
                nodes@.len() == old(nodes)@.len(),
                self.sound(),
                self.terminal_pair_cache,
                self.undoes() ==> now == state,
                self.undoes() ==> forall|j: int|
                    0 <= j < nodes@.len() ==> self.end_is_known(state, #[trigger] nodes@[j]),
                forall|j: int|
                    0 <= j < nodes@.len() ==> looked_up(old(nodes)@[j], #[trigger] nodes@[j]),
                forall|j: int| i <= j < nodes@.len() ==> #[trigger] nodes@[j] == old(nodes)@[j],
                forall|j: int|
                    0 <= j < old(nodes)@.len() ==> (#[trigger] old(nodes)@[j]).unvisited(),
                total == weight_sum(percentages(nodes@), i as int),
                won == won_weight(nodes@, i as int),
                won <= total,
                all_decided(nodes@, i as int),
            decreases nodes@.len() - i,
        {
            let share: u128 = weight_of(nodes[i].instructions.percentage);
            if share != 0 {
                let ghost before = nodes@;
                now = (self.apply)(now, &nodes[i].instructions.instruction_list);
                let result: i8 = (self.over)(&now);
                let terminal: i8 = terminal_result_from_battle_result(result);
                let ghost there = now;
                nodes[i].terminal_result = terminal;
                assert(nodes@ =~= before.update(i as int, nodes@[i as int]));
                proof {
                    if self.undoes() {
                        assert(self.terminal_in(&there, terminal));
                        assert(self.apply.ensures(
                            (state, &nodes@[i as int].instructions.instruction_list),
                            there,
                        ));
                        assert(self.end_is_known(state, nodes@[i as int]));
                    }
                }
                now = (self.reverse)(now, &nodes[i].instructions.instruction_list);
                proof {
                    assert(percentages(nodes@) =~= percentages(before));
                    lemma_won_weight_same(before, nodes@, i as int);
                    lemma_all_decided_same(before, nodes@, i as int);
                    lemma_sum_fits(percentages(nodes@), i as int);
                }
                match terminal_score_from_cached_result(terminal) {
                    None => {
                        assert(goes_on(nodes@)) by {
                            assert(weight(nodes@[i as int].instructions.percentage) > 0);
                        }
                        return (now, None);
                    },
                    Some(score) => {
                        total = total + share;
                        if score == SCORE_ONE {
                            won = won + share;
                        }
                    },
                }
            }
            i = i + 1;
        }
        if total > 0 {
            assert(percentages(nodes@) =~= percentages(old(nodes)@));
            (now, Some(share_of_one(won, total)))
        } else {
            (now, None)
        }
    }

    /// Whether `list` can be the outcomes of a pair of moves in a position.
    pub open spec fn outcome_of(
        self,
        state: &S,
        m1: MoveChoice,
        m2: MoveChoice,
        split: bool,
        list: Vec<StateInstructions>,
    ) -> bool {
        self.outcomes.ensures((state, &m1, &m2, split), list)
    }

    /// Whether a new branch holds the outcomes of a pair of moves.
    pub open spec fn grown(
        self,
        state: &S,
        m1: MoveChoice,
        m2: MoveChoice,
        split: bool,
        nodes: Seq<Node>,
    ) -> bool {
        exists|list: Vec<StateInstructions>| #[trigger]
            self.outcome_of(state, m1, m2, split, list) && list@.len() == nodes.len()
                && forall|j: int|
                0 <= j < nodes.len() ==> (#[trigger] nodes[j]).instructions == list@[j]
    }

    /// Adds the outcomes of a pair of moves below a node and goes to one of
    /// them, unless the expected score stands in for them all. There is
    /// nothing to add where neither side has a move.
    pub fn expand(
        &self,
        node: &mut Node,
        state: S,
        s1_move_index: usize,
        s2_move_index: usize,
        split: bool,
        rng: &mut SmallRng,
        tree_bytes: &mut u64,
    ) -> (r: (S, ExpansionResult))
        requires
            self.sound(),
            old(node).wf(),
            old(node).open(),
            s1_move_index < old(node).s1().len(),
            s2_move_index < old(node).s2().len(),
            forall|b: int|
                0 <= b < old(node).children@.len() ==> (#[trigger] old(node).children@[b]).key
                    != pair_key(
                    s1_move_index as int,
                    s2_move_index as int,
                    old(node).s2().len() as int,
                ),
        ensures
            final(node).wf(),
            final(node).root == old(node).root,
            final(node).times_visited == old(node).times_visited,
            final(node).instructions == old(node).instructions,
            final(node).s1_choice == old(node).s1_choice,
            final(node).s2_choice == old(node).s2_choice,
            final(node).s1_options == old(node).s1_options,
            final(node).s2_options == old(node).s2_options,
            final(node).terminal_result == old(node).terminal_result,
            ({
                let m1 = old(node).s1()[s1_move_index as int].move_choice;
                let m2 = old(node).s2()[s2_move_index as int].move_choice;
                let before = old(node).children@;
                let after = final(node).children@;
                if m1 == MoveChoice::NoMove && m2 == MoveChoice::NoMove {
                    r.1 is NoExpansion && after == before && r.0 == state && *final(tree_bytes)
                        == *old(tree_bytes)
                } else {
                    &&& after.len() == before.len() + 1
                    &&& forall|b: int| 0 <= b < before.len() ==> #[trigger] after[b] == before[b]
                    &&& after.last().key == pair_key(
                        s1_move_index as int,
                        s2_move_index as int,
                        old(node).s2().len() as int,
                    )
                    &&& self.grown(&state, m1, m2, split, after.last().nodes@)
                    &&& adds_branch(*old(tree_bytes), *final(tree_bytes), after.last().nodes@)
                    &&& forall|j: int|
                        0 <= j < after.last().nodes@.len() ==> newborn(
                            #[trigger] after.last().nodes@[j],
                            s1_move_index as int,
                            s2_move_index as int,
                        ) && after.last().nodes@[j].times_visited == 0
                    &&& self.pair_scored(after.last().nodes@, after.last().terminal_score)
                    &&& self.undoes() ==> forall|j: int|
                        0 <= j < after.last().nodes@.len() ==> self.end_is_known(
                            state,
                            #[trigger] after.last().nodes@[j],
                        )
                    &&& match r.1 {
                        ExpansionResult::NoExpansion => false,
                        ExpansionResult::TerminalPair(score) => after.last().terminal_score == Some(
                            score,
                        ) && (self.undoes() ==> r.0 == state),
                        ExpansionResult::Child(j) => after.last().terminal_score is None && j
                            < after.last().nodes@.len() && can_come_up(
                            after.last().nodes@,
                            j as int,
                        ) && (self.undoes() ==> self.apply.ensures(
                            (state, &after.last().nodes@[j as int].instructions.instruction_list),
                            r.0,
                        )),
                    }
                }
            }),
    {
        let m1 = node.s1_options.as_ref().unwrap()[s1_move_index].move_choice;
        let m2 = node.s2_options.as_ref().unwrap()[s2_move_index].move_choice;
        if m1 == MoveChoice::NoMove && m2 == MoveChoice::NoMove {
            return (state, ExpansionResult::NoExpansion);
        }
        let s2_len: usize = node.s2_options.as_ref().unwrap().len();
        proof {
            lemma_key_in_range(
                s1_move_index as int,
                s2_move_index as int,
                node.s1().len() as int,
                node.s2().len() as int,
            );
        }
        let key: u32 = (s1_move_index * s2_len + s2_move_index) as u32;
        let outcomes = (self.outcomes)(&state, &m1, &m2, split);
        let ghost list = outcomes;
        assert(self.outcome_of(&state, m1, m2, split, list));
        let mut nodes = children_of(outcomes, s1_move_index as u8, s2_move_index as u8);
        let ghost fresh = nodes@;
        proof {
            assert(percentages(nodes@) =~= outcome_percentages(list@));
        }
        let (now, terminal_score) = self.terminal_pair_score_for_nodes(&mut nodes, state);
        proof {
            assert(percentages(nodes@) =~= percentages(fresh));
            assert forall|j: int| 0 <= j < nodes@.len() implies (#[trigger] nodes@[j]).instructions
                == list@[j] by {
                assert(looked_up(fresh[j], nodes@[j]));
            }
        }
        let bytes: u64 = approx_branch_bytes(&nodes);
        *tree_bytes = (*tree_bytes).saturating_add(bytes);
        assert(takes_bytes(nodes@, bytes as int));
        assert(*tree_bytes == capped(*old(tree_bytes) + bytes));
        let ghost added = nodes@;
        let ghost before = *node;
        node.children.push(ChildBranch { key, nodes, terminal_score });
        let last: usize = node.children.len() - 1;
        proof {
            let after = node.children@;
            assert(after.last().fits(
                before.s1().len() as int,
                before.s2().len() as int,
                before.times_visited as int,
            )) by {
                assert forall|j: int| 0 <= j < added.len() implies {
                    let child = #[trigger] added[j];
                    !child.root && child.times_visited <= before.times_visited && key == pair_key(
                        child.s1_choice as int,
                        child.s2_choice as int,
                        before.s2().len() as int,
                    ) && child.s1_choice < before.s1().len() && child.s2_choice < before.s2().len()
                } by {
                    assert(looked_up(fresh[j], added[j]));
                }
            }
            assert(node.own_wf());
            assert forall|b: int, j: int|
                0 <= b < after.len() && 0 <= j < after[b].nodes@.len() implies (
            #[trigger] after[b].nodes@[j]).wf() by {
                if b < before.children@.len() {
                    assert(after[b] == before.children@[b]);
                    assert(before.children@[b].nodes@[j].wf());
                } else {
                    assert(looked_up(fresh[j], added[j]));
                }
            }
            assert forall|j: int| 0 <= j < added.len() implies newborn(
                #[trigger] added[j],
                s1_move_index as int,
                s2_move_index as int,
            ) && added[j].times_visited == 0 by {
                assert(looked_up(fresh[j], added[j]));
            }
        }
        match terminal_score {
            Some(score) => (now, ExpansionResult::TerminalPair(score)),
            None => {
                let total: u128 = weigh(&node.children[last].nodes);
                let threshold: u128 = draw_threshold(rng, total);
                let j: usize = sample_node(&node.children[last].nodes, threshold);
                assert(can_come_up(node.children@[last as int].nodes@, j as int));
                let there = (self.apply)(
                    now,
                    &node.children[last].nodes[j].instructions.instruction_list,
                );
                (there, ExpansionResult::Child(j))
            },
        }
    }
}

impl Node {
    /// Side one's score of a position that was reached: the result of the
    /// battle if it is over, else what is expected by its evaluation.
    pub fn rollout<S, O, P, G, A, R, V, W, U, D>(
        &mut self,
        rules: &Rules<S, O, P, G, A, R, V, W, U, D>,
        state: &S,
        terms: SearchTerms<'_>,
    ) -> (r: u64) where
        O: Fn(&S) -> i8,
        P: Fn(&S) -> (Vec<MoveChoice>, Vec<MoveChoice>),
        G: Fn(&S, &MoveChoice, &MoveChoice, bool) -> Vec<StateInstructions>,
        A: Fn(S, &Vec<Instruction>) -> S,
        R: Fn(S, &Vec<Instruction>) -> S,
        V: Fn(&S, &EvalConfig) -> Float32,
        W: Fn(Float32, Float32) -> u64,
        U: Fn(u128, u64, u64, Float32) -> Float32,
        D: Fn(Float32, Float32) -> Float32,

        requires
            rules.sound(),
            old(self).wf(),
        ensures
            final(self).wf(),
            final(self).root == old(self).root,
            final(self).times_visited == old(self).times_visited,
            final(self).instructions == old(self).instructions,
            final(self).s1_choice == old(self).s1_choice,
            final(self).s2_choice == old(self).s2_choice,
            final(self).s1_options == old(self).s1_options,
            final(self).s2_options == old(self).s2_options,
            final(self).children == old(self).children,
            rules.end_looked_up(state, *old(self), *final(self)),
            r <= SCORE_ONE,
            rules.rolled_out(*final(self), state, terms, r),
    {
        if self.root {
            let result: i8 = (rules.over)(state);
            if let Some(score) = terminal_score_from_cached_result(
                terminal_result_from_battle_result(result),
            ) {
                return score;
            }
        } else if let Some(score) = rules.terminal_score(self, state) {
            return score;
        }
        let eval = (rules.evaluate)(state, terms.config);
        (rules.sigmoid)(eval, terms.root_eval)
    }
}

/// What came of expanding a pair of moves.
pub enum ExpansionResult {
    /// The outcome that was gone to.
    Child(usize),
    /// The expected score of outcomes that all end the battle.
    TerminalPair(u64),
    NoExpansion,
}

/// A key fits its 32 bits, and lies among those of all pairs.
pub proof fn lemma_key_in_range(i: int, j: int, s1_len: int, s2_len: int)
    requires
        0 <= i < s1_len <= 255,
        0 <= j < s2_len <= 255,
    ensures
        0 <= pair_key(i, j, s2_len) < s1_len * s2_len <= 65025,
        0 <= i * s2_len <= 65025,
{
    assert(0 <= i * s2_len <= 254 * 255) by (nonlinear_arith)
        requires
            0 <= i <= 254,
            0 <= s2_len <= 255,
    ;
    assert(i * s2_len + s2_len <= s1_len * s2_len) by (nonlinear_arith)
        requires
            i + 1 <= s1_len,
            0 <= s2_len,
    ;
    assert(s1_len * s2_len <= 255 * 255) by (nonlinear_arith)
        requires
            0 <= s1_len <= 255,
            0 <= s2_len <= 255,
    ;
}

/// A node for each outcome.
fn children_of(outcomes: Vec<StateInstructions>, s1_choice: u8, s2_choice: u8) -> (r: Vec<Node>)
    ensures
        r@.len() == outcomes@.len(),
        forall|j: int|
            0 <= j < r@.len() ==> (#[trigger] r@[j]).unvisited() && r@[j].wf()
                && r@[j].instructions == outcomes@[j] && r@[j].s1_choice == s1_choice
                && r@[j].s2_choice == s2_choice,
{
    let mut r: Vec<Node> = Vec::new();
    for outcome in it: outcomes
        invariant
            it.seq() == outcomes@,
            r@.len() == it.index(),
            forall|j: int|
                0 <= j < r@.len() ==> (#[trigger] r@[j]).unvisited() && r@[j].wf()
                    && r@[j].instructions == outcomes@[j] && r@[j].s1_choice == s1_choice
                    && r@[j].s2_choice == s2_choice,
    {
        r.push(Node::new(outcome, s1_choice, s2_choice));
    }
    r
}

/// The share `won` of `total`, as a score: the nearest single-precision
/// number.
fn share_of_one(won: u128, total: u128) -> (r: u64)
    requires
        0 < total <= u64::MAX,
        won <= total,
    ensures
        r == nearest_single(SCORE_ONE * won, total as int),
        r <= SCORE_ONE,
{
    proof {
        assert(SCORE_ONE * won <= 0x8000_0000_0000_0000 * 0xffff_ffff_ffff_ffff)
            by (nonlinear_arith)
            requires
                SCORE_ONE == 0x8000_0000_0000_0000,
                0 <= won <= 0xffff_ffff_ffff_ffff,
        ;
        assert(SCORE_ONE * won <= SCORE_ONE * total) by (nonlinear_arith)
            requires
                won <= total,
        ;
        lemma2_to64_rest();
        assert(pow2(40) == 0x100_0000_0000);
        lemma_rounding_keeps_bounds(
            SCORE_ONE * won,
            total as int,
            SCORE_ONE as int,
            40,
            SINGLE_RANGE as int,
        );
    }
    round_quotient(SCORE_ONE as u128 * won, total, SINGLE_RANGE) as u64
}

/// Whether only what is known of the battle's end differs.
pub open spec fn looked_up(before: Node, after: Node) -> bool {
    &&& !after.root
    &&& after.times_visited == before.times_visited
    &&& after.instructions == before.instructions
    &&& after.s1_choice == before.s1_choice
    &&& after.s2_choice == before.s2_choice
    &&& after.s1_options is None
    &&& after.s2_options is None
    &&& after.children@.len() == 0
    &&& after.wf()
}

/// Whether all of the first `n` outcomes that can happen end the battle.
pub open spec fn all_decided(nodes: Seq<Node>, n: int) -> bool {
    forall|j: int|
        0 <= j < n && weight((#[trigger] nodes[j]).instructions.percentage) > 0
            ==> score_of_terminal(nodes[j].terminal_result) is Some
}

/// Whether some outcome that can happen is known not to end the battle.
pub open spec fn goes_on(nodes: Seq<Node>) -> bool {
    exists|j: int|
        0 <= j < nodes.len() && weight((#[trigger] nodes[j]).instructions.percentage) > 0
            && nodes[j].terminal_result == TERMINAL_NONTERMINAL
}

/// Whether outcome `c` came up: a threshold drawn up to the total weight
/// picks it.
pub open spec fn can_come_up(nodes: Seq<Node>, c: int) -> bool {
    exists|threshold: int|
        drawn(total_weight(nodes), threshold) && c == #[trigger] picked(
            percentages(nodes),
            threshold,
        )
}

/// Whether a node is one of a new branch of a pair of moves, known by what
/// led to it alone.
pub open spec fn newborn(node: Node, s1_index: int, s2_index: int) -> bool {
    &&& !node.root
    &&& node.s1_choice == s1_index
    &&& node.s2_choice == s2_index
    &&& node.s1_options is None
    &&& node.s2_options is None
    &&& node.children@.len() == 0
}

/// The weights of those of the first `n` outcomes that side one wins.
pub open spec fn won_weight(nodes: Seq<Node>, n: int) -> int
    decreases n,
{
    if n <= 0 {
        0
    } else {
        won_weight(nodes, n - 1) + if score_of_terminal(nodes[n - 1].terminal_result) == Some(
            SCORE_ONE,
        ) {
            weight(nodes[n - 1].instructions.percentage)
        } else {
            0
        }
    }
}

proof fn lemma_won_weight_same(a: Seq<Node>, b: Seq<Node>, n: int)
    requires
        0 <= n <= a.len(),
        a.len() == b.len(),
        forall|j: int| 0 <= j < n ==> #[trigger] a[j] == b[j],
    ensures
        won_weight(a, n) == won_weight(b, n),
    decreases n,
{
    if n > 0 {
        lemma_won_weight_same(a, b, n - 1);
        assert(a[n - 1] == b[n - 1]);
    }
}

proof fn lemma_all_decided_same(a: Seq<Node>, b: Seq<Node>, n: int)
    requires
        0 <= n <= a.len(),
        a.len() == b.len(),
        forall|j: int| 0 <= j < n ==> #[trigger] a[j] == b[j],
        all_decided(a, n),
    ensures
        all_decided(b, n),
{
    assert forall|j: int|
        0 <= j < n && weight((#[trigger] b[j]).instructions.percentage) > 0 implies score_of_terminal(
    b[j].terminal_result) is Some by {
        assert(a[j] == b[j]);
    }
}

proof fn lemma_sum_fits(percentages: Seq<i64>, n: int)
    requires
        0 <= n <= percentages.len(),
        percentages.len() <= usize::MAX,
    ensures
        weight_sum(percentages, n) + i64::MAX <= u128::MAX,
        weight_sum(percentages, n) <= 0x8000_0000_0000_0000 * 0xffff_ffff_ffff_ffff,
{
    crate::mcts::chance::lemma_weight_sum_grows(percentages, 0, n);
    assert(n * i64::MAX <= 0xffff_ffff_ffff_ffff * 0x7fff_ffff_ffff_ffff) by (nonlinear_arith)
        requires
            0 <= n <= 0xffff_ffff_ffff_ffff,
            i64::MAX == 0x7fff_ffff_ffff_ffff,
    ;
}

} // verus!
