//! One iteration of the search, from the root and back to it.

use crate::evaluate::config::EvalConfig;
use crate::float32::Float32;
use crate::mcts::chance::{draw_threshold, weight};
use crate::mcts::moves::{
    all_untried, choices_of, credited, rest_of, Instruction, MoveChoice, MoveNode,
    StateInstructions, SCORE_ONE,
};
use crate::mcts::node::{
    branch_position, find_branch, pair_key, percentages, sample_node, score_of_terminal, weigh,
    ChildBranch, Node, TERMINAL_NONTERMINAL, TERMINAL_UNKNOWN,
};
use crate::mcts::search::{
    can_come_up, goes_on, lemma_key_in_range, newborn, ExpansionResult, Rules, SearchTerms,
};
use crate::mcts::size::{adds_branch, lemma_branch_adds_its_bytes, lemma_same_bytes};
use rand::rngs::SmallRng;
use vstd::prelude::*;

verus! {

/// Whether a node still stands for the same position.
pub open spec fn same_place(before: Node, after: Node) -> bool {
    &&& after.root == before.root
    &&& after.instructions == before.instructions
    &&& after.s1_choice == before.s1_choice
    &&& after.s2_choice == before.s2_choice
}

/// Whether a branch still holds the same outcomes.
pub open spec fn same_branch(before: ChildBranch, after: ChildBranch) -> bool {
    &&& after.key == before.key
    &&& after.terminal_score == before.terminal_score
    &&& after.nodes@.len() == before.nodes@.len()
    &&& forall|j: int|
        0 <= j < before.nodes@.len() ==> same_place(before.nodes@[j], #[trigger] after.nodes@[j])
            && after.nodes@[j].times_visited >= before.nodes@[j].times_visited
}

/// Whether every branch that was there still is, in its place, with at most
/// one new branch behind them.
pub open spec fn branches_kept(before: Node, after: Node) -> bool {
    &&& before.children@.len() <= after.children@.len() <= before.children@.len() + 1
    &&& forall|b: int|
        0 <= b < before.children@.len() ==> same_branch(
            before.children@[b],
            #[trigger] after.children@[b],
        )
}

/// The statistics of side one's moves before an iteration; where they were
/// not known, all moves are untried.
pub open spec fn s1_before(before: Node, after: Node) -> Seq<MoveNode> {
    if before.open() {
        before.s1()
    } else {
        all_untried(choices_of(after.s1()))
    }
}

/// The statistics of side two's moves before an iteration.
pub open spec fn s2_before(before: Node, after: Node) -> Seq<MoveNode> {
    if before.open() {
        before.s2()
    } else {
        all_untried(choices_of(after.s2()))
    }
}

/// Whether a pair of moves was tried with `score`. Both sides are credited,
/// unless neither had a move.
pub open spec fn pair_tried(before: Node, after: Node, i: int, j: int, score: int) -> bool {
    let s1 = s1_before(before, after);
    let s2 = s2_before(before, after);
    if s1[i].move_choice == MoveChoice::NoMove && s2[j].move_choice == MoveChoice::NoMove {
        after.s1() == s1 && after.s2() == s2
    } else {
        after.s1() == credited(s1, i, score) && after.s2() == credited(s2, j, rest_of(score))
    }
}

/// Whether one outcome below a node was visited once more and nothing else
/// changed.
spec fn outcome_visited(before: Node, after: Node, b: int, c: int) -> bool {
    &&& 0 <= b < before.children@.len()
    &&& 0 <= c < before.children@[b].nodes@.len()
    &&& after.s1_options == before.s1_options
    &&& after.s2_options == before.s2_options
    &&& after.times_visited == before.times_visited
    &&& after.terminal_result == before.terminal_result
    &&& same_place(before, after)
    &&& only_changed(before.children@, after.children@, b, c)
    &&& same_place(before.children@[b].nodes@[c], after.children@[b].nodes@[c])
    &&& after.children@[b].nodes@[c].times_visited == before.children@[b].nodes@[c].times_visited
        + 1
    &&& after.children@[b].nodes@[c].wf()
}

proof fn lemma_outcome_visited(before: Node, after: Node, b: int, c: int)
    requires
        before.wf(),
        before.open(),
        outcome_visited(before, after, b, c),
    ensures
        after.wf_ahead(),
        forall|k: int|
            0 <= k < before.children@.len() ==> same_branch(
                before.children@[k],
                #[trigger] after.children@[k],
            ),
{
    let old_branch = before.children@[b];
    let new_branch = after.children@[b];
    let cap = before.times_visited as int;
    assert(old_branch.fits(before.s1().len() as int, before.s2().len() as int, cap));
    assert forall|j: int| 0 <= j < old_branch.nodes@.len() implies same_place(
        old_branch.nodes@[j],
        #[trigger] new_branch.nodes@[j],
    ) && new_branch.nodes@[j].times_visited >= old_branch.nodes@[j].times_visited by {
        if j != c {
            assert(new_branch.nodes@[j] == old_branch.nodes@[j]);
        }
    }
    assert(same_branch(old_branch, new_branch));
    assert forall|k: int| 0 <= k < before.children@.len() implies same_branch(
        before.children@[k],
        #[trigger] after.children@[k],
    ) by {
        if k != b {
            assert(after.children@[k] == before.children@[k]);
        }
    }
    assert(percentages(new_branch.nodes@) =~= percentages(old_branch.nodes@)) by {
        assert forall|j: int| 0 <= j < old_branch.nodes@.len() implies (
        #[trigger] new_branch.nodes@[j]).instructions == old_branch.nodes@[j].instructions by {
            assert(same_place(old_branch.nodes@[j], new_branch.nodes@[j]));
        }
    }
    assert forall|k: int| 0 <= k < after.children@.len() implies (
    #[trigger] after.children@[k]).fits(
        after.s1().len() as int,
        after.s2().len() as int,
        cap + 1,
    ) by {
        assert(before.children@[k].fits(before.s1().len() as int, before.s2().len() as int, cap));
        if k != b {
            assert(after.children@[k] == before.children@[k]);
        } else {
            assert forall|j: int| 0 <= j < new_branch.nodes@.len() implies {
                let child = #[trigger] new_branch.nodes@[j];
                !child.root && child.times_visited <= cap + 1 && new_branch.key == pair_key(
                    child.s1_choice as int,
                    child.s2_choice as int,
                    after.s2().len() as int,
                ) && child.s1_choice < after.s1().len() && child.s2_choice < after.s2().len()
            } by {
                assert(same_place(old_branch.nodes@[j], new_branch.nodes@[j]));
                assert(!old_branch.nodes@[j].root);
                if j != c {
                    assert(new_branch.nodes@[j] == old_branch.nodes@[j]);
                }
            }
        }
    }
    assert forall|k: int| 0 <= k < after.children@.len() implies !after.idle(
        #[trigger] after.children@[k],
    ) by {
        assert(!before.idle(before.children@[k]));
        if k != b {
            assert(after.children@[k] == before.children@[k]);
        } else {
            assert(same_place(old_branch.nodes@[0], new_branch.nodes@[0]));
        }
    }
    assert forall|k: int, l: int| 0 <= k < l < after.children@.len() implies (
    #[trigger] after.children@[k]).key != (#[trigger] after.children@[l]).key by {
        assert(before.children@[k].key != before.children@[l].key);
    }
    assert forall|k: int, j: int|
        0 <= k < after.children@.len() && 0 <= j < after.children@[k].nodes@.len() implies (
    #[trigger] after.children@[k].nodes@[j]).wf() by {
        if k != b {
            assert(after.children@[k] == before.children@[k]);
            assert(before.children@[k].nodes@[j].wf());
        } else if j != c {
            assert(new_branch.nodes@[j] == old_branch.nodes@[j]);
            assert(before.children@[b].nodes@[j].wf());
        }
    }
}

/// Whether outcome `c` of a new branch was visited once and no other was.
pub open spec fn visited_first(nodes: Seq<Node>, c: int) -> bool {
    forall|k: int|
        0 <= k < nodes.len() ==> (#[trigger] nodes[k]).times_visited == if k == c {
            1int
        } else {
            0
        }
}

/// Whether the bytes of new branches are counted: a new branch of a node adds
/// its bytes, an iteration through an outcome adds what it adds there, and
/// without a new branch the count stays.
pub open spec fn bytes_counted(before: Node, after: Node, old_bytes: u64, new_bytes: u64) -> bool
    decreases before,
{
    ||| after.children@ == before.children@ && new_bytes == old_bytes
    ||| after.children@.len() == before.children@.len() + 1 && adds_branch(
        old_bytes,
        new_bytes,
        after.children@.last().nodes@,
    )
    ||| exists|b: int, c: int|
        0 <= b < before.children@.len() && 0 <= c < before.children@[b].nodes@.len()
            && #[trigger] only_changed(before.children@, after.children@, b, c) && bytes_counted(
            before.children@[b].nodes@[c],
            after.children@[b].nodes@[c],
            old_bytes,
            new_bytes,
        )
}

/// No iteration lowers the count of bytes.
pub proof fn lemma_bytes_never_fall(before: Node, after: Node, old_bytes: u64, new_bytes: u64)
    requires
        bytes_counted(before, after, old_bytes, new_bytes),
    ensures
        new_bytes >= old_bytes,
    decreases before,
{
    if after.children@ == before.children@ && new_bytes == old_bytes {
    } else if after.children@.len() == before.children@.len() + 1 && adds_branch(
        old_bytes,
        new_bytes,
        after.children@.last().nodes@,
    ) {
        lemma_branch_adds_its_bytes(old_bytes, new_bytes, after.children@.last().nodes@);
    } else {
        let (b, c) = choose|b: int, c: int|
            0 <= b < before.children@.len() && 0 <= c < before.children@[b].nodes@.len()
                && #[trigger] only_changed(before.children@, after.children@, b, c)
                && bytes_counted(
                before.children@[b].nodes@[c],
                after.children@[b].nodes@[c],
                old_bytes,
                new_bytes,
            );
        lemma_bytes_never_fall(
            before.children@[b].nodes@[c],
            after.children@[b].nodes@[c],
            old_bytes,
            new_bytes,
        );
    }
}

/// One level further down, as far as levels are told apart.
pub open spec fn deeper(level: u8) -> u8 {
    if level < 255 {
        (level + 1) as u8
    } else {
        255
    }
}

fn one_deeper(level: u8) -> (r: u8)
    ensures
        r == deeper(level),
{
    if level < 255 {
        level + 1
    } else {
        255
    }
}

/// Whether nothing but outcome `c` of branch `b` changed.
pub open spec fn only_changed(
    before: Seq<ChildBranch>,
    after: Seq<ChildBranch>,
    b: int,
    c: int,
) -> bool {
    &&& after.len() == before.len()
    &&& forall|k: int| 0 <= k < before.len() && k != b ==> #[trigger] after[k] == before[k]
    &&& after[b].key == before[b].key
    &&& after[b].terminal_score == before[b].terminal_score
    &&& after[b].nodes@.len() == before[b].nodes@.len()
    &&& forall|j: int|
        0 <= j < before[b].nodes@.len() && j != c ==> #[trigger] after[b].nodes@[j]
            == before[b].nodes@[j]
}

impl<S, O, P, G, A, R, V, W, U, D> Rules<S, O, P, G, A, R, V, W, U, D> where
    O: Fn(&S) -> i8,
    P: Fn(&S) -> (Vec<MoveChoice>, Vec<MoveChoice>),
    G: Fn(&S, &MoveChoice, &MoveChoice, bool) -> Vec<StateInstructions>,
    A: Fn(S, &Vec<Instruction>) -> S,
    R: Fn(S, &Vec<Instruction>) -> S,
    V: Fn(&S, &EvalConfig) -> Float32,
    W: Fn(Float32, Float32) -> u64,
    U: Fn(u128, u64, u64, Float32) -> Float32,
    D: Fn(Float32, Float32) -> Float32,
 {
    /// Whether an iteration that brought `score` can have made `after` of
    /// `before`. One visit is counted. Where the battle is over, which the
    /// root never counts as, nothing else changes. Elsewhere one pair of
    /// moves was chosen and tried.
    pub open spec fn stepped(
        self,
        before: Node,
        after: Node,
        exploration: Float32,
        force: (Option<usize>, Option<usize>),
        score: u64,
    ) -> bool {
        &&& same_place(before, after)
        &&& after.times_visited == before.times_visited + 1
        &&& branches_kept(before, after)
        &&& score <= SCORE_ONE
        &&& if !before.root && score_of_terminal(after.terminal_result) is Some {
            after.s1_options == before.s1_options && after.s2_options == before.s2_options
                && after.children == before.children && score_of_terminal(after.terminal_result)
                == Some(score)
        } else {
            after.open() && exists|i: int, j: int|
                self.chosen(s1_before(before, after), before.times_visited, exploration, force.0, i)
                    && self.chosen(
                    s2_before(before, after),
                    before.times_visited,
                    exploration,
                    force.1,
                    j,
                ) && #[trigger] pair_tried(before, after, i, j, score as int)
        }
    }

    /// Whether these can be the moves of the two sides in a position.
    pub open spec fn offered(
        self,
        state: &S,
        s1: Seq<MoveChoice>,
        s2: Seq<MoveChoice>,
    ) -> bool {
        exists|r: (Vec<MoveChoice>, Vec<MoveChoice>)| #[trigger]
            self.options.ensures((state,), r) && r.0@ == s1 && r.1@ == s2
    }

    proof fn lemma_grown_stays(
        self,
        state: &S,
        m1: MoveChoice,
        m2: MoveChoice,
        split: bool,
        before: Seq<Node>,
        after: Seq<Node>,
    )
        requires
            self.grown(state, m1, m2, split, before),
            after.len() == before.len(),
            forall|j: int|
                0 <= j < after.len() ==> (#[trigger] after[j]).instructions
                    == before[j].instructions,
        ensures
            self.grown(state, m1, m2, split, after),
    {
        let list = choose|list: Vec<StateInstructions>| #[trigger]
            self.outcome_of(state, m1, m2, split, list) && list@.len() == before.len()
                && forall|j: int|
                0 <= j < before.len() ==> (#[trigger] before[j]).instructions == list@[j];
        assert(self.outcome_of(state, m1, m2, split, list));
    }

    /// Whether an outcome can lead from a position to another.
    pub open spec fn leads(self, state: S, node: Node, there: S) -> bool {
        self.apply.ensures((state, &node.instructions.instruction_list), there)
    }

    /// The full account of an iteration through a node in position `state`.
    /// Whether the battle is over there is looked up if it was not known, and
    /// so are the moves. Where it is over, the score is the result;
    /// elsewhere a pair of moves is chosen and played.
    pub open spec fn played(
        self,
        state: S,
        level: u8,
        before: Node,
        after: Node,
        force: (Option<usize>, Option<usize>),
        terms: SearchTerms<'_>,
        score: u64,
    ) -> bool
        decreases before, 1int,
    {
        &&& self.stepped(before, after, terms.exploration, force, score)
        &&& self.end_looked_up(&state, before, after)
        &&& !before.root && score_of_terminal(after.terminal_result) is Some || {
            &&& before.open() || self.offered(
                &state,
                choices_of(after.s1()),
                choices_of(after.s2()),
            )
            &&& exists|i: int, j: int|
                self.chosen(
                    s1_before(before, after),
                    before.times_visited,
                    terms.exploration,
                    force.0,
                    i,
                ) && self.chosen(
                    s2_before(before, after),
                    before.times_visited,
                    terms.exploration,
                    force.1,
                    j,
                ) && #[trigger] pair_tried(before, after, i, j, score as int) && self.pair_played(
                    state,
                    level,
                    before,
                    after,
                    i,
                    j,
                    terms,
                    score,
                )
        }
    }

    /// The account of a chosen pair. A pair that was expanded before brings
    /// its expected score if it has one, and else what an iteration through
    /// one of its outcomes brings. A pair in which nobody moves brings the
    /// score of the position. Any other pair is expanded, and brings its
    /// expected score if all its outcomes end the battle, and else the score
    /// of one of its outcomes.
    pub open spec fn pair_played(
        self,
        state: S,
        level: u8,
        before: Node,
        after: Node,
        i: int,
        j: int,
        terms: SearchTerms<'_>,
        score: u64,
    ) -> bool
        decreases before, 0int,
    {
        let s1 = s1_before(before, after);
        let s2 = s2_before(before, after);
        match branch_position(before.children@, pair_key(i, j, s2.len() as int) as u32, 0) {
            Some(b) => if 0 <= b < before.children@.len() {
                match before.children@[b].terminal_score {
                    Some(x) => score == x && after.children@ == before.children@,
                    None => exists|c: int, there: S|
                        0 <= c < before.children@[b].nodes@.len() && can_come_up(
                            before.children@[b].nodes@,
                            c,
                        ) && #[trigger] self.leads(
                            state,
                            before.children@[b].nodes@[c],
                            there,
                        ) && only_changed(before.children@, after.children@, b, c) && self.played(
                            there,
                            deeper(level),
                            before.children@[b].nodes@[c],
                            after.children@[b].nodes@[c],
                            (None, None),
                            terms,
                            score,
                        ),
                }
            } else {
                false
            },
            None => self.new_pair_played(
                state,
                level <= 1 || self.branch_all_depths,
                before,
                after,
                i,
                j,
                terms,
                score,
            ),
        }
    }

    /// The account of a pair that was not expanded before.
    pub open spec fn new_pair_played(
        self,
        state: S,
        split: bool,
        before: Node,
        after: Node,
        i: int,
        j: int,
        terms: SearchTerms<'_>,
        score: u64,
    ) -> bool {
        let m1 = s1_before(before, after)[i].move_choice;
        let m2 = s2_before(before, after)[j].move_choice;
        let s2_len = s2_before(before, after).len() as int;
        if m1 == MoveChoice::NoMove && m2 == MoveChoice::NoMove {
            after.children@ == before.children@ && self.rolled_out(after, &state, terms, score)
        } else {
            let added = after.children@.last();
            &&& after.children@.len() == before.children@.len() + 1
            &&& forall|b: int|
                0 <= b < before.children@.len() ==> #[trigger] after.children@[b]
                    == before.children@[b]
            &&& added.key == pair_key(i, j, s2_len)
            &&& self.grown(&state, m1, m2, split, added.nodes@)
            &&& forall|k: int|
                0 <= k < added.nodes@.len() ==> newborn(#[trigger] added.nodes@[k], i, j)
                    && self.end_is_known(state, added.nodes@[k])
            &&& self.pair_scored(added.nodes@, added.terminal_score)
            &&& match added.terminal_score {
                Some(x) => score == x && visited_first(added.nodes@, -1),
                None => exists|c: int, there: S|
                    0 <= c < added.nodes@.len() && can_come_up(added.nodes@, c)
                        && #[trigger] self.leads(state, added.nodes@[c], there) && visited_first(
                        added.nodes@,
                        c,
                    ) && self.rolled_out(added.nodes@[c], &there, terms, score),
            }
        }
    }

    /// Tries a pair of moves that was not expanded yet.
    fn try_new_pair(
        &self,
        node: &mut Node,
        split: bool,
        state: S,
        terms: SearchTerms<'_>,
        rng: &mut SmallRng,
        tree_bytes: &mut u64,
        s1_index: usize,
        s2_index: usize,
    ) -> (r: (S, u64))
        requires
            self.sound(),
            old(node).wf(),
            old(node).open(),
            old(node).times_visited < u64::MAX,
            old(node).root || old(node).terminal_result != TERMINAL_UNKNOWN,
            s1_index < old(node).s1().len(),
            s2_index < old(node).s2().len(),
            forall|b: int|
                0 <= b < old(node).children@.len() ==> (#[trigger] old(node).children@[b]).key
                    != pair_key(s1_index as int, s2_index as int, old(node).s2().len() as int),
        ensures
            final(node).wf(),
            final(node).open(),
            same_place(*old(node), *final(node)),
            final(node).times_visited == old(node).times_visited + 1,
            final(node).terminal_result == old(node).terminal_result,
            branches_kept(*old(node), *final(node)),
            r.1 <= SCORE_ONE,
            pair_tried(*old(node), *final(node), s1_index as int, s2_index as int, r.1 as int),
            self.undoes() ==> r.0 == state,
            self.undoes() ==> self.new_pair_played(
                state,
                split,
                *old(node),
                *final(node),
                s1_index as int,
                s2_index as int,
                terms,
                r.1,
            ),
            bytes_counted(*old(node), *final(node), *old(tree_bytes), *final(tree_bytes)),
    {
        let ghost opened = *node;
        let (there, expanded) = self.expand(
            node,
            state,
            s1_index,
            s2_index,
            split,
            rng,
            tree_bytes,
        );
        match expanded {
            ExpansionResult::Child(child) => {
                let last: usize = node.children.len() - 1;
                let ghost before = *node;
                let score: u64 = node.children[last].nodes[child].rollout(self, &there, terms);
                node.children[last].nodes[child].backpropagate();
                let home = (self.reverse)(
                    there,
                    &node.children[last].nodes[child].instructions.instruction_list,
                );
                proof {
                    lemma_outcome_visited(before, *node, last as int, child as int);
                }
                node.backpropagate_pair(score, s1_index, s2_index);
                proof {
                    let fresh = before.children@[last as int].nodes@;
                    let added = node.children@.last().nodes@;
                    let c = child as int;
                    assert(percentages(added) =~= percentages(fresh));
                    lemma_same_bytes(fresh, added, *old(tree_bytes), *tree_bytes);
                    assert(can_come_up(added, c));
                    if goes_on(fresh) {
                        let k = choose|k: int|
                            0 <= k < fresh.len() && weight(
                                (#[trigger] fresh[k]).instructions.percentage,
                            ) > 0 && fresh[k].terminal_result == TERMINAL_NONTERMINAL;
                        assert(added[k].terminal_result == TERMINAL_NONTERMINAL);
                        assert(goes_on(added));
                    }
                    if self.undoes() {
                        assert(self.leads(state, added[c], there));
                        assert forall|k: int| 0 <= k < added.len() implies newborn(
                            #[trigger] added[k],
                            s1_index as int,
                            s2_index as int,
                        ) && self.end_is_known(state, added[k]) by {
                            assert(newborn(fresh[k], s1_index as int, s2_index as int));
                            assert(self.end_is_known(state, fresh[k]));
                            if k == c && fresh[c].terminal_result == TERMINAL_UNKNOWN {
                                assert(self.terminal_in(&there, added[c].terminal_result));
                            }
                        }
                        self.lemma_grown_stays(
                            &state,
                            opened.s1()[s1_index as int].move_choice,
                            opened.s2()[s2_index as int].move_choice,
                            split,
                            fresh,
                            added,
                        );
                    }
                }
                (home, score)
            },
            ExpansionResult::TerminalPair(score) => {
                node.backpropagate_pair(score, s1_index, s2_index);
                (there, score)
            },
            ExpansionResult::NoExpansion => {
                let score: u64 = node.rollout(self, &there, terms);
                node.backpropagate();
                (there, score)
            },
        }
    }

    /// Goes down the tree from a node to a position that was not looked at
    /// yet, scores it, and comes back. `level` is how far below the root the
    /// node is; `force` pins moves in this node alone.
    pub fn visit(
        &self,
        node: &mut Node,
        level: u8,
        state: S,
        terms: SearchTerms<'_>,
        rng: &mut SmallRng,
        tree_bytes: &mut u64,
        force: (Option<usize>, Option<usize>),
    ) -> (r: (S, u64))
        requires
            self.sound(),
            old(node).wf(),
            old(node).times_visited < u64::MAX,
            force.0 matches Some(f) ==> old(node).open() && f < old(node).s1().len(),
            force.1 matches Some(f) ==> old(node).open() && f < old(node).s2().len(),
        ensures
            final(node).wf(),
            self.stepped(*old(node), *final(node), terms.exploration, force, r.1),
            self.undoes() ==> r.0 == state,
            self.undoes() ==> self.played(
                state,
                level,
                *old(node),
                *final(node),
                force,
                terms,
                r.1,
            ),
            bytes_counted(*old(node), *final(node), *old(tree_bytes), *final(tree_bytes)),
        decreases *old(node),
    {
        let ghost start = *node;
        if let Some(score) = self.terminal_score(node, &state) {
            node.backpropagate();
            return (state, score);
        }
        if node.s1_options.is_none() {
            let (s1_options, s2_options) = (self.options)(&state);
            node.populate(&s1_options, &s2_options);
            assert(choices_of(all_untried(s1_options@)) =~= s1_options@);
            assert(choices_of(all_untried(s2_options@)) =~= s2_options@);
        }
        let ghost opened = *node;
        let (s1_index, s2_index) = self.select_pair(node, terms.exploration, force);
        let s2_len: usize = node.s2_options.as_ref().unwrap().len();
        proof {
            lemma_key_in_range(
                s1_index as int,
                s2_index as int,
                node.s1().len() as int,
                node.s2().len() as int,
            );
        }
        let key: u32 = (s1_index * s2_len + s2_index) as u32;
        let result = match find_branch(&node.children, key) {
            Some(branch) => {
                proof {
                    assert(!opened.idle(opened.children@[branch as int]));
                    let first = opened.children@[branch as int].nodes@[0];
                    assert(opened.children@[branch as int].fits(
                        opened.s1().len() as int,
                        opened.s2().len() as int,
                        opened.times_visited as int,
                    ));
                    assert(!first.root);
                    lemma_key_names_the_pair(
                        s1_index as int,
                        s2_index as int,
                        first.s1_choice as int,
                        first.s2_choice as int,
                        s2_len as int,
                    );
                }
                if let Some(score) = node.children[branch].terminal_score {
                    node.backpropagate_pair(score, s1_index, s2_index);
                    (state, score)
                } else {
                    let total: u128 = weigh(&node.children[branch].nodes);
                    let threshold: u128 = draw_threshold(rng, total);
                    let child: usize = sample_node(&node.children[branch].nodes, threshold);
                    assert(can_come_up(node.children@[branch as int].nodes@, child as int));
                    let there = (self.apply)(
                        state,
                        &node.children[branch].nodes[child].instructions.instruction_list,
                    );
                    let ghost before = *node;
                    assert(node.children@[branch as int].nodes@[child as int].wf());
                    let (back, score) = self.visit(
                        &mut node.children[branch].nodes[child],
                        one_deeper(level),
                        there,
                        terms,
                        rng,
                        tree_bytes,
                        (None, None),
                    );
                    let home = (self.reverse)(
                        back,
                        &node.children[branch].nodes[child].instructions.instruction_list,
                    );
                    proof {
                        lemma_outcome_visited(before, *node, branch as int, child as int);
                        assert(only_changed(
                            start.children@,
                            node.children@,
                            branch as int,
                            child as int,
                        ));
                        assert(self.leads(
                            state,
                            before.children@[branch as int].nodes@[child as int],
                            there,
                        ));
                    }
                    node.backpropagate_pair(score, s1_index, s2_index);
                    (home, score)
                }
            },
            None => {
                self.try_new_pair(
                    node,
                    level <= 1 || self.branch_all_depths,
                    state,
                    terms,
                    rng,
                    tree_bytes,
                    s1_index,
                    s2_index,
                )
            },
        };
        proof {
            let score = result.1 as int;
            let i = s1_index as int;
            let j = s2_index as int;
            assert(choices_of(credited(opened.s1(), i, score)) =~= choices_of(opened.s1()));
            assert(choices_of(credited(opened.s2(), j, rest_of(score))) =~= choices_of(
                opened.s2(),
            ));
            assert(s1_before(start, *node) == opened.s1());
            assert(s2_before(start, *node) == opened.s2());
            assert(pair_tried(start, *node, i, j, score));
            assert(branches_kept(start, *node));
            if self.undoes() {
                assert(pair_key(i, j, opened.s2().len() as int) as u32 == key);
                assert(start.children == opened.children);
                assert(self.chosen(
                    s1_before(start, *node),
                    start.times_visited,
                    terms.exploration,
                    force.0,
                    i,
                ));
                assert(self.chosen(
                    s2_before(start, *node),
                    start.times_visited,
                    terms.exploration,
                    force.1,
                    j,
                ));
                assert(self.pair_played(
                    state,
                    level,
                    start,
                    *node,
                    i,
                    j,
                    terms,
                    result.1,
                ));
            }
        }
        result
    }
}

/// A key names one pair of moves.
pub proof fn lemma_key_names_the_pair(i: int, j: int, k: int, l: int, s2_len: int)
    requires
        0 <= i,
        0 <= k,
        0 <= j < s2_len,
        0 <= l < s2_len,
        pair_key(i, j, s2_len) == pair_key(k, l, s2_len),
    ensures
        i == k,
        j == l,
{
    assert(i == k) by (nonlinear_arith)
        requires
            0 <= j < s2_len,
            0 <= l < s2_len,
            i * s2_len + j == k * s2_len + l,
    ;
}

} // verus!
