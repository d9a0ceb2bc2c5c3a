//! A search tree that is kept from turn to turn.

use crate::evaluate::config::EvalConfig;
use crate::float32::Float32;
use crate::mcts::moves::{
    all_untried, choices_of, find_choice, position_of, same_instructions, Instruction, MoveChoice,
    MoveNode, StateInstructions, CERTAIN,
};
use crate::mcts::node::{branch_position, find_branch, pair_key, Node};
use crate::mcts::search::lemma_key_in_range;
use vstd::prelude::*;

verus! {

/// How far the evaluation may drift from a tree's anchor, as a bit pattern:
/// 150. The stored scores are centered on the anchor and lose resolution
/// further away.
pub const MAX_ANCHOR_DRIFT: u32 = 0x4316_0000;

/// A search tree that can be kept across turns. After a pair of moves was
/// actually played, advancing promotes the subtree of what happened,
/// statistics included, to the root of the next search. If what happened
/// does not match an expanded outcome, the tree is discarded and the next
/// search starts cold.
///
/// Scores are centered on the evaluation of the position that a tree was
/// started in, its anchor. A tree keeps its anchor for its whole lifetime.
pub struct ReusableTree {
    root: Option<Node>,
    anchor_eval: Float32,
    eval_config: EvalConfig,
}

/// The best match among the first `n` outcomes: the first of those with the
/// most visits.
pub open spec fn best_match(nodes: Seq<Node>, matching: Seq<bool>, n: int) -> Option<int>
    decreases n,
{
    if n <= 0 {
        None
    } else {
        let best = best_match(nodes, matching, n - 1);
        if matching[n - 1] && (best is None || nodes[n - 1].times_visited
            > nodes[best->0].times_visited) {
            Some(n - 1)
        } else {
            best
        }
    }
}

/// The best match is one of those with the most visits, and there is one
/// unless nothing matches.
pub proof fn lemma_best_match(nodes: Seq<Node>, matching: Seq<bool>, n: int)
    requires
        0 <= n <= nodes.len(),
        matching.len() == nodes.len(),
    ensures
        best_match(nodes, matching, n) matches Some(j) ==> 0 <= j < n && matching[j] && forall|
            k: int,
        |
            0 <= k < n && #[trigger] matching[k] ==> nodes[k].times_visited
                <= nodes[j].times_visited,
        best_match(nodes, matching, n) is None ==> forall|k: int|
            0 <= k < n ==> !#[trigger] matching[k],
    decreases n,
{
    if n > 0 {
        lemma_best_match(nodes, matching, n - 1);
    }
}

/// Which outcomes are made by exactly these instructions.
pub open spec fn made_by(nodes: Seq<Node>, outcome: Seq<Instruction>) -> Seq<bool> {
    Seq::new(nodes.len(), |j: int| nodes[j].instructions.instruction_list@ == outcome)
}

/// The branch of a pair of moves below a root, if it was expanded.
pub open spec fn branch_of(root: Node, s1_move: MoveChoice, s2_move: MoveChoice) -> Option<int> {
    if !root.open() {
        None
    } else {
        match (position_of(root.s1(), s1_move, 0), position_of(root.s2(), s2_move, 0)) {
            (Some(i), Some(j)) => branch_position(
                root.children@,
                pair_key(i, j, root.s2().len() as int) as u32,
                0,
            ),
            _ => None,
        }
    }
}

/// Whether `after` is the node `before` as the root of a tree: it is known
/// as a root, nothing led to it, and all that is known of it is kept.
pub open spec fn promoted(before: Node, after: Node) -> bool {
    &&& after.root
    &&& after.instructions.percentage == CERTAIN
    &&& after.instructions.instruction_list@.len() == 0
    &&& after.times_visited == before.times_visited
    &&& after.s1_choice == before.s1_choice
    &&& after.s2_choice == before.s2_choice
    &&& after.s1_options == before.s1_options
    &&& after.s2_options == before.s2_options
    &&& after.children == before.children
    &&& after.terminal_result == before.terminal_result
}

/// Whether the moves that a node knows are these, in this order.
pub open spec fn offers(node: Node, s1: Seq<MoveChoice>, s2: Seq<MoveChoice>) -> bool {
    node.open() && choices_of(node.s1()) == s1 && choices_of(node.s2()) == s2
}

fn same_choices(options: &Vec<MoveNode>, choices: &Vec<MoveChoice>) -> (r: bool)
    ensures
        r == (choices_of(options@) == choices@),
{
    if options.len() != choices.len() {
        assert(choices_of(options@).len() != choices@.len());
        return false;
    }
    let mut i: usize = 0;
    while i < options.len()
        invariant
            i <= options.len(),
            options@.len() == choices@.len(),
            forall|k: int| 0 <= k < i ==> options@[k].move_choice == choices@[k],
        decreases options.len() - i,
    {
        if options[i].move_choice != choices[i] {
            assert(choices_of(options@)[i as int] != choices@[i as int]);
            return false;
        }
        i = i + 1;
    }
    assert(choices_of(options@) =~= choices@);
    true
}

pub fn options_match(
    node: &Node,
    side_one_options: &Vec<MoveChoice>,
    side_two_options: &Vec<MoveChoice>,
) -> (r: bool)
    ensures
        r == offers(*node, side_one_options@, side_two_options@),
{
    match (&node.s1_options, &node.s2_options) {
        (Some(s1), Some(s2)) => same_choices(s1, side_one_options) && same_choices(
            s2,
            side_two_options,
        ),
        _ => false,
    }
}

/// Whether the executable `distance` takes every two evaluations.
pub open spec fn measures_all<D: Fn(Float32, Float32) -> Float32>(distance: D) -> bool {
    forall|a: Float32, b: Float32| #[trigger] distance.requires((a, b))
}

/// Whether an evaluation is close enough to the anchor.
pub open spec fn close_enough(drift: Float32) -> bool {
    !drift.nan() && drift.units() <= (Float32 { bits: MAX_ANCHOR_DRIFT }).units()
}

impl ReusableTree {
    /// The root, if a tree is stored.
    pub closed spec fn stored(self) -> Option<Node> {
        self.root
    }

    /// The evaluation that the stored scores are centered on.
    pub closed spec fn anchor(self) -> Float32 {
        self.anchor_eval
    }

    /// The evaluator that the stored scores come from.
    pub closed spec fn config(self) -> EvalConfig {
        self.eval_config
    }

    /// A stored tree is well-formed and starts at a root.
    pub open spec fn wf(self) -> bool {
        self.stored() matches Some(node) ==> node.wf() && node.root
    }

    pub fn new() -> (r: ReusableTree)
        ensures
            r.wf(),
            r.stored() is None,
            r.anchor().bits == 0,
            r.config().is_default(),
    {
        ReusableTree {
            root: None,
            anchor_eval: Float32 { bits: 0 },
            eval_config: EvalConfig::default(),
        }
    }

    /// Drops any stored tree; the next search starts cold.
    pub fn reset(&mut self)
        ensures
            final(self).wf(),
            final(self).stored() is None,
            final(self).anchor() == old(self).anchor(),
            final(self).config() == old(self).config(),
    {
        self.root = None;
    }

    /// The evaluation that the stored scores are centered on.
    pub fn anchor_eval(&self) -> (r: Float32)
        ensures
            r == self.anchor(),
    {
        self.anchor_eval
    }

    /// The evaluator that the stored scores come from.
    pub fn eval_config(&self) -> (r: &EvalConfig)
        ensures
            *r == self.config(),
    {
        &self.eval_config
    }

    /// Visits accumulated on the current root, none for a cold tree.
    pub fn root_visits(&self) -> (r: u64)
        ensures
            r == match self.stored() {
                Some(node) => node.times_visited,
                None => 0,
            },
    {
        match &self.root {
            Some(node) => node.times_visited,
            None => 0,
        }
    }

    /// The root, if a tree is stored.
    pub fn root(&self) -> (r: Option<&Node>)
        ensures
            match r {
                Some(node) => self.stored() == Some(*node),
                None => self.stored() is None,
            },
    {
        match &self.root {
            Some(node) => Some(node),
            None => None,
        }
    }

    /// Takes the root out.
    pub(crate) fn take_root(&mut self) -> (r: Node)
        requires
            old(self).stored() is Some,
        ensures
            old(self).stored() == Some(r),
            final(self).stored() is None,
            final(self).anchor() == old(self).anchor(),
            final(self).config() == old(self).config(),
    {
        self.root.take().unwrap()
    }

    /// Puts a root in.
    pub(crate) fn put_root(&mut self, root: Node)
        requires
            root.wf(),
            root.root,
        ensures
            final(self).wf(),
            final(self).stored() == Some(root),
            final(self).anchor() == old(self).anchor(),
            final(self).config() == old(self).config(),
    {
        self.root = Some(root);
    }

    /// Finds the branch of a pair of moves below the root.
    fn locate(&self, s1_move: &MoveChoice, s2_move: &MoveChoice) -> (r: Option<usize>)
        requires
            self.wf(),
        ensures
            match r {
                Some(b) => self.stored() matches Some(node) && branch_of(node, *s1_move, *s2_move)
                    == Some(b as int) && b < node.children@.len(),
                None => self.stored() is None || branch_of(
                    self.stored()->0,
                    *s1_move,
                    *s2_move,
                ) is None,
            },
    {
        match &self.root {
            None => None,
            Some(node) => match (&node.s1_options, &node.s2_options) {
                (Some(s1_options), Some(s2_options)) => {
                    let s1_index: usize = match find_choice(s1_options, s1_move) {
                        None => {
                            return None;
                        },
                        Some(i) => i,
                    };
                    let s2_index: usize = match find_choice(s2_options, s2_move) {
                        None => {
                            return None;
                        },
                        Some(i) => i,
                    };
                    proof {
                        lemma_key_in_range(
                            s1_index as int,
                            s2_index as int,
                            node.s1().len() as int,
                            node.s2().len() as int,
                        );
                    }
                    let key: u32 = (s1_index * s2_options.len() + s2_index) as u32;
                    find_branch(&node.children, key)
                },
                _ => None,
            },
        }
    }

    /// Makes one outcome below the root the new root and drops the rest.
    fn promote(&mut self, branch: usize, outcome: usize)
        requires
            old(self).wf(),
            old(self).stored() is Some,
            branch < old(self).stored()->0.children@.len(),
            outcome < old(self).stored()->0.children@[branch as int].nodes@.len(),
        ensures
            final(self).wf(),
            final(self).stored() is Some,
            promoted(
                old(self).stored()->0.children@[branch as int].nodes@[outcome as int],
                final(self).stored()->0,
            ),
            final(self).anchor() == old(self).anchor(),
            final(self).config() == old(self).config(),
    {
        if let Some(mut node) = self.root.take() {
            assert(node.children@[branch as int].nodes@[outcome as int].wf());
            let mut nodes = node.children.swap_remove(branch).nodes;
            let mut chosen = nodes.swap_remove(outcome);
            chosen.root = true;
            chosen.instructions = StateInstructions {
                percentage: CERTAIN,
                instruction_list: Vec::new(),
            };
            self.root = Some(chosen);
        }
    }

    /// Re-roots to the outcome of a pair of moves that is made by exactly
    /// these instructions; the same instructions make the same position.
    /// Returns whether the subtree was kept; on any mismatch the tree is
    /// cleared.
    pub fn advance(
        &mut self,
        s1_move: &MoveChoice,
        s2_move: &MoveChoice,
        outcome: &[Instruction],
    ) -> (kept: bool)
        requires
            old(self).wf(),
        ensures
            final(self).wf(),
            final(self).anchor() == old(self).anchor(),
            final(self).config() == old(self).config(),
            advanced(
                old(self).stored(),
                final(self).stored(),
                *s1_move,
                *s2_move,
                |nodes: Seq<Node>| made_by(nodes, outcome@),
                kept,
            ),
    {
        let branch: usize = match self.locate(s1_move, s2_move) {
            None => {
                self.root = None;
                return false;
            },
            Some(b) => b,
        };
        let marks = match &self.root {
            Some(node) => mark_made_by(&node.children[branch].nodes, outcome),
            None => Vec::new(),
        };
        self.settle(branch, &marks)
    }

    /// Re-roots to the best match of a branch, or clears the tree.
    pub(crate) fn settle(&mut self, branch: usize, marks: &Vec<bool>) -> (kept: bool)
        requires
            old(self).wf(),
            old(self).stored() is Some,
            branch < old(self).stored()->0.children@.len(),
            marks@.len() == old(self).stored()->0.children@[branch as int].nodes@.len(),
        ensures
            final(self).wf(),
            final(self).anchor() == old(self).anchor(),
            final(self).config() == old(self).config(),
            settled(
                old(self).stored()->0.children@[branch as int].nodes@,
                marks@,
                final(self).stored(),
                kept,
            ),
    {
        let mut chosen: Option<usize> = None;
        if let Some(node) = &self.root {
            let nodes = &node.children[branch].nodes;
            let mut j: usize = 0;
            while j < nodes.len()
                invariant
                    j <= nodes@.len(),
                    marks@.len() == nodes@.len(),
                    match chosen {
                        Some(c) => c < j && best_match(nodes@, marks@, j as int) == Some(c as int),
                        None => best_match(nodes@, marks@, j as int) is None,
                    },
                decreases nodes@.len() - j,
            {
                let better = match chosen {
                    None => true,
                    Some(c) => nodes[j].times_visited > nodes[c].times_visited,
                };
                if marks[j] && better {
                    chosen = Some(j);
                }
                j = j + 1;
            }
        }
        match chosen {
            None => {
                self.root = None;
                false
            },
            Some(c) => {
                self.promote(branch, c);
                true
            },
        }
    }

    /// Finds the branch of a pair of moves, or clears the tree.
    pub(crate) fn locate_or_clear(&mut self, s1_move: &MoveChoice, s2_move: &MoveChoice) -> (r:
        Option<usize>)
        requires
            old(self).wf(),
        ensures
            final(self).wf(),
            final(self).anchor() == old(self).anchor(),
            final(self).config() == old(self).config(),
            match r {
                Some(b) => old(self).stored() matches Some(node) && final(self).stored() == old(
                    self,
                ).stored() && branch_of(node, *s1_move, *s2_move) == Some(b as int) && b
                    < node.children@.len(),
                None => final(self).stored() is None && (old(self).stored() is None || branch_of(
                    old(self).stored()->0,
                    *s1_move,
                    *s2_move,
                ) is None),
            },
    {
        match self.locate(s1_move, s2_move) {
            None => {
                self.root = None;
                None
            },
            Some(b) => Some(b),
        }
    }

    /// Whether the stored tree is worth going on with: it offers exactly
    /// these moves in this order, its anchor is close enough, and its scores
    /// come from the same evaluator.
    pub open spec fn warm(
        self,
        s1: Seq<MoveChoice>,
        s2: Seq<MoveChoice>,
        drift: Float32,
        config: EvalConfig,
    ) -> bool {
        self.stored() matches Some(node) && offers(node, s1, s2) && close_enough(drift)
            && self.config().alike(config)
    }

    /// Whether a search starts from `after`, given the tree before.
    pub open spec fn rooted(
        before: ReusableTree,
        after: ReusableTree,
        s1: Seq<MoveChoice>,
        s2: Seq<MoveChoice>,
        current_eval: Float32,
        drift: Float32,
        config: EvalConfig,
    ) -> bool {
        if before.warm(s1, s2, drift, config) {
            after == before
        } else {
            &&& after.stored() matches Some(node) && node.root && node.times_visited == 0
                && node.open() && node.s1() == all_untried(s1) && node.s2() == all_untried(s2)
                && node.children@.len() == 0
            &&& after.anchor() == current_eval
            &&& after.config() == config
        }
    }

    /// Keeps the stored tree if it is worth going on with, and then hands the
    /// evaluator back. Else installs a fresh root.
    pub fn ensure_root<D: Fn(Float32, Float32) -> Float32>(
        &mut self,
        current_eval: Float32,
        eval_config: EvalConfig,
        side_one_options: &Vec<MoveChoice>,
        side_two_options: &Vec<MoveChoice>,
        distance: &D,
    ) -> (unused: Option<EvalConfig>)
        requires
            old(self).wf(),
            1 <= side_one_options@.len() <= 255,
            1 <= side_two_options@.len() <= 255,
            measures_all(*distance),
        ensures
            final(self).wf(),
            final(self).stored() matches Some(node) && offers(
                node,
                side_one_options@,
                side_two_options@,
            ) && (node.times_visited == 0 || final(self).stored() == old(self).stored()),
            exists|drift: Float32| #[trigger]
                ReusableTree::rooted(
                    *old(self),
                    *final(self),
                    side_one_options@,
                    side_two_options@,
                    current_eval,
                    drift,
                    eval_config,
                ) && distance.ensures((current_eval, old(self).anchor()), drift),
            match unused {
                Some(config) => config == eval_config,
                None => final(self).config() == eval_config,
            },
    {
        let drift = distance(current_eval, self.anchor_eval);
        let limit = Float32 { bits: MAX_ANCHOR_DRIFT };
        let near = !drift.is_nan() && !limit.is_below(&drift);
        proof {
            assert(!limit.nan());
        }
        let warm = match &self.root {
            Some(node) => options_match(node, side_one_options, side_two_options) && near
                && self.eval_config.same_as(&eval_config),
            None => false,
        };
        assert(choices_of(all_untried(side_one_options@)) =~= side_one_options@);
        assert(choices_of(all_untried(side_two_options@)) =~= side_two_options@);
        let ghost config = eval_config;
        let unused = if warm {
            Some(eval_config)
        } else {
            self.root = Some(Node::new_root(side_one_options, side_two_options));
            self.anchor_eval = current_eval;
            self.eval_config = eval_config;
            None
        };
        assert(ReusableTree::rooted(
            *old(self),
            *self,
            side_one_options@,
            side_two_options@,
            current_eval,
            drift,
            config,
        ));
        unused
    }
}

impl Default for ReusableTree {
    fn default() -> (r: ReusableTree)
        ensures
            r.wf(),
            r.stored() is None,
            r.anchor().bits == 0,
            r.config().is_default(),
    {
        ReusableTree::new()
    }
}

/// Which outcomes are made by exactly these instructions.
fn mark_made_by(nodes: &Vec<Node>, outcome: &[Instruction]) -> (r: Vec<bool>)
    ensures
        r@ == made_by(nodes@, outcome@),
{
    let mut r: Vec<bool> = Vec::new();
    let mut j: usize = 0;
    while j < nodes.len()
        invariant
            j <= nodes.len(),
            r@ == made_by(nodes@, outcome@).take(j as int),
        decreases nodes.len() - j,
    {
        r.push(same_instructions(&nodes[j].instructions.instruction_list, outcome));
        j = j + 1;
        assert(r@ =~= made_by(nodes@, outcome@).take(j as int));
    }
    assert(r@ =~= made_by(nodes@, outcome@));
    r
}

/// What becomes of a tree when one of the outcomes of a branch happened,
/// given which of them match: the best match is promoted, and without a
/// match the tree is cleared.
pub open spec fn settled(
    nodes: Seq<Node>,
    matching: Seq<bool>,
    after: Option<Node>,
    kept: bool,
) -> bool {
    match best_match(nodes, matching, nodes.len() as int) {
        Some(j) => kept && after is Some && promoted(nodes[j], after->0),
        None => !kept && after is None,
    }
}

/// What becomes of a tree when a pair of moves was played. `matching` says
/// which of a pair's outcomes match what happened. If the pair was not
/// expanded, the tree is cleared.
pub open spec fn advanced(
    before: Option<Node>,
    after: Option<Node>,
    s1_move: MoveChoice,
    s2_move: MoveChoice,
    matching: spec_fn(Seq<Node>) -> Seq<bool>,
    kept: bool,
) -> bool {
    if before is None || branch_of(before->0, s1_move, s2_move) is None {
        !kept && after is None
    } else {
        let nodes = before->0.children@[branch_of(before->0, s1_move, s2_move)->0].nodes@;
        settled(nodes, matching(nodes), after, kept)
    }
}

} // verus!
