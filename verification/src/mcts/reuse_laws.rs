//! What a tree keeps when it goes on with the game.

use crate::evaluate::config::EvalConfig;
use crate::float32::Float32;
use crate::mcts::iterate::lemma_key_names_the_pair;
use crate::mcts::moves::{
    choices_of, position_of, Instruction, MoveChoice, MoveNode, StateInstructions,
};
use crate::mcts::node::{branch_position, pair_key, ChildBranch, Node};
use crate::mcts::search::{lemma_key_in_range, Rules};
use crate::mcts::tree::{advanced, best_match, branch_of, lemma_best_match, made_by, settled, ReusableTree};
use vstd::prelude::*;

verus! {

/// Whether a move stands at `i`, and nowhere before.
pub open spec fn stands_first(options: Seq<MoveNode>, choice: MoveChoice, i: int) -> bool {
    &&& 0 <= i < options.len()
    &&& options[i].move_choice == choice
    &&& forall|k: int| 0 <= k < i ==> (#[trigger] options[k]).move_choice != choice
}

proof fn lemma_position_is_first(options: Seq<MoveNode>, choice: MoveChoice, from: int)
    requires
        0 <= from,
        forall|k: int| 0 <= k < from && k < options.len() ==> (#[trigger] options[k]).move_choice
            != choice,
    ensures
        match position_of(options, choice, from) {
            Some(i) => stands_first(options, choice, i),
            None => forall|k: int|
                0 <= k < options.len() ==> (#[trigger] options[k]).move_choice != choice,
        },
    decreases options.len() - from,
{
    if from < options.len() && options[from].move_choice != choice {
        lemma_position_is_first(options, choice, from + 1);
    }
}

proof fn lemma_branch_is_found(children: Seq<ChildBranch>, key: u32, from: int)
    requires
        0 <= from,
    ensures
        match branch_position(children, key, from) {
            Some(b) => from <= b < children.len() && children[b].key == key,
            None => forall|b: int|
                from <= b < children.len() ==> (#[trigger] children[b]).key != key,
        },
    decreases children.len() - from,
{
    if from < children.len() && children[from].key != key {
        lemma_branch_is_found(children, key, from + 1);
    }
}

/// Whether a node below a root is an outcome of these two moves: it was
/// reached by side one's move `i` and side two's move `j`, which they are.
pub open spec fn outcome_of_moves(
    root: Node,
    s1_move: MoveChoice,
    s2_move: MoveChoice,
    b: int,
    c: int,
) -> bool {
    &&& 0 <= b < root.children@.len()
    &&& 0 <= c < root.children@[b].nodes@.len()
    &&& stands_first(root.s1(), s1_move, root.children@[b].nodes@[c].s1_choice as int)
    &&& stands_first(root.s2(), s2_move, root.children@[b].nodes@[c].s2_choice as int)
}

proof fn lemma_branch_of_moves(root: Node, s1_move: MoveChoice, s2_move: MoveChoice)
    requires
        root.wf(),
        root.open(),
    ensures
        branch_of(root, s1_move, s2_move) matches Some(b) ==> 0 <= b < root.children@.len()
            && forall|c: int|
            0 <= c < root.children@[b].nodes@.len() ==> #[trigger] outcome_of_moves(
                root,
                s1_move,
                s2_move,
                b,
                c,
            ),
        forall|b: int, c: int| #[trigger]
            outcome_of_moves(root, s1_move, s2_move, b, c) ==> branch_of(root, s1_move, s2_move)
                == Some(b),
{
    lemma_position_is_first(root.s1(), s1_move, 0);
    lemma_position_is_first(root.s2(), s2_move, 0);
    let s2_len = root.s2().len() as int;
    if let (Some(i), Some(j)) = (
        position_of(root.s1(), s1_move, 0),
        position_of(root.s2(), s2_move, 0),
    ) {
        let key = pair_key(i, j, s2_len);
        lemma_key_in_range(i, j, root.s1().len() as int, s2_len);
        lemma_branch_is_found(root.children@, key as u32, 0);
        if let Some(b) = branch_of(root, s1_move, s2_move) {
            assert forall|c: int| 0 <= c < root.children@[b].nodes@.len() implies
                #[trigger] outcome_of_moves(root, s1_move, s2_move, b, c) by {
                let child = root.children@[b].nodes@[c];
                assert(root.children@[b].fits(
                    root.s1().len() as int,
                    s2_len,
                    root.times_visited as int,
                ));
                assert(!child.root);
                lemma_key_names_the_pair(
                    i,
                    j,
                    child.s1_choice as int,
                    child.s2_choice as int,
                    s2_len,
                );
            }
        }
    }
    assert forall|b: int, c: int| #[trigger]
        outcome_of_moves(root, s1_move, s2_move, b, c) implies branch_of(root, s1_move, s2_move)
        == Some(b) by {
        let child = root.children@[b].nodes@[c];
        assert(root.children@[b].fits(
            root.s1().len() as int,
            s2_len,
            root.times_visited as int,
        ));
        assert(!child.root);
        let i = child.s1_choice as int;
        let j = child.s2_choice as int;
        assert(position_of(root.s1(), s1_move, 0) == Some(i));
        assert(position_of(root.s2(), s2_move, 0) == Some(j));
        lemma_key_in_range(i, j, root.s1().len() as int, s2_len);
        let key = pair_key(i, j, s2_len) as u32;
        assert(root.children@[b].key == key);
        lemma_branch_is_found(root.children@, key, 0);
        if let Some(a) = branch_position(root.children@, key, 0) {
            if a < b {
                assert(root.children@[a].key != root.children@[b].key);
            } else if b < a {
                assert(root.children@[b].key != root.children@[a].key);
            }
        }
    }
}

/// Advancing keeps the subtree of what happened: where some outcome of the
/// two moves that were played was made by just these instructions, the most
/// visited of those becomes the root, with all that is known of it; where
/// there is none, nothing is kept.
pub proof fn lemma_advancing_keeps_what_happened(
    root: Node,
    after: Option<Node>,
    s1_move: MoveChoice,
    s2_move: MoveChoice,
    outcome: Seq<Instruction>,
    kept: bool,
)
    requires
        root.wf(),
        root.open(),
        advanced(
            Some(root),
            after,
            s1_move,
            s2_move,
            |nodes: Seq<Node>| made_by(nodes, outcome),
            kept,
        ),
    ensures
        kept == after is Some,
        kept ==> exists|b: int, c: int|
            {
                let node = root.children@[b].nodes@[c];
                &&& #[trigger] outcome_of_moves(root, s1_move, s2_move, b, c)
                &&& node.instructions.instruction_list@ == outcome
                &&& after->0.root
                &&& after->0.times_visited == node.times_visited
                &&& after->0.s1_options == node.s1_options
                &&& after->0.s2_options == node.s2_options
                &&& after->0.children == node.children
                &&& forall|d: int|
                    0 <= d < root.children@[b].nodes@.len() && (
                    #[trigger] root.children@[b].nodes@[d]).instructions.instruction_list@
                        == outcome ==> root.children@[b].nodes@[d].times_visited
                        <= node.times_visited
            },
        !kept ==> forall|b: int, c: int| #[trigger]
            outcome_of_moves(root, s1_move, s2_move, b, c)
                ==> root.children@[b].nodes@[c].instructions.instruction_list@ != outcome,
{
    lemma_branch_of_moves(root, s1_move, s2_move);
    if let Some(b) = branch_of(root, s1_move, s2_move) {
        let nodes = root.children@[b].nodes@;
        let marks = made_by(nodes, outcome);
        lemma_best_match(nodes, marks, nodes.len() as int);
        assert forall|d: int| 0 <= d < nodes.len() implies marks[d] == ((
        #[trigger] nodes[d]).instructions.instruction_list@ == outcome) by {}
        if let Some(c) = best_match(nodes, marks, nodes.len() as int) {
            assert(outcome_of_moves(root, s1_move, s2_move, b, c));
            assert forall|d: int|
                0 <= d < nodes.len() && (#[trigger] nodes[d]).instructions.instruction_list@
                    == outcome implies nodes[d].times_visited <= nodes[c].times_visited by {
                assert(marks[d]);
            }
        } else {
            assert forall|a: int, c: int| #[trigger]
                outcome_of_moves(root, s1_move, s2_move, a, c) implies
                root.children@[a].nodes@[c].instructions.instruction_list@ != outcome by {
                assert(a == b);
                assert(!marks[c]);
            }
        }
    }
}

impl<S, O, P, G, A, R, V, W, U, D> Rules<S, O, P, G, A, R, V, W, U, D> where
    O: Fn(&S) -> i8,
    P: Fn(&S) -> (Vec<MoveChoice>, Vec<MoveChoice>),
    G: Fn(&S, &MoveChoice, &MoveChoice, bool) -> Vec<StateInstructions>,
    A: Fn(S, &Vec<Instruction>) -> S,
    R: Fn(S, &Vec<Instruction>) -> S,
    V: Fn(&S, &EvalConfig) -> Float32,
    W: Fn(Float32, Float32) -> u64,
    U: Fn(u128, u64, u64, Float32) -> Float32,
    D: Fn(Float32, Float32) -> Float32,
 {
    /// Whether an outcome can make a position that is written down otherwise
    /// than `target`.
    pub open spec fn leads_elsewhere<Z: Fn(&S) -> String>(
        self,
        serialize: Z,
        state: S,
        node: Node,
        target: Seq<char>,
    ) -> bool {
        exists|there: S, text: String| #[trigger]
            self.apply.ensures((state, &node.instructions.instruction_list), there)
                && #[trigger] serialize.ensures((&there,), text) && text@ != target
    }
}

/// Advancing to a position that was observed keeps the subtree that leads
/// there: some outcome makes of the position before one that is written down
/// as the observed one is, and no outcome that was taken for a match has more
/// visits; where nothing is kept, every outcome makes one that is written
/// down otherwise.
pub proof fn lemma_observing_keeps_what_leads_there<S, O, P, G, A, R, V, W, U, D, Z>(
    rules: Rules<S, O, P, G, A, R, V, W, U, D>,
    serialize: Z,
    state: S,
    nodes: Seq<Node>,
    target: Seq<char>,
    marks: Seq<bool>,
    after: Option<Node>,
    kept: bool,
) where
    O: Fn(&S) -> i8,
    P: Fn(&S) -> (Vec<MoveChoice>, Vec<MoveChoice>),
    G: Fn(&S, &MoveChoice, &MoveChoice, bool) -> Vec<StateInstructions>,
    A: Fn(S, &Vec<Instruction>) -> S,
    R: Fn(S, &Vec<Instruction>) -> S,
    V: Fn(&S, &EvalConfig) -> Float32,
    W: Fn(Float32, Float32) -> u64,
    U: Fn(u128, u64, u64, Float32) -> Float32,
    D: Fn(Float32, Float32) -> Float32,
    Z: Fn(&S) -> String,

    requires
        rules.marks_target(serialize, state, nodes, target, marks),
        settled(nodes, marks, after, kept),
    ensures
        kept == after is Some,
        kept ==> exists|c: int, there: S, text: String|
            {
                &&& 0 <= c < nodes.len()
                &&& #[trigger] rules.apply.ensures(
                    (state, &nodes[c].instructions.instruction_list),
                    there,
                )
                &&& #[trigger] serialize.ensures((&there,), text)
                &&& text@ == target
                &&& after->0.times_visited == nodes[c].times_visited
                &&& after->0.s1_options == nodes[c].s1_options
                &&& after->0.s2_options == nodes[c].s2_options
                &&& after->0.children == nodes[c].children
                &&& forall|d: int|
                    0 <= d < nodes.len() && #[trigger] marks[d] ==> nodes[d].times_visited
                        <= nodes[c].times_visited
            },
        !kept ==> forall|c: int|
            0 <= c < nodes.len() ==> rules.leads_elsewhere(
                serialize,
                state,
                #[trigger] nodes[c],
                target,
            ),
{
    lemma_best_match(nodes, marks, nodes.len() as int);
    match best_match(nodes, marks, nodes.len() as int) {
        Some(c) => {
            assert(rules.mark_is_true(serialize, state, nodes[c], target, marks[c]));
            let text = choose|text: String| #[trigger]
                rules.writes_down(serialize, state, nodes[c], text) && marks[c] == (text@ == target);
            let there = choose|there: S| #[trigger]
                rules.apply.ensures((state, &nodes[c].instructions.instruction_list), there)
                    && serialize.ensures((&there,), text);
            assert(rules.apply.ensures((state, &nodes[c].instructions.instruction_list), there));
            assert(serialize.ensures((&there,), text));
        },
        None => {
            assert forall|c: int| 0 <= c < nodes.len() implies rules.leads_elsewhere(
                serialize,
                state,
                #[trigger] nodes[c],
                target,
            ) by {
                assert(!marks[c]);
                assert(rules.mark_is_true(serialize, state, nodes[c], target, marks[c]));
                let text = choose|text: String| #[trigger]
                    rules.writes_down(serialize, state, nodes[c], text) && marks[c] == (text@
                        == target);
                let there = choose|there: S| #[trigger]
                    rules.apply.ensures((state, &nodes[c].instructions.instruction_list), there)
                        && serialize.ensures((&there,), text);
                assert(rules.apply.ensures(
                    (state, &nodes[c].instructions.instruction_list),
                    there,
                ));
                assert(serialize.ensures((&there,), text));
            }
        },
    }
}

/// A search goes on from a stored tree only if that offers just the moves
/// that it is given, in their order, the evaluation is a number no further
/// from the anchor than a hundred and fifty, and the evaluator has the same
/// numbers. Else it starts from a root with just these moves, none tried,
/// anchored at the evaluation of the position.
pub proof fn lemma_when_a_tree_is_gone_on_with(
    before: ReusableTree,
    after: ReusableTree,
    s1: Seq<MoveChoice>,
    s2: Seq<MoveChoice>,
    current: Float32,
    drift: Float32,
    config: EvalConfig,
)
    requires
        ReusableTree::rooted(before, after, s1, s2, current, drift, config),
    ensures
        after.stored() is Some,
        ({
            let root = after.stored()->0;
            &&& root.open()
            &&& root.s1().len() == s1.len() && root.s2().len() == s2.len()
            &&& forall|i: int|
                0 <= i < s1.len() ==> (#[trigger] root.s1()[i]).move_choice == s1[i]
            &&& forall|j: int|
                0 <= j < s2.len() ==> (#[trigger] root.s2()[j]).move_choice == s2[j]
            &&& root.times_visited > 0 ==> {
                &&& after == before
                &&& !drift.nan()
                &&& drift.units() <= (Float32 { bits: 0x4316_0000 }).units()
                &&& before.config().mon_clamp == config.mon_clamp
                &&& before.config().tree_model is Some == config.tree_model is Some
                &&& before.config().context_model is Some == config.context_model is Some
                &&& forall|i: int|
                    0 <= i < 36 ==> (#[trigger] before.config().weights@[i]).units()
                        == config.weights@[i].units()
            }
            &&& after != before ==> {
                &&& root.times_visited == 0 && root.children@.len() == 0
                &&& after.anchor() == current
                &&& after.config() == config
                &&& forall|i: int| 0 <= i < s1.len() ==> (#[trigger] root.s1()[i]).visits == 0
                &&& forall|j: int| 0 <= j < s2.len() ==> (#[trigger] root.s2()[j]).visits == 0
            }
        }),
{
    if before.warm(s1, s2, drift, config) {
        let root = before.stored()->0;
        assert(choices_of(root.s1()).len() == root.s1().len());
        assert(choices_of(root.s2()).len() == root.s2().len());
        assert forall|i: int| 0 <= i < s1.len() implies (#[trigger] root.s1()[i]).move_choice
            == s1[i] by {
            assert(choices_of(root.s1())[i] == root.s1()[i].move_choice);
        }
        assert forall|j: int| 0 <= j < s2.len() implies (#[trigger] root.s2()[j]).move_choice
            == s2[j] by {
            assert(choices_of(root.s2())[j] == root.s2()[j].move_choice);
        }
        crate::evaluate::same_laws::lemma_same_evaluators_have_the_same_numbers(
            before.config(),
            config,
        );
    }
}

} // verus!
