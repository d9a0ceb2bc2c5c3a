//! Advancing a tree to a position that was observed.

use crate::evaluate::config::EvalConfig;
use crate::float32::Float32;
use crate::mcts::moves::{Instruction, MoveChoice, StateInstructions};
use crate::mcts::node::Node;
use crate::mcts::search::Rules;
use crate::mcts::tree::{branch_of, settled, ReusableTree};
use vstd::prelude::*;

verus! {

impl<S, O, P, G, A, R, V, W, U, D> Rules<S, O, P, G, A, R, V, W, U, D> where
    O: Fn(&S) -> i8,
    P: Fn(&S) -> (Vec<MoveChoice>, Vec<MoveChoice>),
    G: Fn(&S, &MoveChoice, &MoveChoice, bool) -> Vec<StateInstructions>,
    A: Fn(S, &Vec<Instruction>) -> S,
    R: Fn(S, &Vec<Instruction>) -> S,
    V: Fn(&S, &EvalConfig) -> Float32,
    W: Fn(Float32, Float32) -> u64,
    U: Fn(u128, u64, u64, Float32) -> Float32,
    D: Fn(Float32, Float32) -> Float32,
 {
    /// Whether `text` can be what an outcome makes of a position, written
    /// down.
    pub open spec fn writes_down<Z: Fn(&S) -> String>(
        self,
        serialize: Z,
        state: S,
        node: Node,
        text: String,
    ) -> bool {
        exists|there: S| #[trigger]
            self.apply.ensures((state, &node.instructions.instruction_list), there)
                && serialize.ensures((&there,), text)
    }

    /// Whether a mark tells if an outcome makes a position that is written
    /// down as `target`.
    pub open spec fn mark_is_true<Z: Fn(&S) -> String>(
        self,
        serialize: Z,
        state: S,
        node: Node,
        target: Seq<char>,
        mark: bool,
    ) -> bool {
        exists|text: String| #[trigger]
            self.writes_down(serialize, state, node, text) && mark == (text@ == target)
    }

    /// Whether the marks tell which outcomes make a position that is written
    /// down as `target`.
    pub open spec fn marks_target<Z: Fn(&S) -> String>(
        self,
        serialize: Z,
        state: S,
        nodes: Seq<Node>,
        target: Seq<char>,
        marks: Seq<bool>,
    ) -> bool {
        &&& marks.len() == nodes.len()
        &&& forall|j: int|
            0 <= j < nodes.len() ==> self.mark_is_true(
                serialize,
                state,
                #[trigger] nodes[j],
                target,
                marks[j],
            )
    }

    fn mark_target<Z: Fn(&S) -> String>(
        &self,
        serialize: &Z,
        state: S,
        nodes: &Vec<Node>,
        target: &String,
    ) -> (r: (S, Vec<bool>))
        requires
            self.sound(),
            forall|s: &S| #[trigger] serialize.requires((s,)),
        ensures
            r.1@.len() == nodes@.len(),
            self.undoes() ==> r.0 == state,
            self.undoes() ==> self.marks_target(*serialize, state, nodes@, target@, r.1@),
    {
        let mut marks: Vec<bool> = Vec::new();
        let mut now = state;
        let mut j: usize = 0;
        while j < nodes.len()
            invariant
                j <= nodes@.len(),
                marks@.len() == j,
                self.sound(),
                forall|s: &S| #[trigger] serialize.requires((s,)),
                self.undoes() ==> now == state,
                self.undoes() ==> forall|k: int|
                    0 <= k < j ==> self.mark_is_true(
                        *serialize,
                        state,
                        #[trigger] nodes@[k],
                        target@,
                        marks@[k],
                    ),
            decreases nodes@.len() - j,
        {
            let there = (self.apply)(now, &nodes[j].instructions.instruction_list);
            let text = serialize(&there);
            let matching = text == *target;
            proof {
                if self.undoes() {
                    assert(self.apply.ensures(
                        (state, &nodes@[j as int].instructions.instruction_list),
                        there,
                    ));
                    assert(self.writes_down(*serialize, state, nodes@[j as int], text));
                    assert(self.mark_is_true(
                        *serialize,
                        state,
                        nodes@[j as int],
                        target@,
                        matching,
                    ));
                }
            }
            now = (self.reverse)(there, &nodes[j].instructions.instruction_list);
            marks.push(matching);
            j = j + 1;
        }
        (now, marks)
    }
}

impl ReusableTree {
    /// Re-roots like [`ReusableTree::advance`], but matches an outcome by the
    /// position that it makes of `root_state`, the position that the root
    /// was searched from, written down. For transitions that were observed
    /// and not sampled from the engine's own outcomes.
    pub fn advance_to_state<S, O, P, G, A, R, V, W, U, D, Z>(
        &mut self,
        rules: &Rules<S, O, P, G, A, R, V, W, U, D>,
        root_state: S,
        s1_move: &MoveChoice,
        s2_move: &MoveChoice,
        target: &S,
        serialize: &Z,
    ) -> (r: (S, bool)) where
        O: Fn(&S) -> i8,
        P: Fn(&S) -> (Vec<MoveChoice>, Vec<MoveChoice>),
        G: Fn(&S, &MoveChoice, &MoveChoice, bool) -> Vec<StateInstructions>,
        A: Fn(S, &Vec<Instruction>) -> S,
        R: Fn(S, &Vec<Instruction>) -> S,
        V: Fn(&S, &EvalConfig) -> Float32,
        W: Fn(Float32, Float32) -> u64,
        U: Fn(u128, u64, u64, Float32) -> Float32,
        D: Fn(Float32, Float32) -> Float32,
        Z: Fn(&S) -> String,

        requires
            rules.sound(),
            old(self).wf(),
            forall|s: &S| #[trigger] serialize.requires((s,)),
        ensures
            final(self).wf(),
            final(self).anchor() == old(self).anchor(),
            final(self).config() == old(self).config(),
            rules.undoes() ==> r.0 == root_state,
            r.1 == (final(self).stored() is Some),
            old(self).stored() is None || branch_of(
                old(self).stored()->0,
                *s1_move,
                *s2_move,
            ) is None ==> !r.1 && final(self).stored() is None,
            rules.undoes() && old(self).stored() is Some && branch_of(
                old(self).stored()->0,
                *s1_move,
                *s2_move,
            ) is Some ==> {
                let b = branch_of(old(self).stored()->0, *s1_move, *s2_move)->0;
                let nodes = old(self).stored()->0.children@[b].nodes@;
                exists|text: String, marks: Seq<bool>|
                    serialize.ensures((target,), text) && #[trigger] rules.marks_target(
                        *serialize,
                        root_state,
                        nodes,
                        text@,
                        marks,
                    ) && settled(nodes, marks, final(self).stored(), r.1)
            },
    {
        let text = serialize(target);
        let branch: usize = match self.locate_or_clear(s1_move, s2_move) {
            None => {
                return (root_state, false);
            },
            Some(b) => b,
        };
        let (back, marks) = match self.root() {
            Some(node) => rules.mark_target(
                serialize,
                root_state,
                &node.children[branch].nodes,
                &text,
            ),
            None => {
                return (root_state, false);
            },
        };
        let kept = self.settle(branch, &marks);
        (back, kept)
    }
}

} // verus!
