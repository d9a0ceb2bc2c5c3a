//! The search tree: positions, the moves tried in them and what came of it.

use crate::float32::Float32;
use crate::mcts::chance::{lemma_weight_sum_grows, picked, picked_from, weight_of, weight_sum};
use crate::mcts::moves::{
    all_untried, balanced, credit, credited, fresh_options, lemma_credit_keeps_balance, lemma_room,
    lemma_untried_sums, most_score, options_wf, rest, rest_of, MoveChoice, MoveNode, StateInstructions, CERTAIN,
    SCORE_ONE,
};
use vstd::prelude::*;

verus! {

pub const TERMINAL_UNKNOWN: i8 = 0;

pub const TERMINAL_SIDE_ONE_WIN: i8 = 1;

pub const TERMINAL_SIDE_TWO_WIN: i8 = -1;

pub const TERMINAL_NONTERMINAL: i8 = 2;

/// What is remembered of a battle result: zero is an open battle, minus one
/// a win of side two, anything else a win of side one.
pub open spec fn terminal_of(result: i8) -> i8 {
    if result == 0 {
        TERMINAL_NONTERMINAL
    } else if result == -1 {
        TERMINAL_SIDE_TWO_WIN
    } else {
        TERMINAL_SIDE_ONE_WIN
    }
}

pub fn terminal_result_from_battle_result(result: i8) -> (r: i8)
    ensures
        r == terminal_of(result),
{
    if result == 0 {
        TERMINAL_NONTERMINAL
    } else if result == -1 {
        TERMINAL_SIDE_TWO_WIN
    } else {
        TERMINAL_SIDE_ONE_WIN
    }
}

/// Side one's score of a battle that is over.
pub open spec fn score_of_terminal(result: i8) -> Option<u64> {
    if result == TERMINAL_SIDE_ONE_WIN {
        Some(SCORE_ONE)
    } else if result == TERMINAL_SIDE_TWO_WIN {
        Some(0)
    } else {
        None
    }
}

pub fn terminal_score_from_cached_result(result: i8) -> (r: Option<u64>)
    ensures
        r == score_of_terminal(result),
{
    if result == TERMINAL_SIDE_ONE_WIN {
        Some(SCORE_ONE)
    } else if result == TERMINAL_SIDE_TWO_WIN {
        Some(0)
    } else {
        None
    }
}

/// The outcomes of one pair of moves. Where all of them end the battle, the
/// expected score stands in for them.
#[derive(Debug)]
pub struct ChildBranch {
    pub key: u32,
    pub nodes: Vec<Node>,
    pub terminal_score: Option<u64>,
}

/// A position in the tree.
#[derive(Debug)]
pub struct Node {
    pub root: bool,
    pub times_visited: u64,
    /// What led here from the position above, and by which moves.
    pub instructions: StateInstructions,
    pub s1_choice: u8,
    pub s2_choice: u8,
    /// Statistics of each side's moves, kept apart from each other.
    pub s1_options: Option<Vec<MoveNode>>,
    pub s2_options: Option<Vec<MoveNode>>,
    /// The pairs of moves that were expanded.
    pub children: Vec<ChildBranch>,
    /// Whether the battle is over here, as far as that was looked up.
    pub terminal_result: i8,
}

/// The key of a pair of moves.
pub open spec fn pair_key(s1: int, s2: int, s2_len: int) -> int {
    s1 * s2_len + s2
}

/// How likely the outcomes are.
pub open spec fn percentages(nodes: Seq<Node>) -> Seq<i64> {
    Seq::new(nodes.len(), |j: int| nodes[j].instructions.percentage)
}

/// All outcomes' weights together.
pub open spec fn total_weight(nodes: Seq<Node>) -> int {
    weight_sum(percentages(nodes), nodes.len() as int)
}

impl ChildBranch {
    /// Whether this is a possible branch below a node with so many options:
    /// its key names a pair of moves, some outcome can happen, and every
    /// outcome remembers the pair. No outcome was met more than `cap` times.
    pub open spec fn fits(self, s1_len: int, s2_len: int, cap: int) -> bool {
        &&& 0 <= self.key < s1_len * s2_len
        &&& self.nodes@.len() > 0
        &&& total_weight(self.nodes@) > 0
        &&& self.terminal_score matches Some(x) ==> x <= SCORE_ONE
        &&& forall|j: int|
            0 <= j < self.nodes@.len() ==> {
                let child = #[trigger] self.nodes@[j];
                !child.root && child.times_visited <= cap && self.key == pair_key(
                    child.s1_choice as int,
                    child.s2_choice as int,
                    s2_len,
                ) && child.s1_choice < s1_len && child.s2_choice < s2_len
            }
    }
}

impl Node {
    /// The statistics of side one's moves.
    pub open spec fn s1(self) -> Seq<MoveNode> {
        self.s1_options->0@
    }

    /// The statistics of side two's moves.
    pub open spec fn s2(self) -> Seq<MoveNode> {
        self.s2_options->0@
    }

    /// Whether the moves of both sides are known here.
    pub open spec fn open(self) -> bool {
        self.s1_options is Some && self.s2_options is Some
    }

    /// Whether a branch is that of the pair in which neither side moves.
    pub open spec fn idle(self, branch: ChildBranch) -> bool {
        let first = branch.nodes@[0];
        self.s1()[first.s1_choice as int].move_choice == MoveChoice::NoMove
            && self.s2()[first.s2_choice as int].move_choice == MoveChoice::NoMove
    }

    /// What holds of a node by itself.
    pub open spec fn own_wf(self) -> bool {
        self.own_wf_within(self.times_visited as int)
    }

    /// What holds of a node by itself, where no outcome below it was met
    /// more than `cap` times.
    pub open spec fn own_wf_within(self, cap: int) -> bool {
        &&& self.s1_options is Some <==> self.s2_options is Some
        &&& !self.open() ==> self.children@.len() == 0
        &&& self.open() ==> {
            &&& options_wf(self.s1(), self.times_visited as int)
            &&& options_wf(self.s2(), self.times_visited as int)
            &&& balanced(self.s1(), self.s2())
            &&& forall|b: int|
                0 <= b < self.children@.len() ==> (#[trigger] self.children@[b]).fits(
                    self.s1().len() as int,
                    self.s2().len() as int,
                    cap,
                )
            &&& forall|b: int, c: int|
                0 <= b < c < self.children@.len() ==> (#[trigger] self.children@[b]).key != (
                #[trigger] self.children@[c]).key
            &&& forall|b: int|
                0 <= b < self.children@.len() ==> !self.idle(#[trigger] self.children@[b])
        }
        &&& self.terminal_result == TERMINAL_UNKNOWN || self.terminal_result
            == TERMINAL_SIDE_ONE_WIN || self.terminal_result == TERMINAL_SIDE_TWO_WIN
            || self.terminal_result == TERMINAL_NONTERMINAL
    }

    /// What holds of a node and everything below it.
    pub open spec fn wf(self) -> bool
        decreases self,
    {
        &&& self.own_wf()
        &&& forall|b: int, j: int|
            0 <= b < self.children@.len() && 0 <= j < self.children@[b].nodes@.len() ==> (
            #[trigger] self.children@[b].nodes@[j]).wf()
    }

    /// What holds of a node below which one more visit was just counted.
    pub open spec fn wf_ahead(self) -> bool {
        &&& self.own_wf_within(self.times_visited + 1)
        &&& forall|b: int, j: int|
            0 <= b < self.children@.len() && 0 <= j < self.children@[b].nodes@.len() ==> (
            #[trigger] self.children@[b].nodes@[j]).wf()
    }

    /// Counts one more visit.
    pub fn backpropagate(&mut self)
        requires
            old(self).wf_ahead(),
            old(self).times_visited < u64::MAX,
        ensures
            final(self).wf(),
            final(self).times_visited == old(self).times_visited + 1,
            final(self).root == old(self).root,
            final(self).instructions == old(self).instructions,
            final(self).s1_choice == old(self).s1_choice,
            final(self).s2_choice == old(self).s2_choice,
            final(self).s1_options == old(self).s1_options,
            final(self).s2_options == old(self).s2_options,
            final(self).children == old(self).children,
            final(self).terminal_result == old(self).terminal_result,
    {
        self.times_visited = self.times_visited + 1;
        proof {
            if self.open() {
                lemma_more_room(self.s1(), self.times_visited - 1);
                lemma_more_room(self.s2(), self.times_visited - 1);
            }
        }
    }

    /// Counts one more visit, in which a pair of moves brought side one
    /// `score` and side two the rest of a win.
    pub fn backpropagate_pair(&mut self, score: u64, s1_move_index: usize, s2_move_index: usize)
        requires
            old(self).wf_ahead(),
            old(self).times_visited < u64::MAX,
            old(self).open(),
            s1_move_index < old(self).s1().len(),
            s2_move_index < old(self).s2().len(),
            score <= SCORE_ONE,
        ensures
            final(self).wf(),
            final(self).times_visited == old(self).times_visited + 1,
            final(self).root == old(self).root,
            final(self).instructions == old(self).instructions,
            final(self).s1_choice == old(self).s1_choice,
            final(self).s2_choice == old(self).s2_choice,
            final(self).open(),
            final(self).s1() == credited(old(self).s1(), s1_move_index as int, score as int),
            final(self).s2() == credited(
                old(self).s2(),
                s2_move_index as int,
                rest_of(score as int),
            ),
            final(self).children == old(self).children,
            final(self).terminal_result == old(self).terminal_result,
    {
        proof {
            lemma_room(self.s1(), s1_move_index as int, self.times_visited as int);
            lemma_room(self.s2(), s2_move_index as int, self.times_visited as int);
            lemma_credit_keeps_balance(
                self.s1(),
                self.s2(),
                s1_move_index as int,
                s2_move_index as int,
                score as int,
                self.times_visited as int,
            );
        }
        self.times_visited = self.times_visited + 1;
        if let Some(options) = &mut self.s1_options {
            credit(options, s1_move_index, score);
        }
        if let Some(options) = &mut self.s2_options {
            credit(options, s2_move_index, rest(score));
        }
        assert forall|b: int| 0 <= b < self.children@.len() implies !self.idle(
            #[trigger] self.children@[b],
        ) by {
            assert(!old(self).idle(old(self).children@[b]));
            assert(self.children@[b].fits(
                self.s1().len() as int,
                self.s2().len() as int,
                self.times_visited as int,
            ));
            assert(!self.children@[b].nodes@[0].root);
        }
    }

    /// A node of which nothing is known but what led to it.
    pub open spec fn unvisited(self) -> bool {
        &&& !self.root
        &&& self.times_visited == 0
        &&& self.s1_options is None
        &&& self.s2_options is None
        &&& self.children@.len() == 0
        &&& self.terminal_result == TERMINAL_UNKNOWN
    }

    /// A node that was reached by a pair of moves and one of its outcomes.
    pub fn new(instructions: StateInstructions, s1_choice: u8, s2_choice: u8) -> (r: Node)
        ensures
            r.unvisited(),
            r.wf(),
            r.instructions == instructions,
            r.s1_choice == s1_choice,
            r.s2_choice == s2_choice,
    {
        Node {
            root: false,
            times_visited: 0,
            instructions,
            s1_choice,
            s2_choice,
            s1_options: None,
            s2_options: None,
            children: Vec::new(),
            terminal_result: TERMINAL_UNKNOWN,
        }
    }

    /// The root of a search with the moves that the two sides have.
    pub fn new_root(s1_options: &Vec<MoveChoice>, s2_options: &Vec<MoveChoice>) -> (r: Node)
        requires
            1 <= s1_options@.len() <= 255,
            1 <= s2_options@.len() <= 255,
        ensures
            r.wf(),
            r.root,
            r.times_visited == 0,
            r.open(),
            r.s1() == all_untried(s1_options@),
            r.s2() == all_untried(s2_options@),
            r.children@.len() == 0,
            r.terminal_result == TERMINAL_UNKNOWN,
            r.instructions.percentage == CERTAIN,
            r.instructions.instruction_list@.len() == 0,
    {
        let mut r = Node::new(
            StateInstructions { percentage: CERTAIN, instruction_list: Vec::new() },
            0,
            0,
        );
        r.root = true;
        r.populate(s1_options, s2_options);
        r
    }

    /// Takes the moves that the two sides have here.
    pub fn populate(&mut self, s1_options: &Vec<MoveChoice>, s2_options: &Vec<MoveChoice>)
        requires
            old(self).wf(),
            !old(self).open(),
            1 <= s1_options@.len() <= 255,
            1 <= s2_options@.len() <= 255,
        ensures
            final(self).wf(),
            final(self).open(),
            final(self).s1() == all_untried(s1_options@),
            final(self).s2() == all_untried(s2_options@),
            final(self).root == old(self).root,
            final(self).times_visited == old(self).times_visited,
            final(self).instructions == old(self).instructions,
            final(self).s1_choice == old(self).s1_choice,
            final(self).s2_choice == old(self).s2_choice,
            final(self).children == old(self).children,
            final(self).terminal_result == old(self).terminal_result,
    {
        self.s1_options = Some(fresh_options(s1_options));
        self.s2_options = Some(fresh_options(s2_options));
        proof {
            lemma_untried_sums(s1_options@, s1_options@.len() as int);
            lemma_untried_sums(s2_options@, s2_options@.len() as int);
        }
    }
}

proof fn lemma_more_room(options: Seq<MoveNode>, cap: int)
    requires
        options_wf(options, cap),
    ensures
        options_wf(options, cap + 1),
{
    assert forall|i: int| 0 <= i < options.len() implies (#[trigger] options[i]).visits <= cap + 1
        && options[i].total_score <= most_score(options[i].visits as int) by {
        assert(options[i].visits <= cap);
    }
}

/// The value that an untried option is ranked with: positive infinity.
pub const UNTRIED_RANK: u32 = 0x7f80_0000;

/// The least finite value, which every rank has to be above to be chosen.
pub const LEAST_RANK: u32 = 0xff7f_ffff;

/// How a tried option is ranked: by its total score, how often it was tried,
/// how often the node was visited, and the exploration constant.
pub type RankFn = spec_fn(u128, u64, u64, Float32) -> Float32;

/// The rank of an option. One that was not tried comes before all others.
pub open spec fn rank_of(
    option: MoveNode,
    parent_visits: u64,
    exploration: Float32,
    calc: RankFn,
) -> Float32 {
    if option.visits == 0 {
        Float32 { bits: UNTRIED_RANK }
    } else {
        calc(option.total_score, option.visits, parent_visits, exploration)
    }
}

/// The option with the best rank among the first `n`, and its rank: a later
/// one has to be above the best so far.
pub open spec fn best_ranked(
    options: Seq<MoveNode>,
    parent_visits: u64,
    exploration: Float32,
    calc: RankFn,
    n: int,
) -> (int, Float32)
    decreases n,
{
    if n <= 0 {
        (0, Float32 { bits: LEAST_RANK })
    } else {
        let best = best_ranked(options, parent_visits, exploration, calc, n - 1);
        let rank = rank_of(options[n - 1], parent_visits, exploration, calc);
        if best.1.below(rank) {
            (n - 1, rank)
        } else {
            best
        }
    }
}

/// The option that is tried next.
pub open spec fn best_option(
    options: Seq<MoveNode>,
    parent_visits: u64,
    exploration: Float32,
    calc: RankFn,
) -> int {
    best_ranked(options, parent_visits, exploration, calc, options.len() as int).0
}

/// Whether the executable ranking `rank` takes every option.
pub open spec fn ranks_all<U: Fn(u128, u64, u64, Float32) -> Float32>(rank: U) -> bool {
    forall|t: u128, v: u64, p: u64, c: Float32| #[trigger] rank.requires((t, v, p, c))
}

/// Whether the executable ranking `rank` computes `calc`.
pub open spec fn ranks_as<U: Fn(u128, u64, u64, Float32) -> Float32>(
    rank: U,
    calc: RankFn,
) -> bool {
    forall|t: u128, v: u64, p: u64, c: Float32, r: Float32| #[trigger]
        rank.ensures((t, v, p, c), r) ==> r == calc(t, v, p, c)
}

impl Node {
    /// The option of a side to try next in this node.
    pub fn maximize_ucb_for_side<U: Fn(u128, u64, u64, Float32) -> Float32>(
        &self,
        side_map: &Vec<MoveNode>,
        exploration: Float32,
        rank: &U,
    ) -> (r: usize)
        requires
            ranks_all(*rank),
            side_map@.len() > 0,
        ensures
            r < side_map@.len(),
            forall|calc: RankFn|
                ranks_as(*rank, calc) ==> r == #[trigger] best_option(
                    side_map@,
                    self.times_visited,
                    exploration,
                    calc,
                ),
    {
        let mut choice: usize = 0;
        let mut best = Float32 { bits: LEAST_RANK };
        let mut i: usize = 0;
        while i < side_map.len()
            invariant
                i <= side_map.len(),
                side_map@.len() > 0,
                choice < side_map@.len(),
                ranks_all(*rank),
                forall|calc: RankFn|
                    ranks_as(*rank, calc) ==> (choice as int, best) == #[trigger] best_ranked(
                        side_map@,
                        self.times_visited,
                        exploration,
                        calc,
                        i as int,
                    ),
            decreases side_map.len() - i,
        {
            let option = side_map[i];
            let this = if option.visits == 0 {
                Float32 { bits: UNTRIED_RANK }
            } else {
                rank(option.total_score, option.visits, self.times_visited, exploration)
            };
            let ghost before = (choice as int, best);
            let ghost index = i as int;
            let better = best.is_below(&this);
            if better {
                best = this;
                choice = i;
            }
            proof {
                assert forall|calc: RankFn| ranks_as(*rank, calc) implies (choice as int, best)
                    == #[trigger] best_ranked(
                    side_map@,
                    self.times_visited,
                    exploration,
                    calc,
                    index + 1,
                ) by {
                    assert(before == best_ranked(side_map@, self.times_visited, exploration, calc, index));
                    assert(this == rank_of(option, self.times_visited, exploration, calc));
                }
            }
            i = i + 1;
        }
        choice
    }
}

/// Where the branch of a key is, among those from `from` on.
pub open spec fn branch_position(children: Seq<ChildBranch>, key: u32, from: int) -> Option<int>
    decreases children.len() - from,
{
    if from >= children.len() {
        None
    } else if children[from].key == key {
        Some(from)
    } else {
        branch_position(children, key, from + 1)
    }
}

pub fn find_branch(children: &Vec<ChildBranch>, key: u32) -> (r: Option<usize>)
    ensures
        match r {
            Some(b) => branch_position(children@, key, 0) == Some(b as int) && b < children@.len()
                && children@[b as int].key == key,
            None => branch_position(children@, key, 0) is None && forall|b: int|
                0 <= b < children@.len() ==> (#[trigger] children@[b]).key != key,
        },
{
    let mut i: usize = 0;
    while i < children.len()
        invariant
            i <= children.len(),
            branch_position(children@, key, 0) == branch_position(children@, key, i as int),
            forall|b: int| 0 <= b < i ==> (#[trigger] children@[b]).key != key,
        decreases children.len() - i,
    {
        if children[i].key == key {
            return Some(i);
        }
        i = i + 1;
    }
    None
}

/// All outcomes' weights together.
pub fn weigh(nodes: &Vec<Node>) -> (r: u128)
    ensures
        r == total_weight(nodes@),
        r < u128::MAX,
{
    let mut total: u128 = 0;
    let mut i: usize = 0;
    while i < nodes.len()
        invariant
            i <= nodes.len(),
            total == weight_sum(percentages(nodes@), i as int),
            total < u128::MAX,
        decreases nodes.len() - i,
    {
        proof {
            lemma_weight_sum_grows(percentages(nodes@), 0, i as int);
            assert(i * i64::MAX <= 0xffff_ffff_ffff_ffff * 0x7fff_ffff_ffff_ffff)
                by (nonlinear_arith)
                requires
                    0 <= i <= 0xffff_ffff_ffff_ffff,
                    i64::MAX == 0x7fff_ffff_ffff_ffff,
            ;
        }
        total = total + weight_of(nodes[i].instructions.percentage);
        i = i + 1;
    }
    total
}

/// The outcome that a threshold picks.
pub fn sample_node(nodes: &Vec<Node>, threshold: u128) -> (r: usize)
    requires
        nodes@.len() > 0,
    ensures
        r == picked(percentages(nodes@), threshold as int),
        r < nodes@.len(),
{
    let mut reached: u128 = 0;
    let mut i: usize = 0;
    while i < nodes.len()
        invariant
            i <= nodes.len(),
            nodes@.len() > 0,
            reached == weight_sum(percentages(nodes@), i as int),
            picked(percentages(nodes@), threshold as int) == picked_from(
                percentages(nodes@),
                threshold as int,
                i as int,
            ),
        decreases nodes.len() - i,
    {
        proof {
            lemma_weight_sum_grows(percentages(nodes@), 0, i as int);
            assert(i * i64::MAX <= 0xffff_ffff_ffff_ffff * 0x7fff_ffff_ffff_ffff)
                by (nonlinear_arith)
                requires
                    0 <= i <= 0xffff_ffff_ffff_ffff,
                    i64::MAX == 0x7fff_ffff_ffff_ffff,
            ;
        }
        reached = reached + weight_of(nodes[i].instructions.percentage);
        if reached >= threshold {
            return i;
        }
        i = i + 1;
    }
    nodes.len() - 1
}

} // verus!
