//! The shared tree. Every method is one step of a worker; workers take turns
//! with the tree and may be at different places of it.

use crate::float32::Float32;
use crate::mcts::chance::{
    draw_threshold, drawn, gives, lemma_weight_sum_grows, picked, picked_from, weight_of, weight_sum,
};
use crate::mcts::moves::{
    rest, rest_of, Instruction, MoveChoice, StateInstructions, CERTAIN, SCORE_ONE,
};
use crate::mcts::node::{LEAST_RANK, UNTRIED_RANK};
use crate::mcts::perform::{countable, MctsResult, MctsSideResult};
use crate::mcts::size::{
    branch_bytes, capped, count_branch_bytes, room_for, MCTS_MAX_TREE_BYTES, MCTS_NODE_OVERHEAD,
};
use crate::rounding::{
    lemma_double_is_rounded, lemma_rounding_keeps_bounds, nearest_double, nearest_single,
    round_quotient, DOUBLE_RANGE, SINGLE_RANGE,
};
use crate::shared::map::{branches, empty_map, get_or_insert, look_up};
use dashmap::DashMap;
use rand::rngs::SmallRng;
use vstd::arithmetic::power2::{lemma2_to64_rest, pow2};
use vstd::layout::size_of;
use vstd::prelude::*;

verus! {

/// How far down outcomes are split by damage roll.
pub const MCTS_DAMAGE_BRANCH_DEPTH: u8 = 2;

/// How many parts a win is counted in.
pub const SCORE_SCALE: u64 = 400;

/// How many lost visits a worker claims while it is under way.
pub const VIRTUAL_LOSS_VISITS: u64 = 3;

/// How many pairs of moves the map has room for at first.
pub const MAP_CAPACITY: usize = 65536;

/// What is known of one move. Scores are in parts of a win.
#[derive(Clone, Copy, Debug, PartialEq, Eq, Structural)]
pub struct MoveNode {
    pub move_choice: MoveChoice,
    pub total_score: u64,
    pub visits: u64,
}

/// The number of parts of a win that is nearest to a score, times the parts
/// in single precision.
pub open spec fn parts_of(score: int) -> int {
    (nearest_single(score * SCORE_SCALE, 1) + SCORE_ONE / 2) / SCORE_ONE as int
}

/// No score is more parts than a win.
pub proof fn lemma_parts(score: int)
    requires
        0 <= score <= SCORE_ONE,
    ensures
        0 <= parts_of(score) <= SCORE_SCALE,
        0 <= nearest_single(score * SCORE_SCALE, 1) <= SCORE_SCALE * SCORE_ONE,
{
    lemma2_to64_rest();
    assert(pow2(48) == 0x1_0000_0000_0000);
    lemma_rounding_keeps_bounds(
        score * SCORE_SCALE,
        1,
        SCORE_SCALE * SCORE_ONE,
        48,
        SINGLE_RANGE as int,
    );
    let sum = nearest_single(score * SCORE_SCALE, 1) + SCORE_ONE / 2;
    assert(0 <= sum / (SCORE_ONE as int) <= SCORE_SCALE) by (nonlinear_arith)
        requires
            0 <= sum <= SCORE_SCALE * SCORE_ONE + SCORE_ONE / 2,
            SCORE_ONE == 0x8000_0000_0000_0000u64,
            SCORE_SCALE == 400,
    ;
}

pub fn parts(score: u64) -> (r: u64)
    requires
        score <= SCORE_ONE,
    ensures
        r == parts_of(score as int),
        r <= SCORE_SCALE,
{
    proof {
        lemma_parts(score as int);
    }
    let product: u128 = round_quotient(
        score as u128 * SCORE_SCALE as u128,
        1,
        SINGLE_RANGE,
    );
    let sum: u128 = product + (SCORE_ONE / 2) as u128;
    (sum / SCORE_ONE as u128) as u64
}

impl MoveNode {
    /// The move while one more worker is under way with it.
    pub open spec fn held(self) -> MoveNode {
        MoveNode { visits: self.visits.wrapping_add(VIRTUAL_LOSS_VISITS), ..self }
    }

    /// The move after one worker less is under way with it.
    pub open spec fn released(self) -> MoveNode {
        MoveNode { visits: self.visits.wrapping_sub(VIRTUAL_LOSS_VISITS), ..self }
    }

    /// The move after it brought `score`.
    pub open spec fn credited(self, score: int) -> MoveNode {
        MoveNode {
            total_score: self.total_score.wrapping_add(parts_of(score) as u64),
            visits: self.visits.wrapping_add(1),
            ..self
        }
    }

    pub fn new(move_choice: MoveChoice) -> (r: MoveNode)
        ensures
            r == (MoveNode { move_choice, total_score: 0, visits: 0 }),
    {
        MoveNode { move_choice, total_score: 0, visits: 0 }
    }

    pub fn add_virtual_loss(&mut self)
        ensures
            *final(self) == old(self).held(),
    {
        self.visits = self.visits.wrapping_add(VIRTUAL_LOSS_VISITS);
    }

    pub fn remove_virtual_loss(&mut self)
        ensures
            *final(self) == old(self).released(),
    {
        self.visits = self.visits.wrapping_sub(VIRTUAL_LOSS_VISITS);
    }

    pub fn add_result(&mut self, score: u64)
        requires
            score <= SCORE_ONE,
        ensures
            *final(self) == old(self).credited(score as int),
    {
        self.total_score = self.total_score.wrapping_add(parts(score));
        self.visits = self.visits.wrapping_add(1);
    }
}

/// The moves of both sides.
#[derive(Debug)]
pub struct SharedNodeOptions {
    pub s1: Vec<MoveNode>,
    pub s2: Vec<MoveNode>,
}

/// A position in the shared tree.
#[derive(Debug)]
pub struct Node {
    pub root: bool,
    pub instructions: StateInstructions,
    pub depth: u8,
    pub times_visited: u64,
    pub virtual_losses: i8,
    pub options: Option<SharedNodeOptions>,
}

/// What a position holds.
#[verifier::ext_equal]
pub struct NodeView {
    pub root: bool,
    pub percentage: i64,
    pub list: Seq<Instruction>,
    pub depth: u8,
    pub times_visited: u64,
    pub virtual_losses: i8,
    pub known: bool,
    pub s1: Seq<MoveNode>,
    pub s2: Seq<MoveNode>,
}

impl View for Node {
    type V = NodeView;

    open spec fn view(&self) -> NodeView {
        NodeView {
            root: self.root,
            percentage: self.instructions.percentage,
            list: self.instructions.instruction_list@,
            depth: self.depth,
            times_visited: self.times_visited,
            virtual_losses: self.virtual_losses,
            known: self.options is Some,
            s1: match self.options {
                Some(o) => o.s1@,
                None => Seq::empty(),
            },
            s2: match self.options {
                Some(o) => o.s2@,
                None => Seq::empty(),
            },
        }
    }
}

/// A move that was not tried.
pub open spec fn untried(choice: MoveChoice) -> MoveNode {
    MoveNode { move_choice: choice, total_score: 0, visits: 0 }
}

/// Moves of which none was tried.
pub open spec fn all_untried(choices: Seq<MoveChoice>) -> Seq<MoveNode> {
    Seq::new(choices.len(), |i: int| untried(choices[i]))
}

/// One step of a worker's way down.
#[derive(Clone, Copy, Debug, PartialEq, Eq, Structural)]
pub struct PathStep {
    pub parent: usize,
    pub child: usize,
    pub s1_index: usize,
    pub s2_index: usize,
}

/// The outcomes of a pair of moves: where they start, and how many there are.
#[derive(Clone, Copy, Debug, PartialEq, Eq, Structural)]
pub struct SharedBranch {
    pub first: usize,
    pub count: usize,
}

/// A tree that workers search together.
pub struct SharedTree {
    nodes: Vec<Node>,
    children: DashMap<(usize, usize, usize), (usize, usize)>,
    tree_bytes: u64,
    started_iterations: u64,
}

impl SharedTree {
    /// The positions, the root first.
    pub closed spec fn seen(self) -> Seq<NodeView> {
        Seq::new(self.nodes@.len(), |i: int| self.nodes@[i]@)
    }

    /// The expanded pairs of moves.
    pub closed spec fn expanded(self) -> Map<(usize, usize, usize), (usize, usize)> {
        branches(self.children)
    }

    /// About how many bytes the tree takes.
    pub closed spec fn bytes(self) -> u64 {
        self.tree_bytes
    }

    /// How many iterations were started.
    pub closed spec fn started(self) -> u64 {
        self.started_iterations
    }

    /// There is a root, known moves are some, and every expanded pair names
    /// known moves and outcomes that are there, behind the position.
    pub open spec fn wf(self) -> bool {
        &&& self.seen().len() > 0
        &&& self.seen().len() <= usize::MAX
        &&& self.seen()[0].root
        &&& forall|n: int|
            0 <= n < self.seen().len() && (#[trigger] self.seen()[n]).known
                ==> self.seen()[n].s1.len() > 0 && self.seen()[n].s2.len() > 0
        &&& forall|k: (usize, usize, usize)| #[trigger]
            self.expanded().contains_key(k) ==> {
                &&& k.0 < self.seen().len()
                &&& self.seen()[k.0 as int].known
                &&& k.1 < self.seen()[k.0 as int].s1.len()
                &&& k.2 < self.seen()[k.0 as int].s2.len()
                &&& self.expanded()[k].1 > 0
                &&& k.0 < self.expanded()[k].0
                &&& self.expanded()[k].0 + self.expanded()[k].1 <= self.seen().len()
            }
    }

    /// Whether `n` is a position whose moves are known, and `i` and `j` are
    /// among them.
    pub open spec fn offers(self, n: int, i: int, j: int) -> bool {
        &&& 0 <= n < self.seen().len()
        &&& self.seen()[n].known
        &&& 0 <= i < self.seen()[n].s1.len()
        &&& 0 <= j < self.seen()[n].s2.len()
    }

    /// Whether nothing but the positions differs.
    pub open spec fn same_shape(self, other: SharedTree) -> bool {
        &&& self.expanded() == other.expanded()
        &&& self.bytes() == other.bytes()
        &&& self.started() == other.started()
    }
}

fn fresh(choices: &Vec<MoveChoice>) -> (r: Vec<MoveNode>)
    ensures
        r@ == all_untried(choices@),
{
    let mut r: Vec<MoveNode> = Vec::new();
    let mut i: usize = 0;
    while i < choices.len()
        invariant
            i <= choices.len(),
            r@ == all_untried(choices@).take(i as int),
        decreases choices.len() - i,
    {
        r.push(MoveNode::new(choices[i]));
        i = i + 1;
        assert(r@ =~= all_untried(choices@).take(i as int));
    }
    assert(r@ =~= all_untried(choices@));
    r
}

/// How many times a position counts as visited for ranking its moves: its
/// visits and the workers under way below it, and at least one.
pub open spec fn parent_visits(node: NodeView) -> u64 {
    let under_way = if node.virtual_losses > 0 {
        node.virtual_losses as int
    } else {
        0
    };
    let sum = node.times_visited + under_way;
    if sum > u64::MAX {
        u64::MAX
    } else if sum < 1 {
        1
    } else {
        sum as u64
    }
}

/// How a tried move is ranked: by its total score, its visits, and the
/// visits of the position.
pub type RankFn = spec_fn(u64, u64, u64) -> Float32;

/// Whether the executable ranking `rank` takes every move.
pub open spec fn ranks_all<U: Fn(u64, u64, u64) -> Float32>(rank: U) -> bool {
    forall|t: u64, v: u64, p: u64| #[trigger] rank.requires((t, v, p))
}

/// Whether the executable ranking `rank` computes `calc`.
pub open spec fn ranks_as<U: Fn(u64, u64, u64) -> Float32>(rank: U, calc: RankFn) -> bool {
    forall|t: u64, v: u64, p: u64, r: Float32| #[trigger]
        rank.ensures((t, v, p), r) ==> r == calc(t, v, p)
}

/// The rank of a move. One that was not tried comes before all others.
pub open spec fn rank_of(option: MoveNode, visits: u64, calc: RankFn) -> Float32 {
    if option.visits == 0 {
        Float32 { bits: UNTRIED_RANK }
    } else {
        calc(option.total_score, option.visits, visits)
    }
}

/// The best ranked of the first `n` moves, and its rank.
pub open spec fn best_ranked(options: Seq<MoveNode>, visits: u64, calc: RankFn, n: int) -> (
    int,
    Float32,
)
    decreases n,
{
    if n <= 0 {
        (0, Float32 { bits: LEAST_RANK })
    } else {
        let best = best_ranked(options, visits, calc, n - 1);
        let rank = rank_of(options[n - 1], visits, calc);
        if best.1.below(rank) {
            (n - 1, rank)
        } else {
            best
        }
    }
}

pub fn maximize_ucb_for_side<U: Fn(u64, u64, u64) -> Float32>(
    side_options: &Vec<MoveNode>,
    visits: u64,
    rank: &U,
) -> (r: usize)
    requires
        ranks_all(*rank),
        side_options@.len() > 0,
    ensures
        r < side_options@.len(),
        forall|calc: RankFn|
            ranks_as(*rank, calc) ==> r == (#[trigger] best_ranked(
                side_options@,
                visits,
                calc,
                side_options@.len() as int,
            )).0,
{
    let mut choice: usize = 0;
    let mut best = Float32 { bits: LEAST_RANK };
    let mut i: usize = 0;
    while i < side_options.len()
        invariant
            i <= side_options.len(),
            side_options@.len() > 0,
            choice < side_options@.len(),
            ranks_all(*rank),
            forall|calc: RankFn|
                ranks_as(*rank, calc) ==> (choice as int, best) == #[trigger] best_ranked(
                    side_options@,
                    visits,
                    calc,
                    i as int,
                ),
        decreases side_options.len() - i,
    {
        let option = side_options[i];
        let this = if option.visits == 0 {
            Float32 { bits: UNTRIED_RANK }
        } else {
            rank(option.total_score, option.visits, visits)
        };
        let ghost before = (choice as int, best);
        let ghost index = i as int;
        if best.is_below(&this) {
            best = this;
            choice = i;
        }
        proof {
            assert forall|calc: RankFn| ranks_as(*rank, calc) implies (choice as int, best)
                == #[trigger] best_ranked(side_options@, visits, calc, index + 1) by {
                assert(before == best_ranked(side_options@, visits, calc, index));
                assert(this == rank_of(option, visits, calc));
            }
        }
        i = i + 1;
    }
    choice
}

/// The best ranked pair of moves of a position.
pub open spec fn best_pair(v: NodeView, calc: RankFn) -> (int, int) {
    (
        best_ranked(v.s1, parent_visits(v), calc, v.s1.len() as int).0,
        best_ranked(v.s2, parent_visits(v), calc, v.s2.len() as int).0,
    )
}

/// The positions that outcomes lead to, before anyone was there.
pub open spec fn unvisited(outcomes: Seq<StateInstructions>, depth: u8) -> Seq<NodeView> {
    Seq::new(
        outcomes.len(),
        |k: int|
            NodeView {
                root: false,
                percentage: outcomes[k].percentage,
                list: outcomes[k].instruction_list@,
                depth: if depth < 255 {
                    (depth + 1) as u8
                } else {
                    255
                },
                times_visited: 0,
                virtual_losses: 0,
                known: false,
                s1: Seq::empty(),
                s2: Seq::empty(),
            },
    )
}

/// A position while one more worker is under way with a pair of its moves.
pub open spec fn pair_held(v: NodeView, i: int, j: int) -> NodeView {
    NodeView { s1: v.s1.update(i, v.s1[i].held()), s2: v.s2.update(j, v.s2[j].held()), ..v }
}

/// A position after a worker gave a pair of its moves up.
pub open spec fn pair_released(v: NodeView, i: int, j: int) -> NodeView {
    NodeView { s1: v.s1.update(i, v.s1[i].released()), s2: v.s2.update(j, v.s2[j].released()), ..v }
}

/// A position while one more worker is under way below it.
pub open spec fn arrived(v: NodeView) -> NodeView {
    NodeView { virtual_losses: v.virtual_losses.wrapping_add(1), ..v }
}

/// A position after one worker less is under way below it.
pub open spec fn left(v: NodeView) -> NodeView {
    NodeView { virtual_losses: v.virtual_losses.wrapping_sub(1), ..v }
}

/// A position after a worker came back to it with a result of a pair of its
/// moves: the result is added and the worker's claim withdrawn.
pub open spec fn pair_settled(v: NodeView, i: int, j: int, score: int) -> NodeView {
    NodeView {
        s1: v.s1.update(i, v.s1[i].credited(score).released()),
        s2: v.s2.update(j, v.s2[j].credited(rest_of(score)).released()),
        times_visited: v.times_visited.wrapping_add(1),
        ..v
    }
}

/// A position after one more visit.
pub open spec fn visited(v: NodeView) -> NodeView {
    NodeView { times_visited: v.times_visited.wrapping_add(1), ..v }
}

/// The positions after a worker came back up one step.
pub open spec fn step_settled(seen: Seq<NodeView>, step: PathStep, score: int) -> Seq<NodeView> {
    let above = seen.update(
        step.parent as int,
        pair_settled(
            seen[step.parent as int],
            step.s1_index as int,
            step.s2_index as int,
            score,
        ),
    );
    above.update(step.child as int, left(above[step.child as int]))
}

/// The positions after a worker came back up its whole way, last step first.
pub open spec fn path_settled(seen: Seq<NodeView>, path: Seq<PathStep>, score: int) -> Seq<NodeView>
    decreases path.len(),
{
    if path.len() == 0 {
        seen
    } else {
        path_settled(step_settled(seen, path.last(), score), path.drop_last(), score)
    }
}

/// Whether what is known of a position is kept.
spec fn knowledge_kept(a: NodeView, b: NodeView) -> bool {
    &&& a.root == b.root
    &&& a.known ==> b.known && b.s1.len() == a.s1.len() && b.s2.len() == a.s2.len()
    &&& !a.known && b.known ==> b.s1.len() > 0 && b.s2.len() > 0
}

proof fn lemma_one_position_changed(a: SharedTree, b: SharedTree, n: int, v: NodeView)
    requires
        a.wf(),
        b.expanded() == a.expanded(),
        0 <= n < a.seen().len(),
        b.seen() == a.seen().update(n, v),
        knowledge_kept(a.seen()[n], v),
    ensures
        b.wf(),
        forall|path: Seq<PathStep>| #[trigger] a.goes_through(path) ==> b.goes_through(path),
{
    assert forall|m: int| 0 <= m < b.seen().len() && (#[trigger] b.seen()[m]).known implies b.seen()[m].s1.len()
        > 0 && b.seen()[m].s2.len() > 0 by {
        if m != n {
            assert(b.seen()[m] == a.seen()[m]);
        } else if a.seen()[n].known {
            assert(a.seen()[n].s1.len() > 0);
        }
    }
    assert forall|k: (usize, usize, usize)| #[trigger] b.expanded().contains_key(k) implies {
        &&& k.0 < b.seen().len()
        &&& b.seen()[k.0 as int].known
        &&& k.1 < b.seen()[k.0 as int].s1.len()
        &&& k.2 < b.seen()[k.0 as int].s2.len()
        &&& b.expanded()[k].1 > 0
        &&& k.0 < b.expanded()[k].0
        &&& b.expanded()[k].0 + b.expanded()[k].1 <= b.seen().len()
    } by {
        assert(a.expanded().contains_key(k));
        if k.0 != n {
            assert(b.seen()[k.0 as int] == a.seen()[k.0 as int]);
        }
    }
    assert forall|path: Seq<PathStep>| #[trigger] a.goes_through(path) implies b.goes_through(
        path,
    ) by {
        assert forall|k: int| 0 <= k < path.len() implies b.offers(
            (#[trigger] path[k]).parent as int,
            path[k].s1_index as int,
            path[k].s2_index as int,
        ) && path[k].child < b.seen().len() by {
            assert(a.offers(
                path[k].parent as int,
                path[k].s1_index as int,
                path[k].s2_index as int,
            ));
            if path[k].parent != n {
                assert(b.seen()[path[k].parent as int] == a.seen()[path[k].parent as int]);
            }
        }
    }
}

/// How likely `count` outcomes from position `first` on are.
pub open spec fn percentages_in(seen: Seq<NodeView>, first: int, count: int) -> Seq<i64> {
    Seq::new(count as nat, |k: int| seen[first + k].percentage)
}

/// Whether position `r` can be the one of `count` outcomes from `first` on
/// that comes up: a threshold drawn up to the total weight picks it. The only
/// outcome, or the first where none has any weight, does.
pub open spec fn comes_up(seen: Seq<NodeView>, first: int, count: int, r: int) -> bool {
    let total = weight_sum(percentages_in(seen, first, count), count);
    &&& first <= r < first + count
    &&& if count == 1 || total == 0 {
        r == first
    } else {
        exists|threshold: int|
            drawn(total, threshold) && r == first + #[trigger] picked(
                percentages_in(seen, first, count),
                threshold,
            )
    }
}

/// How many instructions the first `n` outcomes hold.
pub open spec fn outcome_slots(outcomes: Seq<StateInstructions>, n: int) -> int
    decreases n,
{
    if n <= 0 {
        0
    } else {
        outcome_slots(outcomes, n - 1) + outcomes[n - 1].instruction_list@.len()
    }
}

/// The bytes of `count` outcomes whose lists have room for `slots`
/// instructions, as far as they can be counted.
pub open spec fn outcome_bytes(count: int, slots: int) -> int {
    capped(
        branch_bytes(
            count,
            size_of::<Node>() as int,
            slots,
            size_of::<Instruction>() as int,
        ),
    )
}

/// Whether the outcomes of a pair can have brought a count of bytes from
/// `before` to `after`: their lists have room for what they hold, or for
/// more.
pub open spec fn adds_outcomes(before: u64, after: u64, outcomes: Seq<StateInstructions>) -> bool {
    exists|slots: u64|
        capped(outcome_slots(outcomes, outcomes.len() as int)) <= slots && after == capped(
            before + #[trigger] outcome_bytes(outcomes.len() as int, slots as int),
        )
}

proof fn lemma_outcome_slots(outcomes: Seq<StateInstructions>, n: int)
    ensures
        outcome_slots(outcomes, n) >= 0,
    decreases n,
{
    if n > 0 {
        lemma_outcome_slots(outcomes, n - 1);
    }
}

proof fn lemma_more_room_more_bytes(count: int, less: int, more: int)
    requires
        0 <= count,
        0 <= less <= more,
    ensures
        0 <= outcome_bytes(count, less) <= outcome_bytes(count, more),
{
    let each = size_of::<Node>() as int + MCTS_NODE_OVERHEAD;
    let size = size_of::<Instruction>() as int;
    assert(0 <= less * size <= more * size) by (nonlinear_arith)
        requires
            0 <= less <= more,
            0 <= size,
    ;
    assert(0 <= count * each) by (nonlinear_arith)
        requires
            0 <= count,
            0 <= each,
    ;
}

/// New outcomes add at least the bytes of the instructions that they hold.
pub proof fn lemma_outcomes_add_their_bytes(
    before: u64,
    after: u64,
    outcomes: Seq<StateInstructions>,
)
    requires
        adds_outcomes(before, after, outcomes),
    ensures
        after >= before,
        after >= capped(
            before + outcome_bytes(
                outcomes.len() as int,
                capped(outcome_slots(outcomes, outcomes.len() as int)),
            ),
        ),
{
    let n = outcomes.len() as int;
    let least = capped(outcome_slots(outcomes, n));
    let slots = choose|slots: u64|
        least <= slots && after == capped(before + #[trigger] outcome_bytes(n, slots as int));
    lemma_outcome_slots(outcomes, n);
    lemma_more_room_more_bytes(n, least, slots as int);
}

impl SharedTree {
    /// Whether every step of a way is one between positions of the tree, by
    /// moves that are known.
    pub open spec fn goes_through(self, path: Seq<PathStep>) -> bool {
        forall|k: int|
            0 <= k < path.len() ==> self.offers(
                (#[trigger] path[k]).parent as int,
                path[k].s1_index as int,
                path[k].s2_index as int,
            ) && path[k].child < self.seen().len()
    }

    /// A tree of which only the root and its moves are known.
    pub fn new(s1_options: &Vec<MoveChoice>, s2_options: &Vec<MoveChoice>) -> (r: SharedTree)
        requires
            s1_options@.len() > 0,
            s2_options@.len() > 0,
        ensures
            r.wf(),
            r.seen() == seq![
                NodeView {
                    root: true,
                    percentage: CERTAIN,
                    list: Seq::empty(),
                    depth: 0,
                    times_visited: 0,
                    virtual_losses: 0,
                    known: true,
                    s1: all_untried(s1_options@),
                    s2: all_untried(s2_options@),
                },
            ],
            r.expanded().dom() == Set::<(usize, usize, usize)>::empty(),
            r.bytes() == 0,
            r.started() == 0,
    {
        let root = Node {
            root: true,
            instructions: StateInstructions {
                percentage: CERTAIN,
                instruction_list: Vec::new(),
            },
            depth: 0,
            times_visited: 0,
            virtual_losses: 0,
            options: Some(SharedNodeOptions { s1: fresh(s1_options), s2: fresh(s2_options) }),
        };
        let mut nodes: Vec<Node> = Vec::new();
        nodes.push(root);
        let r = SharedTree {
            nodes,
            children: empty_map(MAP_CAPACITY),
            tree_bytes: 0,
            started_iterations: 0,
        };
        assert(r.seen() =~= seq![root@]);
        assert(root@.list =~= Seq::empty());
        assert(r.expanded().dom() =~= Set::<(usize, usize, usize)>::empty());
        r
    }

    /// How many positions there are.
    pub fn size(&self) -> (r: usize)
        ensures
            r == self.seen().len(),
    {
        self.nodes.len()
    }

    /// What led to a position.
    pub fn instructions(&self, n: usize) -> (r: &Vec<Instruction>)
        requires
            n < self.seen().len(),
        ensures
            r@ == self.seen()[n as int].list,
    {
        &self.nodes[n].instructions.instruction_list
    }

    /// Whether the moves of a position are known.
    pub fn has_options(&self, n: usize) -> (r: bool)
        requires
            n < self.seen().len(),
        ensures
            r == self.seen()[n as int].known,
    {
        self.nodes[n].options.is_some()
    }

    /// Takes the moves of a position, unless another worker was faster.
    pub fn ensure_options(&mut self, n: usize, s1: &Vec<MoveChoice>, s2: &Vec<MoveChoice>)
        requires
            old(self).wf(),
            n < old(self).seen().len(),
            s1@.len() > 0,
            s2@.len() > 0,
        ensures
            final(self).wf(),
            final(self).same_shape(*old(self)),
            final(self).seen() == if old(self).seen()[n as int].known {
                old(self).seen()
            } else {
                old(self).seen().update(
                    n as int,
                    NodeView {
                        known: true,
                        s1: all_untried(s1@),
                        s2: all_untried(s2@),
                        ..old(self).seen()[n as int]
                    },
                )
            },
    {
        if self.nodes[n].options.is_none() {
            self.nodes[n].options = Some(SharedNodeOptions { s1: fresh(s1), s2: fresh(s2) });
            assert(self.seen() =~= old(self).seen().update(
                n as int,
                NodeView {
                    known: true,
                    s1: all_untried(s1@),
                    s2: all_untried(s2@),
                    ..old(self).seen()[n as int]
                },
            ));
            proof {
                lemma_one_position_changed(*old(self), *self, n as int, self.seen()[n as int]);
            }
        }
    }

    /// The pair of moves that a worker tries in a position.
    pub fn select_move_pair<U: Fn(u64, u64, u64) -> Float32>(&self, n: usize, rank: &U) -> (r: (
        usize,
        usize,
    ))
        requires
            self.wf(),
            n < self.seen().len(),
            self.seen()[n as int].known,
            ranks_all(*rank),
        ensures
            self.offers(n as int, r.0 as int, r.1 as int),
            forall|calc: RankFn|
                ranks_as(*rank, calc) ==> (r.0 as int, r.1 as int) == #[trigger] best_pair(
                    self.seen()[n as int],
                    calc,
                ),
    {
        let node = &self.nodes[n];
        let under_way: u64 = if node.virtual_losses > 0 {
            node.virtual_losses as u64
        } else {
            0
        };
        let sum: u64 = node.times_visited.saturating_add(under_way);
        let visits: u64 = if sum < 1 {
            1
        } else {
            sum
        };
        assert(self.seen()[n as int] == node@);
        assert(visits == parent_visits(node@));
        let options = node.options.as_ref().unwrap();
        (
            maximize_ucb_for_side(&options.s1, visits, rank),
            maximize_ucb_for_side(&options.s2, visits, rank),
        )
    }

    /// The outcomes of a pair of moves, if it was expanded.
    pub fn find_branch(&self, n: usize, s1_index: usize, s2_index: usize) -> (r: Option<
        SharedBranch,
    >)
        requires
            self.wf(),
        ensures
            match r {
                Some(b) => self.expanded().contains_key((n, s1_index, s2_index))
                    && self.expanded()[(n, s1_index, s2_index)] == (b.first, b.count) && b.count > 0
                    && n < b.first && b.first + b.count <= self.seen().len(),
                None => !self.expanded().contains_key((n, s1_index, s2_index)),
            },
    {
        match look_up(&self.children, (n, s1_index, s2_index)) {
            Some((first, count)) => Some(SharedBranch { first, count }),
            None => None,
        }
    }

    /// How likely the outcomes of a branch are.
    pub open spec fn percentages(self, branch: SharedBranch) -> Seq<i64> {
        percentages_in(self.seen(), branch.first as int, branch.count as int)
    }

    /// All outcomes' weights together.
    pub fn total_weight(&self, branch: SharedBranch) -> (r: u128)
        requires
            branch.first + branch.count <= self.seen().len() <= usize::MAX,
        ensures
            r == weight_sum(self.percentages(branch), branch.count as int),
    {
        let mut total: u128 = 0;
        let mut i: usize = 0;
        while i < branch.count
            invariant
                i <= branch.count,
                branch.first + branch.count <= self.seen().len() <= usize::MAX,
                total == weight_sum(self.percentages(branch), i as int),
            decreases branch.count - i,
        {
            proof {
                lemma_weight_sum_grows(self.percentages(branch), 0, i as int);
                assert(i * i64::MAX <= 0xffff_ffff_ffff_ffff * 0x7fff_ffff_ffff_ffff)
                    by (nonlinear_arith)
                    requires
                        0 <= i <= 0xffff_ffff_ffff_ffff,
                        i64::MAX == 0x7fff_ffff_ffff_ffff,
                ;
            }
            total = total + weight_of(self.nodes[branch.first + i].instructions.percentage);
            i = i + 1;
        }
        total
    }

    /// The outcome that a threshold picks.
    pub fn sample_at(&self, branch: SharedBranch, threshold: u128) -> (r: usize)
        requires
            branch.count > 0,
            branch.first + branch.count <= self.seen().len() <= usize::MAX,
        ensures
            r == branch.first + picked(self.percentages(branch), threshold as int),
            branch.first <= r < branch.first + branch.count,
    {
        let mut reached: u128 = 0;
        let mut i: usize = 0;
        while i < branch.count
            invariant
                i <= branch.count,
                branch.count > 0,
                branch.first + branch.count <= self.seen().len() <= usize::MAX,
                reached == weight_sum(self.percentages(branch), i as int),
                picked(self.percentages(branch), threshold as int) == picked_from(
                    self.percentages(branch),
                    threshold as int,
                    i as int,
                ),
            decreases branch.count - i,
        {
            proof {
                lemma_weight_sum_grows(self.percentages(branch), 0, i as int);
                assert(i * i64::MAX <= 0xffff_ffff_ffff_ffff * 0x7fff_ffff_ffff_ffff)
                    by (nonlinear_arith)
                    requires
                        0 <= i <= 0xffff_ffff_ffff_ffff,
                        i64::MAX == 0x7fff_ffff_ffff_ffff,
                ;
            }
            reached = reached + weight_of(self.nodes[branch.first + i].instructions.percentage);
            if reached >= threshold {
                return branch.first + i;
            }
            i = i + 1;
        }
        branch.first + (branch.count - 1)
    }

    /// Picks an outcome by chance. The only outcome, or the first where none
    /// can happen, is picked without asking.
    pub fn sample(&self, branch: SharedBranch, rng: &mut SmallRng) -> (r: usize)
        requires
            branch.count > 0,
            branch.first + branch.count <= self.seen().len() <= usize::MAX,
        ensures
            comes_up(self.seen(), branch.first as int, branch.count as int, r as int),
            ({
                let total = weight_sum(self.percentages(branch), branch.count as int);
                if branch.count == 1 || total == 0 {
                    r == branch.first && *final(rng) == *old(rng)
                } else {
                    exists|threshold: int| #[trigger]
                        gives(*old(rng), total + 1, threshold) && r == branch.first + picked(
                            self.percentages(branch),
                            threshold,
                        )
                }
            }),
    {
        let total: u128 = self.total_weight(branch);
        proof {
            lemma_weight_sum_grows(self.percentages(branch), 0, branch.count as int);
        }
        if branch.count <= 1 || total == 0 {
            return branch.first;
        }
        let threshold: u128 = draw_threshold(rng, total);
        self.sample_at(branch, threshold)
    }

    /// Claims a pair of moves for a worker under way.
    pub fn hold_pair(&mut self, n: usize, s1_index: usize, s2_index: usize)
        requires
            old(self).wf(),
            old(self).offers(n as int, s1_index as int, s2_index as int),
        ensures
            final(self).wf(),
            final(self).same_shape(*old(self)),
            final(self).seen() == old(self).seen().update(
                n as int,
                pair_held(old(self).seen()[n as int], s1_index as int, s2_index as int),
            ),
    {
        if let Some(options) = &mut self.nodes[n].options {
            options.s1[s1_index].add_virtual_loss();
            options.s2[s2_index].add_virtual_loss();
        }
        assert(self.seen() =~= old(self).seen().update(
            n as int,
            pair_held(old(self).seen()[n as int], s1_index as int, s2_index as int),
        ));
        proof {
            lemma_one_position_changed(*old(self), *self, n as int, self.seen()[n as int]);
        }
    }

    /// Gives a claimed pair of moves up.
    pub fn release_pair(&mut self, n: usize, s1_index: usize, s2_index: usize)
        requires
            old(self).wf(),
            old(self).offers(n as int, s1_index as int, s2_index as int),
        ensures
            final(self).wf(),
            final(self).same_shape(*old(self)),
            final(self).seen() == old(self).seen().update(
                n as int,
                pair_released(old(self).seen()[n as int], s1_index as int, s2_index as int),
            ),
    {
        if let Some(options) = &mut self.nodes[n].options {
            options.s1[s1_index].remove_virtual_loss();
            options.s2[s2_index].remove_virtual_loss();
        }
        assert(self.seen() =~= old(self).seen().update(
            n as int,
            pair_released(old(self).seen()[n as int], s1_index as int, s2_index as int),
        ));
        proof {
            lemma_one_position_changed(*old(self), *self, n as int, self.seen()[n as int]);
        }
    }

    /// Goes on to an outcome of a claimed pair of moves.
    pub fn enter(&mut self, step: PathStep, path: &mut Vec<PathStep>)
        requires
            old(self).wf(),
            step.child < old(self).seen().len(),
        ensures
            final(self).wf(),
            final(self).same_shape(*old(self)),
            final(self).seen() == old(self).seen().update(
                step.child as int,
                arrived(old(self).seen()[step.child as int]),
            ),
            final(path)@ == old(path)@.push(step),
    {
        self.nodes[step.child].virtual_losses = self.nodes[step.child].virtual_losses.wrapping_add(
            1,
        );
        path.push(step);
        assert(self.seen() =~= old(self).seen().update(
            step.child as int,
            arrived(old(self).seen()[step.child as int]),
        ));
        proof {
            lemma_one_position_changed(
                *old(self),
                *self,
                step.child as int,
                self.seen()[step.child as int],
            );
        }
    }

    /// Whether a pair of moves is worth expanding, and if so what its
    /// outcomes are asked by: the moves, and whether to split by damage
    /// roll. It is not if the battle is over, which the root never counts
    /// as, or if neither side moves.
    pub fn plan_expansion(&self, n: usize, s1_index: usize, s2_index: usize, over: i8) -> (r:
        Option<(MoveChoice, MoveChoice, bool)>)
        requires
            self.offers(n as int, s1_index as int, s2_index as int),
        ensures
            ({
                let v = self.seen()[n as int];
                let m1 = v.s1[s1_index as int].move_choice;
                let m2 = v.s2[s2_index as int].move_choice;
                r == if (over != 0 && !v.root) || (m1 == MoveChoice::NoMove && m2
                    == MoveChoice::NoMove) {
                    None
                } else {
                    Some((m1, m2, v.depth < MCTS_DAMAGE_BRANCH_DEPTH))
                }
            }),
    {
        let node = &self.nodes[n];
        assert(self.seen()[n as int] == node@);
        let options = node.options.as_ref().unwrap();
        let m1 = options.s1[s1_index].move_choice;
        let m2 = options.s2[s2_index].move_choice;
        if (over != 0 && !node.root) || (m1 == MoveChoice::NoMove && m2 == MoveChoice::NoMove) {
            None
        } else {
            Some((m1, m2, node.depth < MCTS_DAMAGE_BRANCH_DEPTH))
        }
    }

    /// Adds the outcomes of a pair of moves, unless another worker was
    /// faster, and gives the ones that are there. Their lists count with the
    /// room that they were given, so only what they hold is certain.
    pub fn add_branch(
        &mut self,
        n: usize,
        s1_index: usize,
        s2_index: usize,
        outcomes: Vec<StateInstructions>,
    ) -> (r: SharedBranch)
        requires
            old(self).wf(),
            old(self).offers(n as int, s1_index as int, s2_index as int),
            outcomes@.len() > 0,
        ensures
            final(self).wf(),
            final(self).started() == old(self).started(),
            r.count > 0,
            r.first + r.count <= final(self).seen().len(),
            final(self).expanded().contains_key((n, s1_index, s2_index)),
            final(self).expanded()[(n, s1_index, s2_index)] == (r.first, r.count),
            old(self).expanded().contains_key((n, s1_index, s2_index)) ==> final(self).seen()
                == old(self).seen() && final(self).expanded() == old(self).expanded()
                && final(self).bytes() == old(self).bytes(),
            !old(self).expanded().contains_key((n, s1_index, s2_index)) ==> final(self).seen()
                == old(self).seen() + unvisited(outcomes@, old(self).seen()[n as int].depth)
                && final(self).expanded() == old(self).expanded().insert(
                (n, s1_index, s2_index),
                (r.first, r.count),
            ) && r.first == old(self).seen().len() && r.count == outcomes@.len()
                && adds_outcomes(old(self).bytes(), final(self).bytes(), outcomes@),
            n < r.first,
    {
        let mut slots: u64 = 0;
        let mut i: usize = 0;
        while i < outcomes.len()
            invariant
                i <= outcomes@.len(),
                slots >= capped(outcome_slots(outcomes@, i as int)),
            decreases outcomes@.len() - i,
        {
            slots = slots.saturating_add(room_for(&outcomes[i].instruction_list) as u64);
            i = i + 1;
        }
        self.add_outcomes(n, s1_index, s2_index, outcomes, slots)
    }

    /// Adds the outcomes of a pair of moves, whose lists have room for
    /// `slots` instructions, unless another worker was faster, and gives the
    /// ones that are there.
    pub fn add_outcomes(
        &mut self,
        n: usize,
        s1_index: usize,
        s2_index: usize,
        outcomes: Vec<StateInstructions>,
        slots: u64,
    ) -> (r: SharedBranch)
        requires
            old(self).wf(),
            old(self).offers(n as int, s1_index as int, s2_index as int),
            outcomes@.len() > 0,
        ensures
            final(self).wf(),
            final(self).started() == old(self).started(),
            r.count > 0,
            r.first + r.count <= final(self).seen().len(),
            final(self).expanded().contains_key((n, s1_index, s2_index)),
            final(self).expanded()[(n, s1_index, s2_index)] == (r.first, r.count),
            old(self).expanded().contains_key((n, s1_index, s2_index)) ==> final(self).seen()
                == old(self).seen() && final(self).expanded() == old(self).expanded()
                && final(self).bytes() == old(self).bytes(),
            !old(self).expanded().contains_key((n, s1_index, s2_index)) ==> final(self).seen()
                == old(self).seen() + unvisited(outcomes@, old(self).seen()[n as int].depth)
                && final(self).expanded() == old(self).expanded().insert(
                (n, s1_index, s2_index),
                (r.first, r.count),
            ) && r.first == old(self).seen().len() && r.count == outcomes@.len()
                && final(self).bytes() == capped(
                old(self).bytes() + outcome_bytes(outcomes@.len() as int, slots as int),
            ),
            n < r.first,
    {
        let key = (n, s1_index, s2_index);
        if let Some((first, count)) = look_up(&self.children, key) {
            assert(self.expanded().contains_key(key));
            return SharedBranch { first, count };
        }
        let depth: u8 = self.nodes[n].depth;
        assert(self.seen()[n as int].depth == depth);
        let first: usize = self.nodes.len();
        let count: usize = outcomes.len();
        let ghost start = self.seen();
        let ghost all = unvisited(outcomes@, depth);
        assert(start + all.take(0) =~= start);
        for outcome in it: outcomes
            invariant
                it.seq() == outcomes@,
                all == unvisited(outcomes@, depth),
                self.seen() == start + all.take(it.index() as int),
                self.expanded() == old(self).expanded(),
                self.bytes() == old(self).bytes(),
                self.started() == old(self).started(),
        {
            let ghost before = self.seen();
            let node = Node {
                root: false,
                instructions: outcome,
                depth: depth.saturating_add(1),
                times_visited: 0,
                virtual_losses: 0,
                options: None,
            };
            let ghost view = node@;
            self.nodes.push(node);
            proof {
                assert(self.seen() =~= before.push(view));
                assert(view =~= all[it.index() as int]);
                assert(all.take(it.index() + 1) =~= all.take(it.index() as int).push(view));
                assert(self.seen() =~= start + all.take(it.index() + 1));
            }
        }
        assert(all.take(count as int) =~= all);
        let bytes: u64 = count_branch_bytes(
            count as u64,
            core::mem::size_of::<Node>() as u64,
            slots,
            core::mem::size_of::<Instruction>() as u64,
        );
        self.tree_bytes = self.tree_bytes.saturating_add(bytes);
        let held = get_or_insert(&mut self.children, key, (first, count));
        proof {
            assert(self.nodes.len() == self.seen().len());
            assert forall|m: int|
                0 <= m < self.seen().len() && (#[trigger] self.seen()[m]).known implies self.seen()[m].s1.len()
                > 0 && self.seen()[m].s2.len() > 0 by {
                if m < start.len() {
                    assert(self.seen()[m] == start[m]);
                } else {
                    assert(self.seen()[m] == all[m - start.len()]);
                }
            }
            assert forall|k: (usize, usize, usize)| #[trigger]
                self.expanded().contains_key(k) implies {
                &&& k.0 < self.seen().len()
                &&& self.seen()[k.0 as int].known
                &&& k.1 < self.seen()[k.0 as int].s1.len()
                &&& k.2 < self.seen()[k.0 as int].s2.len()
                &&& self.expanded()[k].1 > 0
                &&& k.0 < self.expanded()[k].0
                &&& self.expanded()[k].0 + self.expanded()[k].1 <= self.seen().len()
            } by {
                if k == key {
                    assert(self.seen()[n as int] == start[n as int]);
                } else {
                    assert(old(self).expanded().contains_key(k));
                    assert(self.seen()[k.0 as int] == start[k.0 as int]);
                }
            }
        }
        SharedBranch { first: held.0, count: held.1 }
    }

    /// Comes back from `leaf` up a whole way with a score.
    pub fn backpropagate(&mut self, path: &Vec<PathStep>, leaf: usize, score: u64)
        requires
            old(self).wf(),
            leaf < old(self).seen().len(),
            old(self).goes_through(path@),
            score <= SCORE_ONE,
        ensures
            final(self).wf(),
            final(self).same_shape(*old(self)),
            final(self).seen() == path_settled(
                old(self).seen().update(leaf as int, visited(old(self).seen()[leaf as int])),
                path@,
                score as int,
            ),
    {
        self.nodes[leaf].times_visited = self.nodes[leaf].times_visited.wrapping_add(1);
        let ghost goal = path_settled(
            old(self).seen().update(leaf as int, visited(old(self).seen()[leaf as int])),
            path@,
            score as int,
        );
        assert(self.seen() =~= old(self).seen().update(
            leaf as int,
            visited(old(self).seen()[leaf as int]),
        ));
        proof {
            lemma_one_position_changed(*old(self), *self, leaf as int, self.seen()[leaf as int]);
        }
        let mut k: usize = path.len();
        assert(path@.take(k as int) =~= path@);
        while k > 0
            invariant
                k <= path@.len(),
                self.wf(),
                self.same_shape(*old(self)),
                self.goes_through(path@),
                score <= SCORE_ONE,
                path_settled(self.seen(), path@.take(k as int), score as int) == goal,
            decreases k,
        {
            let step = path[k - 1];
            assert(self.offers(
                path@[k - 1].parent as int,
                path@[k - 1].s1_index as int,
                path@[k - 1].s2_index as int,
            ));
            self.settle_step(step, score);
            assert(path@.take(k as int).drop_last() =~= path@.take(k - 1));
            k = k - 1;
        }
        assert(path@.take(0) =~= Seq::<PathStep>::empty());
    }

    fn settle_step(&mut self, step: PathStep, score: u64)
        requires
            old(self).wf(),
            old(self).offers(step.parent as int, step.s1_index as int, step.s2_index as int),
            step.child < old(self).seen().len(),
            score <= SCORE_ONE,
        ensures
            final(self).wf(),
            final(self).same_shape(*old(self)),
            final(self).seen() == step_settled(old(self).seen(), step, score as int),
            forall|path: Seq<PathStep>| #[trigger]
                old(self).goes_through(path) ==> final(self).goes_through(path),
    {
        let ghost start = self.seen();
        let ghost i = step.s1_index as int;
        let ghost j = step.s2_index as int;
        assert(start[step.parent as int] == self.nodes@[step.parent as int]@);
        if let Some(options) = &mut self.nodes[step.parent].options {
            options.s1[step.s1_index].add_result(score);
            options.s1[step.s1_index].remove_virtual_loss();
            options.s2[step.s2_index].add_result(rest(score));
            options.s2[step.s2_index].remove_virtual_loss();
        }
        self.nodes[step.parent].times_visited = self.nodes[step.parent].times_visited.wrapping_add(
            1,
        );
        let ghost middle = *self;
        proof {
            let v = pair_settled(start[step.parent as int], i, j, score as int);
            assert(self.nodes@[step.parent as int]@.s1 =~= v.s1);
            assert(self.nodes@[step.parent as int]@.s2 =~= v.s2);
            assert(self.seen() =~= start.update(step.parent as int, v));
            lemma_one_position_changed(*old(self), *self, step.parent as int, v);
        }
        self.nodes[step.child].virtual_losses = self.nodes[step.child].virtual_losses.wrapping_sub(
            1,
        );
        proof {
            let v = left(middle.seen()[step.child as int]);
            assert(self.seen() =~= middle.seen().update(step.child as int, v));
            lemma_one_position_changed(middle, *self, step.child as int, v);
            assert(self.seen() =~= step_settled(start, step, score as int));
            assert forall|path: Seq<PathStep>| #[trigger]
                old(self).goes_through(path) implies self.goes_through(path) by {
                assert(middle.goes_through(path));
            }
        }
    }

    /// Counts an iteration and gives how many there were before it.
    pub fn start_iteration(&mut self) -> (r: u64)
        ensures
            r == old(self).started(),
            final(self).started() == old(self).started().wrapping_add(1),
            final(self).seen() == old(self).seen(),
            final(self).expanded() == old(self).expanded(),
            final(self).bytes() == old(self).bytes(),
    {
        let before: u64 = self.started_iterations;
        self.started_iterations = before.wrapping_add(1);
        before
    }

    /// How many iterations were started.
    pub fn started_iterations(&self) -> (r: u64)
        ensures
            r == self.started(),
    {
        self.started_iterations
    }

    /// About how many bytes the tree takes.
    pub fn tree_bytes(&self) -> (r: u64)
        ensures
            r == self.bytes(),
    {
        self.tree_bytes
    }

    /// What the workers found out, in shares of a win.
    pub fn collect_result(&self) -> (r: MctsResult)
        requires
            self.wf(),
            self.seen()[0].known,
        ensures
            r.s1@ == reports_of(self.seen()[0].s1),
            r.s2@ == reports_of(self.seen()[0].s2),
            r.iteration_count == self.seen()[0].times_visited,
            countable(r.s1@),
            countable(r.s2@),
    {
        let root = &self.nodes[0];
        assert(self.seen()[0] == root@);
        let options = root.options.as_ref().unwrap();
        MctsResult {
            s1: report(&options.s1),
            s2: report(&options.s2),
            iteration_count: root.times_visited,
        }
    }
}

/// What is reported of a move: its total score goes from parts of a win to
/// shares of one, in double precision.
pub open spec fn report_of(option: MoveNode) -> MctsSideResult {
    MctsSideResult {
        move_choice: option.move_choice,
        total_score: nearest_double(option.total_score * SCORE_ONE, SCORE_SCALE as int) as u128,
        visits: option.visits,
    }
}

/// What is reported of a side's moves.
pub open spec fn reports_of(options: Seq<MoveNode>) -> Seq<MctsSideResult> {
    Seq::new(options.len(), |i: int| report_of(options[i]))
}

fn report(options: &Vec<MoveNode>) -> (r: Vec<MctsSideResult>)
    ensures
        r@ == reports_of(options@),
        countable(r@),
{
    let mut r: Vec<MctsSideResult> = Vec::new();
    let mut i: usize = 0;
    while i < options.len()
        invariant
            i <= options.len(),
            r@ == reports_of(options@).take(i as int),
            countable(r@),
        decreases options.len() - i,
    {
        let total: u64 = options[i].total_score;
        proof {
            assert(0 <= total * SCORE_ONE <= 0xffff_ffff_ffff_ffff * 0x8000_0000_0000_0000)
                by (nonlinear_arith)
                requires
                    0 <= total <= 0xffff_ffff_ffff_ffff,
                    SCORE_ONE == 0x8000_0000_0000_0000,
            ;
            lemma_double_is_rounded(total * SCORE_ONE, SCORE_SCALE as int);
        }
        r.push(
            MctsSideResult {
                move_choice: options[i].move_choice,
                total_score: round_quotient(
                    total as u128 * SCORE_ONE as u128,
                    SCORE_SCALE as u128,
                    DOUBLE_RANGE,
                ),
                visits: options[i].visits,
            },
        );
        i = i + 1;
        assert(r@ =~= reports_of(options@).take(i as int));
    }
    assert(r@ =~= reports_of(options@));
    r
}

/// Side one's score of a position where the battle is over.
pub open spec fn result_score(over: i8) -> Option<u64> {
    if over == 0 {
        None
    } else if over == -1 {
        Some(0)
    } else {
        Some(SCORE_ONE)
    }
}

/// Side one's score of a position from the battle result, if the battle is
/// over. A position in an open battle has to be evaluated.
pub fn rollout(over: i8) -> (r: Option<u64>)
    ensures
        r == result_score(over),
{
    if over == 0 {
        None
    } else if over == -1 {
        Some(0)
    } else {
        Some(SCORE_ONE)
    }
}

/// When workers stop.
#[derive(Clone, Copy, Debug, PartialEq, Eq, Structural)]
pub enum SearchLimit {
    Time,
    Iterations(u32),
    TimeOrIterations(u32),
}

pub fn search_limit(max_time: u128, max_iterations: u32) -> (r: SearchLimit)
    ensures
        r == if max_iterations > 0 && max_time > 0 {
            SearchLimit::TimeOrIterations(max_iterations)
        } else if max_iterations > 0 {
            SearchLimit::Iterations(max_iterations)
        } else {
            SearchLimit::Time
        },
{
    if max_iterations > 0 && max_time > 0 {
        SearchLimit::TimeOrIterations(max_iterations)
    } else if max_iterations > 0 {
        SearchLimit::Iterations(max_iterations)
    } else {
        SearchLimit::Time
    }
}

/// Whether a worker stops after a batch. `past_deadline` is whether the time
/// is up, and `current` how many iterations had been started by all workers
/// before its last one.
pub open spec fn stops_at(
    limit: SearchLimit,
    tree_bytes: u64,
    past_deadline: bool,
    current: u64,
) -> bool {
    tree_bytes >= MCTS_MAX_TREE_BYTES || match limit {
        SearchLimit::Time => past_deadline,
        SearchLimit::Iterations(n) => current >= n,
        SearchLimit::TimeOrIterations(n) => past_deadline || current >= n,
    }
}

pub fn stops(limit: SearchLimit, tree_bytes: u64, past_deadline: bool, current: u64) -> (r: bool)
    ensures
        r == stops_at(limit, tree_bytes, past_deadline, current),
{
    if tree_bytes >= MCTS_MAX_TREE_BYTES {
        return true;
    }
    match limit {
        SearchLimit::Time => past_deadline,
        SearchLimit::Iterations(n) => current >= n as u64,
        SearchLimit::TimeOrIterations(n) => past_deadline || current >= n as u64,
    }
}

} // verus!
