//! A worker's way through the shared tree, one turn at a time.
//!
//! A worker holds the tree only for its turn. What it needs of the battle
//! engine it asks for between turns, so that workers think at the same time.

use crate::float32::Float32;
use crate::mcts::moves::{MoveChoice, StateInstructions, SCORE_ONE};
use crate::mcts::run::BATCH;
use crate::shared::tree::{
    adds_outcomes, all_untried, arrived, best_pair, comes_up, pair_held, pair_released,
    path_settled, ranks_all, ranks_as, result_score, rollout, step_settled, stops, stops_at,
    unvisited, visited, NodeView, PathStep, RankFn, SearchLimit, SharedTree,
    MCTS_DAMAGE_BRANCH_DEPTH,
};
use rand::rngs::SmallRng;
use vstd::prelude::*;

verus! {

/// Where a worker is in its iteration.
#[derive(Clone, Copy, Debug, PartialEq, Eq, Structural)]
pub enum WorkerPhase {
    /// Choosing a pair of moves in a position.
    Select(usize),
    /// At a pair of moves that was not expanded.
    Leaf(usize, usize, usize),
    /// Waiting for the outcomes of that pair.
    Expand(usize, usize, usize),
    /// On the way to a new position.
    Arrive(usize),
    /// Waiting to hear whether the battle is over there.
    Judge(usize),
    /// Waiting for the value of a position.
    Value(usize),
    /// Back at the root.
    Done,
    /// At the end of a batch, waiting to hear whether the time is up.
    Check,
    /// Not to go on.
    Stopped,
}

/// What a worker is told at the start of a turn.
pub enum WorkerEvent {
    /// Nothing new.
    Go,
    /// The moves of both sides.
    Options(Vec<MoveChoice>, Vec<MoveChoice>),
    /// The battle result.
    Over(i8),
    /// The outcomes of a pair of moves.
    Outcomes(Vec<StateInstructions>),
    /// Side one's expected score.
    Value(u64),
    /// Whether the time is up.
    Time(bool),
}

/// What a worker asks for at the end of a turn, always of the position that
/// it is in.
#[derive(Clone, Copy, Debug, PartialEq, Eq, Structural)]
pub enum WorkerAction {
    /// The moves of both sides.
    AskOptions,
    /// The battle result.
    AskOver,
    /// The outcomes of a pair of moves, split by damage roll or not.
    AskOutcomes(MoveChoice, MoveChoice, bool),
    /// Side one's expected score.
    AskValue,
    /// Going on to a position of the tree by what leads there.
    Apply(usize),
    /// Going back to the root, by taking back each step of the way.
    Finish,
    /// Nothing; the next iteration starts.
    Continue,
    /// Whether the time is up.
    AskTime,
    /// Nothing more.
    Stop,
}

/// A worker: its way down, where it is in its iteration, when it stops, the
/// iterations that it made in this batch, and how many had been started by
/// all workers before its last one.
pub struct Worker {
    pub path: Vec<PathStep>,
    pub phase: WorkerPhase,
    pub limit: SearchLimit,
    pub made: u64,
    pub current: u64,
}

/// Whether a way leads from the root to position `n`, further back with every
/// step.
pub open spec fn way_to(path: Seq<PathStep>, n: int) -> bool
    decreases path.len(),
{
    if path.len() == 0 {
        n == 0
    } else {
        path.last().child == n && path.last().parent < path.last().child && way_to(
            path.drop_last(),
            path.last().parent as int,
        )
    }
}

/// Whether a tree has all that another had: no position is lost or becomes
/// another, and no moves are forgotten.
pub open spec fn grown(before: SharedTree, after: SharedTree) -> bool {
    &&& before.seen().len() <= after.seen().len()
    &&& forall|n: int|
        0 <= n < before.seen().len() ==> kept(before.seen()[n], #[trigger] after.seen()[n])
}

/// Whether a position is still the same and still has its moves.
pub open spec fn kept(before: NodeView, after: NodeView) -> bool {
    &&& after.root == before.root
    &&& after.percentage == before.percentage
    &&& after.list == before.list
    &&& after.depth == before.depth
    &&& before.known ==> after.known && after.s1.len() == before.s1.len() && after.s2.len()
        == before.s2.len()
}

impl Worker {
    /// Whether a worker's place and way are in the tree, its way leads to its
    /// place, and its batch is not full.
    pub open spec fn wf(self, tree: SharedTree) -> bool {
        &&& self.made < BATCH
        &&& tree.goes_through(self.path@)
        &&& match self.phase {
            WorkerPhase::Select(n)
            | WorkerPhase::Arrive(n)
            | WorkerPhase::Judge(n)
            | WorkerPhase::Value(n) => n < tree.seen().len() && way_to(self.path@, n as int),
            WorkerPhase::Leaf(n, i, j) | WorkerPhase::Expand(n, i, j) => tree.offers(
                n as int,
                i as int,
                j as int,
            ) && way_to(self.path@, n as int),
            WorkerPhase::Done | WorkerPhase::Check | WorkerPhase::Stopped => true,
        }
    }

    /// Whether a worker has the same limit and counted the same iterations.
    pub open spec fn same_tally(self, other: Worker) -> bool {
        self.limit == other.limit && self.made == other.made && self.current == other.current
    }

    /// Whether a worker is told what it waits for.
    pub open spec fn expects(self, tree: SharedTree, event: WorkerEvent) -> bool {
        match self.phase {
            WorkerPhase::Select(n) => match event {
                WorkerEvent::Go => true,
                WorkerEvent::Options(s1, s2) => s1@.len() > 0 && s2@.len() > 0,
                _ => false,
            },
            WorkerPhase::Leaf(_, _, _) => event is Over,
            WorkerPhase::Expand(_, _, _) => event matches WorkerEvent::Outcomes(list)
                && list@.len() > 0,
            WorkerPhase::Arrive(_) => event is Go,
            WorkerPhase::Judge(_) => event is Over,
            WorkerPhase::Value(_) => event matches WorkerEvent::Value(v) && v <= SCORE_ONE,
            WorkerPhase::Done => event is Go,
            WorkerPhase::Check => event is Time,
            WorkerPhase::Stopped => event is Go,
        }
    }
}

/// The tree after a worker was told the moves of a position, if it was.
pub open spec fn told(seen: Seq<NodeView>, n: int, event: WorkerEvent) -> Seq<NodeView> {
    match event {
        WorkerEvent::Options(s1, s2) => if seen[n].known {
            seen
        } else {
            seen.update(
                n,
                NodeView { known: true, s1: all_untried(s1@), s2: all_untried(s2@), ..seen[n] },
            )
        },
        _ => seen,
    }
}

/// Whether a turn of a worker that chooses a pair of moves in position `n`
/// can end so. It asks for the moves if they are not known. Else it claims
/// the best ranked pair, and goes on to one of its outcomes or, where there
/// are none yet, asks whether the battle is over.
pub open spec fn selects<U: Fn(u64, u64, u64) -> Float32>(
    n: usize,
    event: WorkerEvent,
    rank: U,
    before: (Seq<PathStep>, SharedTree),
    after: (Worker, SharedTree),
    action: WorkerAction,
) -> bool {
    let seen = told(before.1.seen(), n as int, event);
    if !seen[n as int].known {
        &&& action == WorkerAction::AskOptions
        &&& after.0.phase == WorkerPhase::Select(n)
        &&& after.0.path@ == before.0
        &&& after.1 == before.1
    } else {
        exists|i: usize, j: usize|
            {
                let held = seen.update(
                    n as int,
                    pair_held(seen[n as int], i as int, j as int),
                );
                &&& i < seen[n as int].s1.len() && j < seen[n as int].s2.len()
                &&& forall|calc: RankFn|
                    ranks_as(rank, calc) ==> (i as int, j as int) == #[trigger] best_pair(
                        seen[n as int],
                        calc,
                    )
                &&& after.1.expanded() == before.1.expanded()
                &&& if #[trigger] before.1.expanded().contains_key((n, i, j)) {
                    exists|child: usize|
                        {
                            let branch = before.1.expanded()[(n, i, j)];
                            &&& comes_up(seen, branch.0 as int, branch.1 as int, child as int)
                            &&& action == WorkerAction::Apply(child)
                            &&& after.0.phase == WorkerPhase::Select(child)
                            &&& after.0.path@ == before.0.push(
                                PathStep { parent: n, child, s1_index: i, s2_index: j },
                            )
                            &&& after.1.seen() == #[trigger] held.update(
                                child as int,
                                arrived(held[child as int]),
                            )
                        }
                } else {
                    &&& action == WorkerAction::AskOver
                    &&& after.0.phase == WorkerPhase::Leaf(n, i, j)
                    &&& after.0.path@ == before.0
                    &&& after.1.seen() == held
                }
            }
    }
}

/// Whether a turn of a worker that comes back with a score can end so.
pub open spec fn comes_back(
    leaf: usize,
    score: u64,
    path: Seq<PathStep>,
    seen: Seq<NodeView>,
    after: (Worker, SharedTree),
    action: WorkerAction,
) -> bool {
    &&& action == WorkerAction::Finish
    &&& after.0.phase == WorkerPhase::Done
    &&& after.0.path@ == path
    &&& after.1.seen() == path_settled(
        seen.update(leaf as int, visited(seen[leaf as int])),
        path,
        score as int,
    )
}

/// Whether a turn of a worker that was told the battle result can end so: if
/// the battle is over it comes back with that, else it asks for a value.
pub open spec fn judges(
    leaf: usize,
    over: i8,
    path: Seq<PathStep>,
    seen: Seq<NodeView>,
    after: (Worker, SharedTree),
    action: WorkerAction,
) -> bool {
    match result_score(over) {
        Some(score) => comes_back(leaf, score, path, seen, after, action),
        None => {
            &&& action == WorkerAction::AskValue
            &&& after.0.phase == WorkerPhase::Value(leaf)
            &&& after.0.path@ == path
            &&& after.1.seen() == seen
        },
    }
}

impl Worker {
    /// A worker at the root.
    pub fn new(limit: SearchLimit) -> (r: Worker)
        ensures
            r.path@.len() == 0,
            r.phase == WorkerPhase::Select(0),
            r.limit == limit,
            r.made == 0,
            r.current == 0,
            forall|tree: SharedTree| #[trigger] tree.wf() ==> r.wf(tree),
    {
        Worker { path: Vec::new(), phase: WorkerPhase::Select(0), limit, made: 0, current: 0 }
    }

    /// Starts another iteration.
    fn restart(&mut self)
        ensures
            final(self).path@.len() == 0,
            final(self).phase == WorkerPhase::Select(0),
            final(self).same_tally(*old(self)),
    {
        self.path.clear();
        self.phase = WorkerPhase::Select(0);
    }

    /// Counts an iteration that is over. A full batch is followed by a look
    /// at the limits.
    fn count(&mut self, tree: &mut SharedTree) -> (action: WorkerAction)
        requires
            old(tree).wf(),
            old(self).wf(*old(tree)),
        ensures
            final(tree).wf(),
            final(self).wf(*final(tree)),
            grown(*old(tree), *final(tree)),
            counts((*old(self), *old(tree)), (*final(self), *final(tree)), action),
    {
        let ghost start = *tree;
        self.current = tree.start_iteration();
        self.made = self.made + 1;
        assert(tree.wf());
        assert(grown(start, *tree));
        proof {
            lemma_way_stays(start, *tree, self.path@);
        }
        if self.made < BATCH {
            self.restart();
            WorkerAction::Continue
        } else {
            self.made = 0;
            self.phase = WorkerPhase::Check;
            WorkerAction::AskTime
        }
    }

    /// Goes on or stops after a batch.
    fn check(&mut self, tree: &SharedTree, past_deadline: bool) -> (action: WorkerAction)
        requires
            tree.wf(),
            old(self).wf(*tree),
        ensures
            final(self).wf(*tree),
            checks(past_deadline, *old(self), *tree, *final(self), action),
    {
        if stops(self.limit, tree.tree_bytes(), past_deadline, self.current) {
            self.phase = WorkerPhase::Stopped;
            WorkerAction::Stop
        } else {
            self.restart();
            WorkerAction::Continue
        }
    }

    /// The turn of a worker that chooses a pair of moves.
    pub fn select<U: Fn(u64, u64, u64) -> Float32>(
        &mut self,
        tree: &mut SharedTree,
        n: usize,
        event: WorkerEvent,
        rank: &U,
        rng: &mut SmallRng,
    ) -> (action: WorkerAction)
        requires
            old(tree).wf(),
            old(self).wf(*old(tree)),
            old(self).phase == WorkerPhase::Select(n),
            old(self).expects(*old(tree), event),
            ranks_all(*rank),
        ensures
            final(tree).wf(),
            final(self).wf(*final(tree)),
            grown(*old(tree), *final(tree)),
            final(tree).expanded() == old(tree).expanded(),
            final(tree).bytes() == old(tree).bytes(),
            final(tree).started() == old(tree).started(),
            final(self).same_tally(*old(self)),
            selects(
                n,
                event,
                *rank,
                (old(self).path@, *old(tree)),
                (*final(self), *final(tree)),
                action,
            ),
    {
        let ghost start = *tree;
        if let WorkerEvent::Options(s1, s2) = &event {
            tree.ensure_options(n, s1, s2);
        }
        let ghost seen = tree.seen();
        assert(seen =~= told(start.seen(), n as int, event));
        assert(grown(start, *tree));
        if !tree.has_options(n) {
            return WorkerAction::AskOptions;
        }
        let ghost informed = *tree;
        let (i, j) = tree.select_move_pair(n, rank);
        assert(informed.expanded() == start.expanded());
        match tree.find_branch(n, i, j) {
            Some(branch) => {
                let child: usize = tree.sample(branch, rng);
                tree.hold_pair(n, i, j);
                let ghost held = *tree;
                assert(grown(informed, held));
                let step = PathStep { parent: n, child, s1_index: i, s2_index: j };
                tree.enter(step, &mut self.path);
                self.phase = WorkerPhase::Select(child);
                proof {
                    assert(grown(held, *tree));
                    lemma_grown_chain(start, informed, held);
                    lemma_grown_chain(start, held, *tree);
                    lemma_way_stays(start, *tree, old(self).path@);
                    assert(tree.goes_through(self.path@)) by {
                        assert forall|k: int| 0 <= k < self.path@.len() implies tree.offers(
                            (#[trigger] self.path@[k]).parent as int,
                            self.path@[k].s1_index as int,
                            self.path@[k].s2_index as int,
                        ) && self.path@[k].child < tree.seen().len() by {
                            if k < old(self).path@.len() {
                                assert(self.path@[k] == old(self).path@[k]);
                            } else {
                                assert(kept(informed.seen()[n as int], held.seen()[n as int]));
                                assert(kept(held.seen()[n as int], tree.seen()[n as int]));
                            }
                        }
                    }
                    assert(start.expanded().contains_key((n, i, j)));
                    assert(self.path@.drop_last() =~= old(self).path@);
                    assert(tree.seen() == held.seen().update(
                        child as int,
                        arrived(held.seen()[child as int]),
                    ));
                }
                WorkerAction::Apply(child)
            },
            None => {
                tree.hold_pair(n, i, j);
                self.phase = WorkerPhase::Leaf(n, i, j);
                proof {
                    assert(grown(informed, *tree));
                    lemma_grown_chain(start, informed, *tree);
                    lemma_way_stays(start, *tree, self.path@);
                    assert(!start.expanded().contains_key((n, i, j)));
                }
                WorkerAction::AskOver
            },
        }
    }

    /// Comes back with a score.
    fn finish(&mut self, tree: &mut SharedTree, leaf: usize, score: u64) -> (action: WorkerAction)
        requires
            old(tree).wf(),
            old(self).made < BATCH,
            old(tree).goes_through(old(self).path@),
            leaf < old(tree).seen().len(),
            score <= SCORE_ONE,
        ensures
            final(tree).wf(),
            final(self).wf(*final(tree)),
            grown(*old(tree), *final(tree)),
            final(tree).same_shape(*old(tree)),
            final(self).same_tally(*old(self)),
            comes_back(
                leaf,
                score,
                old(self).path@,
                old(tree).seen(),
                (*final(self), *final(tree)),
                action,
            ),
    {
        let ghost start = *tree;
        tree.backpropagate(&self.path, leaf, score);
        self.phase = WorkerPhase::Done;
        proof {
            let seen = start.seen().update(leaf as int, visited(start.seen()[leaf as int]));
            assert(ways_hold(seen, self.path@)) by {
                assert forall|k: int| 0 <= k < self.path@.len() implies way_holds(
                    seen,
                    #[trigger] self.path@[k],
                ) by {
                    assert(start.offers(
                        self.path@[k].parent as int,
                        self.path@[k].s1_index as int,
                        self.path@[k].s2_index as int,
                    ));
                }
            }
            lemma_settling_keeps(seen, self.path@, score as int);
            assert(grown(start, *tree)) by {
                assert forall|n: int| 0 <= n < start.seen().len() implies kept(
                    start.seen()[n],
                    #[trigger] tree.seen()[n],
                ) by {
                    assert(kept(start.seen()[n], seen[n]));
                    assert(kept(seen[n], tree.seen()[n]));
                }
            }
            lemma_way_stays(start, *tree, self.path@);
        }
        WorkerAction::Finish
    }

    /// Scores a position by the battle result, or asks for its value.
    fn judge(&mut self, tree: &mut SharedTree, leaf: usize, over: i8) -> (action: WorkerAction)
        requires
            old(tree).wf(),
            old(self).made < BATCH,
            old(tree).goes_through(old(self).path@),
            leaf < old(tree).seen().len(),
            way_to(old(self).path@, leaf as int),
        ensures
            final(tree).wf(),
            final(self).wf(*final(tree)),
            grown(*old(tree), *final(tree)),
            final(tree).same_shape(*old(tree)),
            final(self).same_tally(*old(self)),
            judges(
                leaf,
                over,
                old(self).path@,
                old(tree).seen(),
                (*final(self), *final(tree)),
                action,
            ),
    {
        match rollout(over) {
            Some(score) => self.finish(tree, leaf, score),
            None => {
                self.phase = WorkerPhase::Value(leaf);
                WorkerAction::AskValue
            },
        }
    }

    /// The turn of a worker at a pair of moves that was not expanded: it
    /// asks for the outcomes, or gives the pair up and scores the position.
    fn decide(
        &mut self,
        tree: &mut SharedTree,
        n: usize,
        i: usize,
        j: usize,
        over: i8,
    ) -> (action: WorkerAction)
        requires
            old(tree).wf(),
            old(self).wf(*old(tree)),
            old(self).phase == WorkerPhase::Leaf(n, i, j),
        ensures
            final(tree).wf(),
            final(self).wf(*final(tree)),
            grown(*old(tree), *final(tree)),
            final(tree).same_shape(*old(tree)),
            final(self).same_tally(*old(self)),
            decides(
                (n, i, j),
                over,
                old(self).path@,
                old(tree).seen(),
                (*final(self), *final(tree)),
                action,
            ),
    {
        let ghost start = *tree;
        match tree.plan_expansion(n, i, j, over) {
            Some((m1, m2, split)) => {
                self.phase = WorkerPhase::Expand(n, i, j);
                WorkerAction::AskOutcomes(m1, m2, split)
            },
            None => {
                tree.release_pair(n, i, j);
                let ghost released = *tree;
                assert(grown(start, released));
                proof {
                    lemma_way_stays(start, released, self.path@);
                }
                let action = self.judge(tree, n, over);
                proof {
                    lemma_grown_chain(start, released, *tree);
                }
                action
            },
        }
    }

    /// The turn of a worker with the outcomes of a pair of moves: it adds
    /// them, unless another worker was faster, and goes on to one of them.
    fn expand(
        &mut self,
        tree: &mut SharedTree,
        n: usize,
        i: usize,
        j: usize,
        outcomes: Vec<StateInstructions>,
        rng: &mut SmallRng,
    ) -> (action: WorkerAction)
        requires
            old(tree).wf(),
            old(self).wf(*old(tree)),
            old(self).phase == WorkerPhase::Expand(n, i, j),
            outcomes@.len() > 0,
        ensures
            final(tree).wf(),
            final(self).wf(*final(tree)),
            grown(*old(tree), *final(tree)),
            final(tree).started() == old(tree).started(),
            final(self).same_tally(*old(self)),
            expands(
                (n, i, j),
                outcomes@,
                (old(self).path@, *old(tree)),
                (*final(self), *final(tree)),
                action,
            ),
    {
        let ghost start = *tree;
        let ghost list = outcomes@;
        assert(outcomes.len() == list.len());
        let branch = tree.add_branch(n, i, j, outcomes);
        let ghost added = *tree;
        assert(grown(start, added));
        let child: usize = tree.sample(branch, rng);
        let step = PathStep { parent: n, child, s1_index: i, s2_index: j };
        tree.enter(step, &mut self.path);
        self.phase = WorkerPhase::Arrive(child);
        proof {
            assert(grown(added, *tree));
            lemma_grown_chain(start, added, *tree);
            lemma_way_stays(start, *tree, old(self).path@);
            assert(kept(start.seen()[n as int], tree.seen()[n as int]));
            assert forall|k: int| 0 <= k < self.path@.len() implies tree.offers(
                (#[trigger] self.path@[k]).parent as int,
                self.path@[k].s1_index as int,
                self.path@[k].s2_index as int,
            ) && self.path@[k].child < tree.seen().len() by {
                if k < old(self).path@.len() {
                    assert(self.path@[k] == old(self).path@[k]);
                }
            }
            assert(self.path@.drop_last() =~= old(self).path@);
            let pair = (n, i, j);
            if !start.expanded().contains_key(pair) {
                assert(branch.first == start.seen().len() as usize);
                assert(branch.count == list.len() as usize);
            }
            assert(tree.seen() == added.seen().update(
                child as int,
                arrived(added.seen()[child as int]),
            ));
        }
        WorkerAction::Apply(child)
    }

    /// One turn of a worker: it takes what it was told, changes the tree,
    /// and says what it needs next.
    pub fn step<U: Fn(u64, u64, u64) -> Float32>(
        &mut self,
        tree: &mut SharedTree,
        event: WorkerEvent,
        rank: &U,
        rng: &mut SmallRng,
    ) -> (action: WorkerAction)
        requires
            old(tree).wf(),
            old(self).wf(*old(tree)),
            old(self).expects(*old(tree), event),
            ranks_all(*rank),
        ensures
            final(tree).wf(),
            final(self).wf(*final(tree)),
            grown(*old(tree), *final(tree)),
            old(self).phase is Done || (final(tree).started() == old(tree).started()
                && final(self).same_tally(*old(self))),
            old(self).phase is Expand || (final(tree).expanded() == old(tree).expanded()
                && final(tree).bytes() == old(tree).bytes()),
            takes_turn(
                event,
                *rank,
                (*old(self), *old(tree)),
                (*final(self), *final(tree)),
                action,
            ),
    {
        match (self.phase, event) {
            (WorkerPhase::Leaf(n, i, j), WorkerEvent::Over(over)) => self.decide(
                tree,
                n,
                i,
                j,
                over,
            ),
            (WorkerPhase::Expand(n, i, j), WorkerEvent::Outcomes(list)) => self.expand(
                tree,
                n,
                i,
                j,
                list,
                rng,
            ),
            (WorkerPhase::Arrive(n), WorkerEvent::Go) => {
                self.phase = WorkerPhase::Judge(n);
                WorkerAction::AskOver
            },
            (WorkerPhase::Judge(n), WorkerEvent::Over(over)) => self.judge(tree, n, over),
            (WorkerPhase::Value(n), WorkerEvent::Value(value)) => self.finish(tree, n, value),
            (WorkerPhase::Select(n), told) => self.select(tree, n, told, rank, rng),
            (WorkerPhase::Done, _) => self.count(tree),
            (WorkerPhase::Check, WorkerEvent::Time(past_deadline)) => self.check(
                tree,
                past_deadline,
            ),
            _ => WorkerAction::Stop,
        }
    }
}

/// Whether a turn of a worker at a pair of moves that was not expanded can
/// end so, once it was told the battle result. If the battle goes on here,
/// or the position is the root, and some side moves, it asks for the
/// outcomes, split by damage roll near the root. Else it gives the pair up
/// and scores the position.
pub open spec fn decides(
    pair: (usize, usize, usize),
    over: i8,
    path: Seq<PathStep>,
    seen: Seq<NodeView>,
    after: (Worker, SharedTree),
    action: WorkerAction,
) -> bool {
    let n = pair.0 as int;
    let v = seen[n];
    let m1 = v.s1[pair.1 as int].move_choice;
    let m2 = v.s2[pair.2 as int].move_choice;
    if (over != 0 && !v.root) || (m1 == MoveChoice::NoMove && m2 == MoveChoice::NoMove) {
        judges(
            pair.0,
            over,
            path,
            seen.update(n, pair_released(v, pair.1 as int, pair.2 as int)),
            after,
            action,
        )
    } else {
        &&& action == WorkerAction::AskOutcomes(m1, m2, v.depth < MCTS_DAMAGE_BRANCH_DEPTH)
        &&& after.0.phase == WorkerPhase::Expand(pair.0, pair.1, pair.2)
        &&& after.0.path@ == path
        &&& after.1.seen() == seen
    }
}

/// Whether a turn of a worker with the outcomes of a pair can end so.
pub open spec fn expands(
    pair: (usize, usize, usize),
    outcomes: Seq<StateInstructions>,
    before: (Seq<PathStep>, SharedTree),
    after: (Worker, SharedTree),
    action: WorkerAction,
) -> bool {
    let known = before.1.expanded().contains_key(pair);
    let branch = if known {
        before.1.expanded()[pair]
    } else {
        (before.1.seen().len() as usize, outcomes.len() as usize)
    };
    let seen = if known {
        before.1.seen()
    } else {
        before.1.seen() + unvisited(outcomes, before.1.seen()[pair.0 as int].depth)
    };
    &&& after.1.expanded() == if known {
        before.1.expanded()
    } else {
        before.1.expanded().insert(pair, branch)
    }
    &&& if known {
        after.1.bytes() == before.1.bytes()
    } else {
        adds_outcomes(before.1.bytes(), after.1.bytes(), outcomes)
    }
    &&& goes_to_one(pair, branch, before.0, seen, after, action)
}

/// Whether a worker goes on to one outcome of a branch, whose pair of moves
/// it claimed before.
pub open spec fn goes_to_one(
    pair: (usize, usize, usize),
    branch: (usize, usize),
    path: Seq<PathStep>,
    seen: Seq<NodeView>,
    after: (Worker, SharedTree),
    action: WorkerAction,
) -> bool {
    exists|child: usize|
        {
            &&& comes_up(seen, branch.0 as int, branch.1 as int, child as int)
            &&& action == WorkerAction::Apply(child)
            &&& after.0.phase == WorkerPhase::Arrive(child)
            &&& after.0.path@ == path.push(
                PathStep { parent: pair.0, child, s1_index: pair.1, s2_index: pair.2 },
            )
            &&& after.1.seen() == #[trigger] seen.update(child as int, arrived(seen[child as int]))
        }
}

/// Whether a turn of a worker can end so.
pub open spec fn takes_turn<U: Fn(u64, u64, u64) -> Float32>(
    event: WorkerEvent,
    rank: U,
    before: (Worker, SharedTree),
    after: (Worker, SharedTree),
    action: WorkerAction,
) -> bool {
    let path = before.0.path@;
    let seen = before.1.seen();
    match (before.0.phase, event) {
        (WorkerPhase::Select(n), _) => selects(n, event, rank, (path, before.1), after, action),
        (WorkerPhase::Leaf(n, i, j), WorkerEvent::Over(over)) => decides(
            (n, i, j),
            over,
            path,
            seen,
            after,
            action,
        ),
        (WorkerPhase::Expand(n, i, j), WorkerEvent::Outcomes(list)) => expands(
            (n, i, j),
            list@,
            (path, before.1),
            after,
            action,
        ),
        (WorkerPhase::Arrive(n), _) => {
            &&& action == WorkerAction::AskOver
            &&& after.0.phase == WorkerPhase::Judge(n)
            &&& after.0.path@ == path
            &&& after.1 == before.1
        },
        (WorkerPhase::Judge(n), WorkerEvent::Over(over)) => judges(
            n,
            over,
            path,
            seen,
            after,
            action,
        ),
        (WorkerPhase::Value(n), WorkerEvent::Value(value)) => comes_back(
            n,
            value,
            path,
            seen,
            after,
            action,
        ),
        (WorkerPhase::Done, _) => counts(before, after, action),
        (WorkerPhase::Check, WorkerEvent::Time(past_deadline)) => {
            &&& checks(past_deadline, before.0, before.1, after.0, action)
            &&& after.1 == before.1
        },
        _ => {
            &&& action == WorkerAction::Stop
            &&& after == before
        },
    }
}

/// Whether a worker is at the start of an iteration.
pub open spec fn starts_over(worker: Worker) -> bool {
    worker.phase == WorkerPhase::Select(0) && worker.path@.len() == 0
}

/// Whether a turn of a worker whose iteration is over can end so: it counts
/// the iteration, and starts another or, with a full batch, asks whether the
/// time is up.
pub open spec fn counts(
    before: (Worker, SharedTree),
    after: (Worker, SharedTree),
    action: WorkerAction,
) -> bool {
    &&& after.0.limit == before.0.limit
    &&& after.0.current == before.1.started()
    &&& after.1.started() == before.1.started().wrapping_add(1)
    &&& after.1.seen() == before.1.seen()
    &&& after.1.expanded() == before.1.expanded()
    &&& after.1.bytes() == before.1.bytes()
    &&& if before.0.made + 1 < BATCH {
        after.0.made == before.0.made + 1 && starts_over(after.0) && action
            == WorkerAction::Continue
    } else {
        after.0.made == 0 && after.0.phase == WorkerPhase::Check && after.0.path@
            == before.0.path@ && action == WorkerAction::AskTime
    }
}

/// Whether a turn of a worker after a full batch can end so: it stops if a
/// limit is reached, and else starts another iteration.
pub open spec fn checks(
    past_deadline: bool,
    before: Worker,
    tree: SharedTree,
    after: Worker,
    action: WorkerAction,
) -> bool {
    &&& after.same_tally(before)
    &&& if stops_at(before.limit, tree.bytes(), past_deadline, before.current) {
        after.phase == WorkerPhase::Stopped && after.path@ == before.path@ && action
            == WorkerAction::Stop
    } else {
        starts_over(after) && action == WorkerAction::Continue
    }
}

/// Whether a step is between positions, by moves that they have.
spec fn way_holds(seen: Seq<NodeView>, step: PathStep) -> bool {
    &&& step.parent < seen.len()
    &&& step.child < seen.len()
    &&& step.s1_index < seen[step.parent as int].s1.len()
    &&& step.s2_index < seen[step.parent as int].s2.len()
}

spec fn ways_hold(seen: Seq<NodeView>, path: Seq<PathStep>) -> bool {
    forall|k: int| 0 <= k < path.len() ==> way_holds(seen, #[trigger] path[k])
}

proof fn lemma_settling_keeps(seen: Seq<NodeView>, path: Seq<PathStep>, score: int)
    requires
        ways_hold(seen, path),
    ensures
        path_settled(seen, path, score).len() == seen.len(),
        forall|n: int|
            0 <= n < seen.len() ==> kept(seen[n], #[trigger] path_settled(seen, path, score)[n]),
    decreases path.len(),
{
    if path.len() > 0 {
        let step = path.last();
        assert(way_holds(seen, path[path.len() - 1]));
        let next = step_settled(seen, step, score);
        assert forall|n: int| 0 <= n < seen.len() implies kept(seen[n], #[trigger] next[n]) by {}
        assert(ways_hold(next, path.drop_last())) by {
            assert forall|k: int| 0 <= k < path.drop_last().len() implies way_holds(
                next,
                #[trigger] path.drop_last()[k],
            ) by {
                assert(way_holds(seen, path[k]));
                assert(next[path[k].parent as int].s1.len() == seen[path[k].parent as int].s1.len());
                assert(next[path[k].parent as int].s2.len() == seen[path[k].parent as int].s2.len());
            }
        }
        lemma_settling_keeps(next, path.drop_last(), score);
        assert forall|n: int| 0 <= n < seen.len() implies kept(
            seen[n],
            #[trigger] path_settled(seen, path, score)[n],
        ) by {
            assert(kept(seen[n], next[n]));
            assert(kept(next[n], path_settled(next, path.drop_last(), score)[n]));
        }
    }
}

/// A tree that has all that another had, has all that the other had of a
/// third.
pub proof fn lemma_grown_chain(a: SharedTree, b: SharedTree, c: SharedTree)
    requires
        grown(a, b),
        grown(b, c),
    ensures
        grown(a, c),
{
    assert forall|n: int| 0 <= n < a.seen().len() implies kept(
        a.seen()[n],
        #[trigger] c.seen()[n],
    ) by {
        assert(kept(a.seen()[n], b.seen()[n]));
        assert(kept(b.seen()[n], c.seen()[n]));
    }
}

proof fn lemma_way_stays(a: SharedTree, b: SharedTree, path: Seq<PathStep>)
    requires
        grown(a, b),
        a.goes_through(path),
    ensures
        b.goes_through(path),
{
    assert forall|k: int| 0 <= k < path.len() implies b.offers(
        (#[trigger] path[k]).parent as int,
        path[k].s1_index as int,
        path[k].s2_index as int,
    ) && path[k].child < b.seen().len() by {
        assert(a.offers(
            path[k].parent as int,
            path[k].s1_index as int,
            path[k].s2_index as int,
        ));
        assert(kept(a.seen()[path[k].parent as int], b.seen()[path[k].parent as int]));
    }
}

/// Whatever turns other workers take in between, a worker finds its place
/// and its way in the tree again.
pub proof fn lemma_place_is_kept(worker: Worker, before: SharedTree, after: SharedTree)
    requires
        worker.wf(before),
        grown(before, after),
    ensures
        worker.wf(after),
{
    lemma_way_stays(before, after, worker.path@);
    match worker.phase {
        WorkerPhase::Leaf(n, i, j) => {
            assert(kept(before.seen()[n as int], after.seen()[n as int]));
        },
        WorkerPhase::Expand(n, i, j) => {
            assert(kept(before.seen()[n as int], after.seen()[n as int]));
        },
        _ => {},
    }
}

} // verus!
