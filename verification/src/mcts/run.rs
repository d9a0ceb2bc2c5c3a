//! The search loop and when it stops.

use crate::evaluate::config::EvalConfig;
use crate::float32::Float32;
use crate::mcts::chance::seeded_rng;
use crate::mcts::iterate::{bytes_counted, lemma_bytes_never_fall};
use crate::mcts::moves::{Instruction, MoveChoice, StateInstructions};
use crate::mcts::node::Node;
use crate::mcts::search::{Rules, SearchTerms};
use crate::mcts::size::MCTS_MAX_TREE_BYTES;
use rand::rngs::SmallRng;
use std::time::Instant;
use vstd::prelude::*;

verus! {

/// A point in time of std.
#[verifier::external_type_specification]
#[verifier::external_body]
pub struct ExInstant(Instant);

/// `Instant::now` of std. Nothing is claimed of the time.
#[verifier::external_body]
pub(crate) fn now() -> Instant {
    Instant::now()
}

/// `Instant::elapsed` of std, in nanoseconds. Nothing is claimed of it.
#[verifier::external_body]
pub(crate) fn nanos_since(start: &Instant) -> u128 {
    start.elapsed().as_nanos()
}

/// How many iterations are made before the limits are looked at.
pub const BATCH: u64 = 1000;

/// When to stop: after so many nanoseconds, so many iterations of this
/// search, or whichever comes first.
#[derive(Clone, Copy, Debug, PartialEq, Eq, Structural)]
pub enum SearchLimit {
    Time(u128),
    Iterations(u32),
    TimeOrIterations(u128, u32),
}

/// The limit that a time and a number of iterations make; zero is no limit
/// by iterations, and no limit by time beside one by iterations.
pub open spec fn limit_of(max_time: u128, max_iterations: u32) -> SearchLimit {
    if max_iterations > 0 && max_time > 0 {
        SearchLimit::TimeOrIterations(max_time, max_iterations)
    } else if max_iterations > 0 {
        SearchLimit::Iterations(max_iterations)
    } else {
        SearchLimit::Time(max_time)
    }
}

pub fn search_limit(max_time: u128, max_iterations: u32) -> (r: SearchLimit)
    ensures
        r == limit_of(max_time, max_iterations),
{
    if max_iterations > 0 && max_time > 0 {
        SearchLimit::TimeOrIterations(max_time, max_iterations)
    } else if max_iterations > 0 {
        SearchLimit::Iterations(max_iterations)
    } else {
        SearchLimit::Time(max_time)
    }
}

/// Why a search stopped.
#[derive(Clone, Copy, Debug, PartialEq, Eq, Structural)]
pub enum StopReason {
    /// The tree takes as much memory as it may.
    Memory,
    /// The time is up.
    Time,
    /// The iterations are made.
    Iterations,
    /// The visit counter has no room for another batch.
    Counter,
}

/// Whether a search stops after `done` iterations and `elapsed` nanoseconds
/// with a tree of so many bytes, and why.
pub open spec fn stop_at(
    limit: SearchLimit,
    tree_bytes: u64,
    elapsed: u128,
    done: u64,
) -> Option<StopReason> {
    if tree_bytes >= MCTS_MAX_TREE_BYTES {
        Some(StopReason::Memory)
    } else {
        match limit {
            SearchLimit::Time(max_time) => if elapsed >= max_time {
                Some(StopReason::Time)
            } else {
                None
            },
            SearchLimit::Iterations(n) => if done >= n {
                Some(StopReason::Iterations)
            } else {
                None
            },
            SearchLimit::TimeOrIterations(max_time, n) => if elapsed >= max_time {
                Some(StopReason::Time)
            } else if done >= n {
                Some(StopReason::Iterations)
            } else {
                None
            },
        }
    }
}

pub fn check_limit(limit: SearchLimit, tree_bytes: u64, elapsed: u128, done: u64) -> (r: Option<
    StopReason,
>)
    ensures
        r == stop_at(limit, tree_bytes, elapsed, done),
{
    if tree_bytes >= MCTS_MAX_TREE_BYTES {
        return Some(StopReason::Memory);
    }
    match limit {
        SearchLimit::Time(max_time) => if elapsed >= max_time {
            Some(StopReason::Time)
        } else {
            None
        },
        SearchLimit::Iterations(n) => if done >= n as u64 {
            Some(StopReason::Iterations)
        } else {
            None
        },
        SearchLimit::TimeOrIterations(max_time, n) => if elapsed >= max_time {
            Some(StopReason::Time)
        } else if done >= n as u64 {
            Some(StopReason::Iterations)
        } else {
            None
        },
    }
}

/// The number of iterations that a limit allows, if it counts them.
pub open spec fn iteration_cap(limit: SearchLimit) -> Option<int> {
    match limit {
        SearchLimit::Time(_) => None,
        SearchLimit::Iterations(n) => Some(n as int),
        SearchLimit::TimeOrIterations(_, n) => Some(n as int),
    }
}

/// How a search ended: why, how many bytes its new branches take, and how
/// many nanoseconds it took.
#[derive(Clone, Copy, Debug, PartialEq, Eq, Structural)]
pub struct SearchEnd {
    pub reason: StopReason,
    pub tree_bytes: u64,
    pub elapsed: u128,
}

/// Whether a search goes on after `done` iterations.
pub open spec fn goes_on_at(limit: SearchLimit, tree_bytes: u64, elapsed: u128, done: int) -> bool {
    stop_at(limit, tree_bytes, elapsed, done as u64) is None
}

/// Whether a search can have ended so after `done` iterations, with `visits`
/// on its root. It makes whole batches, at least one. It stops at the end of
/// a batch where a limit is reached, and gives that limit as the reason, or
/// where the visit counter has no room for another batch. It did not stop a
/// batch earlier, with no more bytes.
pub open spec fn ends(limit: SearchLimit, end: SearchEnd, done: int, visits: int) -> bool {
    &&& BATCH <= done <= u64::MAX
    &&& done % BATCH as int == 0
    &&& match stop_at(limit, end.tree_bytes, end.elapsed, done as u64) {
        Some(reason) => end.reason == reason,
        None => end.reason == StopReason::Counter && visits > u64::MAX - BATCH,
    }
    &&& done > BATCH ==> exists|tree_bytes: u64, elapsed: u128|
        tree_bytes <= end.tree_bytes && #[trigger] goes_on_at(
            limit,
            tree_bytes,
            elapsed,
            done - BATCH,
        )
}

/// The iterations of as few whole batches as reach `n`, at least one.
pub open spec fn whole_batches(n: int) -> int {
    if n <= BATCH {
        BATCH as int
    } else {
        (n + BATCH - 1) / BATCH as int * BATCH
    }
}

/// An iteration limit is met in whole batches: a search that stopped for it
/// made as many as reach it, and so did one that has no other limit, unless
/// its tree takes as much memory as it may or its counter is full.
pub proof fn lemma_iteration_limit_is_met(
    limit: SearchLimit,
    end: SearchEnd,
    done: int,
    visits: int,
    n: u32,
)
    requires
        ends(limit, end, done, visits),
        iteration_cap(limit) == Some(n as int),
        end.reason == StopReason::Iterations || (limit is Iterations && end.tree_bytes
            < MCTS_MAX_TREE_BYTES && visits <= u64::MAX - BATCH),
    ensures
        end.reason == StopReason::Iterations,
        done == whole_batches(n as int),
{
    assert(done >= n);
    if done > BATCH {
        let (tree_bytes, elapsed) = choose|tree_bytes: u64, elapsed: u128|
            tree_bytes <= end.tree_bytes && #[trigger] goes_on_at(
                limit,
                tree_bytes,
                elapsed,
                done - BATCH,
            );
        assert(done - BATCH < n);
    }
}

impl<S, O, P, G, A, R, V, W, U, D> Rules<S, O, P, G, A, R, V, W, U, D> where
    O: Fn(&S) -> i8,
    P: Fn(&S) -> (Vec<MoveChoice>, Vec<MoveChoice>),
    G: Fn(&S, &MoveChoice, &MoveChoice, bool) -> Vec<StateInstructions>,
    A: Fn(S, &Vec<Instruction>) -> S,
    R: Fn(S, &Vec<Instruction>) -> S,
    V: Fn(&S, &EvalConfig) -> Float32,
    W: Fn(Float32, Float32) -> u64,
    U: Fn(u128, u64, u64, Float32) -> Float32,
    D: Fn(Float32, Float32) -> Float32,
 {
    /// Whether one iteration from a root in position `state` can have made
    /// `after` of `before` and brought `score`, with the bytes of all new
    /// branches so far before it and after it. If reversing undoes applying,
    /// the full account of it holds.
    pub open spec fn iterated_once(
        self,
        state: S,
        terms: SearchTerms<'_>,
        before: Node,
        after: Node,
        force: (Option<usize>, Option<usize>),
        score: u64,
        old_bytes: u64,
        new_bytes: u64,
    ) -> bool {
        &&& self.stepped(before, after, terms.exploration, force, score)
        &&& bytes_counted(before, after, old_bytes, new_bytes)
        &&& self.undoes() ==> self.played(state, 0, before, after, force, terms, score)
    }

    /// Whether `n` iterations one after the other can have made `after` of
    /// `before`, with new branches of so many bytes.
    pub open spec fn iterated(
        self,
        state: S,
        terms: SearchTerms<'_>,
        before: Node,
        after: Node,
        force: (Option<usize>, Option<usize>),
        n: nat,
        bytes: u64,
    ) -> bool
        decreases n,
    {
        if n == 0 {
            after == before && bytes == 0
        } else {
            exists|mid: Node, score: u64, mid_bytes: u64|
                self.iterated(state, terms, before, mid, force, (n - 1) as nat, mid_bytes)
                    && #[trigger] self.iterated_once(
                    state,
                    terms,
                    mid,
                    after,
                    force,
                    score,
                    mid_bytes,
                    bytes,
                )
        }
    }

    /// One iteration from the root.
    pub fn mcts_iteration(
        &self,
        root_node: &mut Node,
        state: S,
        terms: SearchTerms<'_>,
        rng: &mut SmallRng,
        tree_bytes: &mut u64,
        root_force: (Option<usize>, Option<usize>),
    ) -> (r: (S, u64))
        requires
            self.sound(),
            old(root_node).wf(),
            old(root_node).root,
            old(root_node).open(),
            old(root_node).times_visited < u64::MAX,
            root_force.0 matches Some(f) ==> f < old(root_node).s1().len(),
            root_force.1 matches Some(f) ==> f < old(root_node).s2().len(),
        ensures
            final(root_node).wf(),
            final(root_node).root,
            final(root_node).open(),
            final(root_node).s1().len() == old(root_node).s1().len(),
            final(root_node).s2().len() == old(root_node).s2().len(),
            final(root_node).times_visited == old(root_node).times_visited + 1,
            self.iterated_once(
                state,
                terms,
                *old(root_node),
                *final(root_node),
                root_force,
                r.1,
                *old(tree_bytes),
                *final(tree_bytes),
            ),
            *final(tree_bytes) >= *old(tree_bytes),
            self.undoes() ==> r.0 == state,
    {
        let ghost before = *root_node;
        let r = self.visit(root_node, 0, state, terms, rng, tree_bytes, root_force);
        proof {
            lemma_bytes_never_fall(before, *root_node, *old(tree_bytes), *tree_bytes);
        }
        r
    }

    /// Searches until a limit is reached, in batches of iterations.
    pub fn run_mcts_loop(
        &self,
        root_node: &mut Node,
        state: S,
        terms: SearchTerms<'_>,
        limit: SearchLimit,
        root_force: (Option<usize>, Option<usize>),
    ) -> (r: (S, SearchEnd))
        requires
            self.sound(),
            old(root_node).wf(),
            old(root_node).root,
            old(root_node).open(),
            old(root_node).times_visited <= u64::MAX - BATCH,
            root_force.0 matches Some(f) ==> f < old(root_node).s1().len(),
            root_force.1 matches Some(f) ==> f < old(root_node).s2().len(),
        ensures
            final(root_node).wf(),
            final(root_node).root,
            final(root_node).open(),
            final(root_node).times_visited >= old(root_node).times_visited,
            self.iterated(
                state,
                terms,
                *old(root_node),
                *final(root_node),
                root_force,
                (final(root_node).times_visited - old(root_node).times_visited) as nat,
                r.1.tree_bytes,
            ),
            ends(
                limit,
                r.1,
                final(root_node).times_visited - old(root_node).times_visited,
                final(root_node).times_visited as int,
            ),
            self.undoes() ==> r.0 == state,
    {
        let mut rng = seeded_rng();
        let start_time = now();
        let start_visits: u64 = root_node.times_visited;
        let ghost start = *root_node;
        let mut tree_bytes: u64 = 0;
        let mut elapsed: u128 = 0;
        let mut position = state;
        let mut stop: Option<StopReason> = None;
        while stop.is_none()
            invariant
                self.sound(),
                root_node.wf(),
                root_node.root,
                root_node.open(),
                start == *old(root_node),
                start_visits == start.times_visited,
                start_visits <= root_node.times_visited,
                stop is None ==> root_node.times_visited <= u64::MAX - BATCH,
                root_node.s1().len() == start.s1().len(),
                root_node.s2().len() == start.s2().len(),
                root_force.0 matches Some(f) ==> f < start.s1().len(),
                root_force.1 matches Some(f) ==> f < start.s2().len(),
                self.iterated(
                    state,
                    terms,
                    start,
                    *root_node,
                    root_force,
                    (root_node.times_visited - start_visits) as nat,
                    tree_bytes,
                ),
                self.undoes() ==> position == state,
                (root_node.times_visited - start_visits) % BATCH as int == 0,
                stop is None && root_node.times_visited > start_visits ==> goes_on_at(
                    limit,
                    tree_bytes,
                    elapsed,
                    root_node.times_visited - start_visits,
                ),
                stop matches Some(reason) ==> ends(
                    limit,
                    SearchEnd { reason, tree_bytes, elapsed },
                    root_node.times_visited - start_visits,
                    root_node.times_visited as int,
                ),
            decreases
                u64::MAX - root_node.times_visited + if stop is None {
                    1int
                } else {
                    0int
                },
        {
            let ghost batch_start = root_node.times_visited;
            let ghost batch_bytes = tree_bytes;
            let ghost batch_elapsed = elapsed;
            let mut i: u64 = 0;
            while i < BATCH
                invariant
                    i <= BATCH,
                    self.sound(),
                    root_node.wf(),
                    root_node.root,
                    root_node.open(),
                    start_visits == start.times_visited,
                    start_visits <= batch_start,
                    batch_start <= u64::MAX - BATCH,
                    batch_bytes <= tree_bytes,
                    root_node.times_visited == batch_start + i,
                    root_node.s1().len() == start.s1().len(),
                    root_node.s2().len() == start.s2().len(),
                    root_force.0 matches Some(f) ==> f < start.s1().len(),
                    root_force.1 matches Some(f) ==> f < start.s2().len(),
                    self.iterated(
                        state,
                        terms,
                        start,
                        *root_node,
                        root_force,
                        (root_node.times_visited - start_visits) as nat,
                        tree_bytes,
                    ),
                    self.undoes() ==> position == state,
                decreases BATCH - i,
            {
                let ghost mid = *root_node;
                let ghost from = position;
                let ghost mid_bytes = tree_bytes;
                let (there, score) = self.mcts_iteration(
                    root_node,
                    position,
                    terms,
                    &mut rng,
                    &mut tree_bytes,
                    root_force,
                );
                position = there;
                proof {
                    assert(self.undoes() ==> from == state);
                    assert(self.iterated_once(
                        state,
                        terms,
                        mid,
                        *root_node,
                        root_force,
                        score,
                        mid_bytes,
                        tree_bytes,
                    ));
                    assert(self.iterated(
                        state,
                        terms,
                        start,
                        *root_node,
                        root_force,
                        (root_node.times_visited - start_visits) as nat,
                        tree_bytes,
                    ));
                }
                i = i + 1;
            }
            let done: u64 = root_node.times_visited - start_visits;
            elapsed = nanos_since(&start_time);
            stop = check_limit(limit, tree_bytes, elapsed, done);
            if stop.is_none() && root_node.times_visited > u64::MAX - BATCH {
                stop = Some(StopReason::Counter);
            }
            proof {
                if done > BATCH {
                    assert(goes_on_at(limit, batch_bytes, batch_elapsed, done - BATCH));
                }
            }
        }
        let reason = match stop {
            Some(reason) => reason,
            None => StopReason::Counter,
        };
        (position, SearchEnd { reason, tree_bytes, elapsed })
    }
}

} // verus!
