use poke_search::evaluate::config::{EvalConfig, DEFAULT_EVAL_WEIGHTS};
use poke_search::float32::Float32;
use poke_search::mcts::moves::{
    credit, fresh_options, rest, Instruction, MoveChoice, MoveNode, SideReference,
    StateInstructions, REST_ROUNDING, SCORE_ONE,
};
use poke_search::mcts::node::{
    sample_node, terminal_result_from_battle_result,
    terminal_score_from_cached_result, weigh, Node,
};
use poke_search::mcts::perform::{MctsResult, MctsSideResult};
use poke_search::mcts::run::{check_limit, search_limit, SearchEnd, SearchLimit, StopReason};
use poke_search::mcts::search::{Rules, SearchTerms};
use poke_search::mcts::size::{count_branch_bytes, MCTS_MAX_TREE_BYTES};
use poke_search::mcts::tree::ReusableTree;
use poke_search::selfplay::game::GameResult;
use poke_search::selfplay::score::{
    best_by_visits as robust_child, sample_outcome_at, EngineConfig, MatchTally, ReuseCounter,
    SCORE_HALF,
};
use poke_search::shared::tree::{
    parts, rollout, search_limit as shared_limit, stops, MoveNode as SharedMoveNode, PathStep,
    SearchLimit as SharedLimit, SharedTree,
};
use poke_search::shared::worker::{Worker, WorkerAction, WorkerEvent};
use rand::rngs::SmallRng;
use rand::SeedableRng;
use std::marker::PhantomData;

const DEFAULT_EXPLORATION_CONSTANT: f32 = 0.5;

/// A little battle: each side has hit points, and every turn both are hit.
#[derive(Clone, Copy, Debug, PartialEq)]
struct Duel {
    one: i32,
    two: i32,
}

fn first_state() -> Duel {
    Duel { one: 60, two: 60 }
}

/// An instruction takes hit points from a side.
fn hit(side: u64, amount: u64) -> Instruction {
    Instruction { code: side * 1000 + amount }
}

fn apply(state: Duel, list: &Vec<Instruction>) -> Duel {
    let mut state = state;
    for instruction in list {
        let amount = (instruction.code % 1000) as i32;
        if instruction.code < 1000 {
            state.one -= amount;
        } else {
            state.two -= amount;
        }
    }
    state
}

fn reverse(state: Duel, list: &Vec<Instruction>) -> Duel {
    let mut state = state;
    for instruction in list.iter().rev() {
        let amount = (instruction.code % 1000) as i32;
        if instruction.code < 1000 {
            state.one += amount;
        } else {
            state.two += amount;
        }
    }
    state
}

fn over(state: &Duel) -> i8 {
    if state.one <= 0 {
        -1
    } else if state.two <= 0 {
        1
    } else {
        0
    }
}

fn options(state: &Duel) -> (Vec<MoveChoice>, Vec<MoveChoice>) {
    if over(state) != 0 {
        (vec![MoveChoice::NoMove], vec![MoveChoice::NoMove])
    } else {
        (
            vec![MoveChoice::Move(0), MoveChoice::Move(1), MoveChoice::Switch(1)],
            vec![MoveChoice::Move(0), MoveChoice::Move(1)],
        )
    }
}

fn strength(choice: &MoveChoice) -> u64 {
    match choice {
        MoveChoice::Move(0) => 12,
        MoveChoice::Move(_) => 7,
        MoveChoice::Switch(_) => 2,
        _ => 0,
    }
}

fn outcomes(_state: &Duel, a: &MoveChoice, b: &MoveChoice, split: bool) -> Vec<StateInstructions> {
    let plain = vec![hit(1, strength(a)), hit(0, strength(b))];
    if !split {
        return vec![StateInstructions { percentage: 100_000_000, instruction_list: plain }];
    }
    let lucky = vec![hit(1, strength(a) + 6), hit(0, strength(b))];
    vec![
        StateInstructions { percentage: 93_750_000, instruction_list: plain },
        StateInstructions { percentage: 6_250_000, instruction_list: lucky },
    ]
}

fn float(x: f32) -> Float32 {
    Float32 { bits: x.to_bits() }
}

fn number(x: Float32) -> f32 {
    f32::from_bits(x.bits)
}

fn sigmoid(x: f32) -> f32 {
    1.0 / (1.0 + (-0.0125 * x).exp())
}

fn fixed(score: f32) -> u64 {
    (score as f64 * SCORE_ONE as f64) as u64
}

fn evaluate(state: &Duel, _config: &EvalConfig) -> Float32 {
    float((state.one - state.two) as f32)
}

fn centered(eval: Float32, root_eval: Float32) -> u64 {
    fixed(sigmoid(number(eval) - number(root_eval)))
}

fn rank(total: u128, visits: u64, parent: u64, exploration: Float32) -> Float32 {
    let average = (total as f64 / SCORE_ONE as f64 / visits as f64) as f32;
    let c = number(exploration) * number(exploration);
    float(average + (c * (parent as f32).ln() / visits as f32).sqrt())
}

fn exploration() -> Float32 {
    float(DEFAULT_EXPLORATION_CONSTANT)
}

fn distance(a: Float32, b: Float32) -> Float32 {
    float((number(a) - number(b)).abs())
}

fn serialize(state: &Duel) -> String {
    format!("{}/{}", state.one, state.two)
}

type Battle = Rules<
    Duel,
    fn(&Duel) -> i8,
    fn(&Duel) -> (Vec<MoveChoice>, Vec<MoveChoice>),
    fn(&Duel, &MoveChoice, &MoveChoice, bool) -> Vec<StateInstructions>,
    fn(Duel, &Vec<Instruction>) -> Duel,
    fn(Duel, &Vec<Instruction>) -> Duel,
    fn(&Duel, &EvalConfig) -> Float32,
    fn(Float32, Float32) -> u64,
    fn(u128, u64, u64, Float32) -> Float32,
    fn(Float32, Float32) -> Float32,
>;

fn rules() -> Battle {
    Rules {
        over,
        options,
        outcomes,
        apply,
        reverse,
        evaluate,
        sigmoid: centered,
        rank,
        distance,
        branch_all_depths: true,
        terminal_pair_cache: true,
        positions: PhantomData,
    }
}

fn search(tree: &mut ReusableTree, state: Duel, iterations: u32) -> (Duel, MctsResult) {
    let (s1, s2) = options(&state);
    let (state, result, _) =
        rules().perform_mcts_with_tree(tree, state, &s1, &s2, 0, iterations, exploration());
    (state, result)
}

fn best_by_visits(side_result: &[MctsSideResult]) -> MoveChoice {
    let mut best = &side_result[0];
    for candidate in side_result.iter().skip(1) {
        if candidate.visits > best.visits {
            best = candidate;
        }
    }
    best.move_choice
}

fn likeliest(list: Vec<StateInstructions>) -> StateInstructions {
    list.into_iter().max_by(|a, b| a.percentage.cmp(&b.percentage)).unwrap()
}

#[test]
fn test_advance_keeps_subtree_and_iteration_counts_are_per_search() {
    let state = first_state();
    let mut tree = ReusableTree::new();
    let (state, result) = search(&mut tree, state, 5000);
    assert_eq!(result.iteration_count, 5000);
    assert_eq!(tree.root_visits(), 5000);

    let s1_move = best_by_visits(&result.s1);
    let s2_move = best_by_visits(&result.s2);
    let outcome = likeliest(outcomes(&state, &s1_move, &s2_move, true));
    assert!(tree.advance(&s1_move, &s2_move, &outcome.instruction_list));
    let warm_visits = tree.root_visits();
    assert!(
        warm_visits > 0,
        "the most likely outcome of the most-visited pair should have visits"
    );

    let state = apply(state, &outcome.instruction_list);
    let (_, result) = search(&mut tree, state, 5000);
    assert_eq!(result.iteration_count, 5000, "iteration limit is per-search");
    assert_eq!(tree.root_visits(), warm_visits + 5000, "warm visits carry over");
}

#[test]
fn test_advance_to_state_matches_by_resulting_state() {
    let state = first_state();
    let mut tree = ReusableTree::new();
    let (state, result) = search(&mut tree, state, 5000);
    let s1_move = best_by_visits(&result.s1);
    let s2_move = best_by_visits(&result.s2);
    let outcome = likeliest(outcomes(&state, &s1_move, &s2_move, true));

    let target = apply(state, &outcome.instruction_list);
    let before = serialize(&state);
    let (state, kept) = tree.advance_to_state(&rules(), state, &s1_move, &s2_move, &target, &serialize);
    assert!(kept);
    assert!(tree.root_visits() > 0);
    assert_eq!(serialize(&state), before, "root state must be restored");

    let (target, result) = search(&mut tree, target, 5000);
    let s1_move = best_by_visits(&result.s1);
    let s2_move = best_by_visits(&result.s2);
    let unrelated = first_state();
    let (_, kept) = tree.advance_to_state(&rules(), target, &s1_move, &s2_move, &unrelated, &serialize);
    assert!(!kept);
    assert_eq!(tree.root_visits(), 0);
}

#[test]
fn test_ponder_pins_the_committed_root_move() {
    let state = first_state();
    let mut tree = ReusableTree::new();
    let (state, result) = search(&mut tree, state, 5000);
    let committed = best_by_visits(&result.s1);
    let (s1, s2) = options(&state);
    let (_, ponder_result, _) = rules().perform_mcts_ponder(
        &mut tree,
        state,
        &s1,
        &s2,
        SideReference::SideOne,
        &committed,
        0,
        5000,
        exploration(),
    );
    assert_eq!(ponder_result.iteration_count, 5000);
    for (before, after) in result.s1.iter().zip(ponder_result.s1.iter()) {
        if after.move_choice == committed {
            assert_eq!(after.visits, before.visits + 5000);
        } else {
            assert_eq!(after.visits, before.visits);
        }
    }
    let s2_new_visits: u64 = ponder_result
        .s2
        .iter()
        .zip(result.s2.iter())
        .map(|(after, before)| after.visits - before.visits)
        .sum();
    assert_eq!(s2_new_visits, 5000);
}

#[test]
fn test_advance_mismatch_clears_the_tree() {
    let state = first_state();
    let mut tree = ReusableTree::new();
    let (state, result) = search(&mut tree, state, 5000);
    let s1_move = best_by_visits(&result.s1);
    let s2_move = best_by_visits(&result.s2);
    let bogus = [Instruction { code: 999_999 }];
    assert!(!tree.advance(&s1_move, &s2_move, &bogus));
    assert_eq!(tree.root_visits(), 0, "mismatch discards the tree");

    let (_, result) = search(&mut tree, state, 5000);
    assert_eq!(result.iteration_count, 5000);
    assert_eq!(tree.root_visits(), 5000);
}

#[test]
fn test_changing_eval_config_discards_reusable_tree_statistics() {
    let state = first_state();
    let mut tree = ReusableTree::new();
    let (state, _) = search(&mut tree, state, 1000);
    assert_eq!(tree.root_visits(), 1000);

    let mut weights = [Float32 { bits: 0 }; 36];
    for i in 0..36 {
        weights[i] = Float32 { bits: DEFAULT_EVAL_WEIGHTS[i] };
    }
    let linear_config = EvalConfig::new(weights, true);
    let (s1, s2) = options(&state);
    let (_, result, _) = rules().perform_mcts_with_tree_and_eval(
        &mut tree,
        state,
        &s1,
        &s2,
        linear_config,
        0,
        1000,
        exploration(),
    );
    assert_eq!(result.iteration_count, 1000);
    assert_eq!(tree.root_visits(), 1000, "config change must cold-start");
}

#[test]
fn a_warm_tree_goes_on_and_a_drifted_one_does_not() {
    let state = first_state();
    let mut tree = ReusableTree::new();
    let (state, _) = search(&mut tree, state, 1000);
    let (state, _) = search(&mut tree, state, 1000);
    assert_eq!(tree.root_visits(), 2000);
    assert_eq!(tree.anchor_eval().bits, 0f32.to_bits());
    let (s1, s2) = options(&state);
    let mut rules = rules();
    rules.distance = |_, _| float(150.5);
    let (state, _, _) = rules.perform_mcts_with_tree(&mut tree, state, &s1, &s2, 0, 1000, exploration());
    assert_eq!(tree.root_visits(), 1000);
    rules.distance = |_, _| float(150.0);
    let (state, _, _) = rules.perform_mcts_with_tree(&mut tree, state, &s1, &s2, 0, 1000, exploration());
    assert_eq!(tree.root_visits(), 2000);
    rules.distance = |_, _| float(f32::NAN);
    rules.perform_mcts_with_tree(&mut tree, state, &s1, &s2, 0, 1000, exploration());
    assert_eq!(tree.root_visits(), 1000);
}

#[test]
fn other_options_start_cold() {
    let state = first_state();
    let mut tree = ReusableTree::new();
    let (state, _) = search(&mut tree, state, 1000);
    let (s1, _) = options(&state);
    let fewer = vec![MoveChoice::Move(0)];
    rules().perform_mcts_with_tree(&mut tree, state, &s1, &fewer, 0, 1000, exploration());
    assert_eq!(tree.root_visits(), 1000);
    tree.reset();
    assert_eq!(tree.root_visits(), 0);
}

#[test]
fn both_sides_count_the_same_tries_and_share_every_win() {
    let (state, result, _) = rules().perform_mcts(
        first_state(),
        &options(&first_state()).0,
        &options(&first_state()).1,
        0,
        3000,
        exploration(),
    );
    assert_eq!(state, first_state());
    let v1: u64 = result.s1.iter().map(|r| r.visits).sum();
    let v2: u64 = result.s2.iter().map(|r| r.visits).sum();
    assert_eq!(3000, v1);
    assert_eq!(3000, v2);
    let t1: u128 = result.s1.iter().map(|r| r.total_score).sum();
    let t2: u128 = result.s2.iter().map(|r| r.total_score).sum();
    assert!((SCORE_ONE as u128 * 3000).abs_diff(t1 + t2) <= REST_ROUNDING as u128 * 3000);
    // the strong move is found
    assert_eq!(MoveChoice::Move(0), best_by_visits(&result.s1));
}

/// A search from scratch by limit, its iterations and how it ended.
fn limited(max_time: u128, max_iterations: u32) -> (u64, SearchEnd) {
    let state = first_state();
    let (s1, s2) = options(&state);
    let (_, result, end) =
        rules().perform_mcts(state, &s1, &s2, max_time, max_iterations, exploration());
    (result.iteration_count, end)
}

#[test]
fn limits_are_met_in_whole_batches() {
    for (asked, made) in [(1, 1000), (999, 1000), (1000, 1000), (1001, 2000), (5000, 5000)] {
        let (iterations, end) = limited(0, asked);
        assert_eq!(made, iterations);
        assert_eq!(StopReason::Iterations, end.reason);
        assert!(end.tree_bytes > 0 && end.tree_bytes < MCTS_MAX_TREE_BYTES);
    }
    let (iterations, end) = limited(1, 0);
    assert_eq!(0, iterations % 1000);
    assert_eq!(StopReason::Time, end.reason);
    assert!(end.elapsed >= 1);
    let (iterations, end) = limited(3_600_000_000_000, 2000);
    assert_eq!(2000, iterations);
    assert_eq!(StopReason::Iterations, end.reason);
    assert_eq!(SearchLimit::Time(5), search_limit(5, 0));
    assert_eq!(SearchLimit::Iterations(7), search_limit(0, 7));
    assert_eq!(SearchLimit::TimeOrIterations(5, 7), search_limit(5, 7));
    assert_eq!(None, check_limit(SearchLimit::Iterations(7), 0, 100, 6));
    assert_eq!(Some(StopReason::Iterations), check_limit(SearchLimit::Iterations(7), 0, 0, 7));
    assert_eq!(Some(StopReason::Time), check_limit(SearchLimit::Time(5), 0, 5, 0));
    assert_eq!(
        Some(StopReason::Memory),
        check_limit(SearchLimit::Iterations(7), MCTS_MAX_TREE_BYTES, 0, 0)
    );
}

#[test]
fn a_decided_pair_is_scored_by_expectation() {
    // both sides are one hit from fainting; side one falls first in the rules
    let state = Duel { one: 100, two: 5 };
    let (s1, s2) = options(&state);
    let (_, result, _) = rules().perform_mcts(state, &s1, &s2, 0, 1000, exploration());
    let strong = &result.s1[0];
    assert_eq!(MoveChoice::Move(0), strong.move_choice);
    assert_eq!(SCORE_ONE as u128, strong.average_score());
    assert_eq!(SCORE_ONE as u128 * strong.visits as u128, strong.total_score);
}

#[test]
fn the_root_of_a_decided_battle_is_scored_and_not_expanded() {
    let state = Duel { one: 0, two: 5 };
    let (s1, s2) = options(&state);
    let mut tree = ReusableTree::new();
    let (_, result, _) = rules().perform_mcts_with_tree(
        &mut tree, state, &s1, &s2, 0, 1000, exploration(),
    );
    assert_eq!(1000, result.iteration_count);
    assert_eq!(0, result.s1[0].visits);
    assert_eq!(0, result.s1[0].average_score());
    assert!(tree.root().unwrap().children.is_empty());
}

/// A node that was visited so many times.
fn visited(times: u64) -> Node {
    let moves = vec![MoveChoice::NoMove];
    let mut node = Node::new_root(&moves, &moves);
    node.times_visited = times;
    node
}

#[test]
fn untried_options_come_first_and_ties_go_to_the_first() {
    let mut options = fresh_options(&vec![MoveChoice::Move(0), MoveChoice::Move(1), MoveChoice::Move(2)]);
    credit(&mut options, 0, SCORE_ONE);
    let flat = |_: u128, _: u64, _: u64, _: Float32| float(1.0);
    assert_eq!(1, visited(1).maximize_ucb_for_side(&options, exploration(), &flat));
    credit(&mut options, 1, 0);
    assert_eq!(2, visited(2).maximize_ucb_for_side(&options, exploration(), &flat));
    credit(&mut options, 2, 0);
    assert_eq!(0, visited(3).maximize_ucb_for_side(&options, exploration(), &flat));
    let by_average = |t: u128, v: u64, _: u64, _: Float32| float((t / v as u128) as f32);
    assert_eq!(0, visited(3).maximize_ucb_for_side(&options, exploration(), &by_average));
    let broken = |_: u128, _: u64, _: u64, _: Float32| float(f32::NAN);
    assert_eq!(0, visited(3).maximize_ucb_for_side(&options, exploration(), &broken));
    assert_eq!(SCORE_ONE as u128, options[0].average_score());
    let option = MoveNode { move_choice: MoveChoice::NoMove, total_score: 7, visits: 2 };
    assert_eq!(4, option.average_score());
    let option = MoveNode { move_choice: MoveChoice::NoMove, total_score: 5, visits: 2 };
    assert_eq!(2, option.average_score());
}

fn outcome_nodes(percentages: &[i64]) -> Vec<Node> {
    percentages
        .iter()
        .map(|p| Node::new(StateInstructions { percentage: *p, instruction_list: vec![] }, 0, 0))
        .collect()
}

#[test]
fn a_threshold_picks_the_outcome_that_it_falls_in() {
    let nodes = outcome_nodes(&[30, 0, -5, 70]);
    assert_eq!(100, weigh(&nodes));
    assert_eq!(0, sample_node(&nodes, 0));
    assert_eq!(0, sample_node(&nodes, 30));
    assert_eq!(3, sample_node(&nodes, 31));
    assert_eq!(3, sample_node(&nodes, 99));
    assert_eq!(3, sample_node(&nodes, 1000));
}

#[test]
fn outcomes_have_as_many_thresholds_as_weight() {
    let nodes = outcome_nodes(&[1, 1]);
    assert_eq!(2, weigh(&nodes));
    assert_eq!(0, sample_node(&nodes, 1));
    assert_eq!(1, sample_node(&nodes, 2));
    let nodes = outcome_nodes(&[3, 0, 2]);
    let picks: Vec<usize> = (1..6).map(|t| sample_node(&nodes, t)).collect();
    assert_eq!(vec![0, 0, 0, 2, 2], picks);
    // a draw of nothing at all goes to the first, whatever it weighs
    assert_eq!(0, sample_node(&outcome_nodes(&[0, 100]), 0));
    assert_eq!(1, sample_node(&outcome_nodes(&[0, 100]), 1));
}

#[test]
fn battle_results_are_remembered_as_scores() {
    assert_eq!(None, terminal_score_from_cached_result(terminal_result_from_battle_result(0)));
    assert_eq!(Some(0), terminal_score_from_cached_result(terminal_result_from_battle_result(-1)));
    assert_eq!(
        Some(SCORE_ONE),
        terminal_score_from_cached_result(terminal_result_from_battle_result(1))
    );
}

#[test]
fn a_position_is_scored_by_its_end_or_its_evaluation() {
    let config = EvalConfig::default();
    let terms = SearchTerms { root_eval: float(0.0), config: &config, exploration: exploration() };
    let fresh = || Node::new(StateInstructions { percentage: 1, instruction_list: vec![] }, 0, 0);
    let mut node = fresh();
    assert_eq!(SCORE_ONE, node.rollout(&rules(), &Duel { one: 3, two: 0 }, terms));
    assert_eq!(1, node.terminal_result);
    // what is known is not looked up again
    assert_eq!(SCORE_ONE, node.rollout(&rules(), &Duel { one: 3, two: 9 }, terms));
    assert_eq!(0, fresh().rollout(&rules(), &Duel { one: 0, two: 5 }, terms));
    let open = Duel { one: 50, two: 10 };
    assert_eq!(fixed(sigmoid(40.0)), fresh().rollout(&rules(), &open, terms));
    let mut root = visited(0);
    assert_eq!(0, root.rollout(&rules(), &Duel { one: 0, two: 5 }, terms));
    assert_eq!(0, root.terminal_result);
}

#[test]
fn branch_bytes_add_up() {
    assert_eq!(64 + 3 * (100 + 256) + 10 * 8, count_branch_bytes(3, 100, 10, 8));
    assert_eq!(u64::MAX, count_branch_bytes(u64::MAX, 100, 10, 8));
}

fn shared_rank(total: u64, visits: u64, parent: u64) -> Float32 {
    let average = (total as f64 / 400.0 / visits as f64) as f32;
    let c = DEFAULT_EXPLORATION_CONSTANT * DEFAULT_EXPLORATION_CONSTANT;
    float(average + (c * (parent as f32).ln().max(0.0) / visits as f32).sqrt())
}

/// A worker and the position that it is in.
struct Hand {
    worker: Worker,
    state: Duel,
    event: WorkerEvent,
    finished: u64,
    looks: u64,
}

impl Hand {
    fn new(limit: SharedLimit) -> Hand {
        Hand {
            worker: Worker::new(limit),
            state: first_state(),
            event: WorkerEvent::Go,
            finished: 0,
            looks: 0,
        }
    }

    /// One turn, and what it asks for. Returns whether the worker goes on.
    fn turn(&mut self, tree: &mut SharedTree, rng: &mut SmallRng) -> bool {
        let event = std::mem::replace(&mut self.event, WorkerEvent::Go);
        match self.worker.step(tree, event, &shared_rank, rng) {
            WorkerAction::AskOptions => {
                let (a, b) = options(&self.state);
                self.event = WorkerEvent::Options(a, b);
            }
            WorkerAction::AskOver => self.event = WorkerEvent::Over(over(&self.state)),
            WorkerAction::AskOutcomes(a, b, split) => {
                self.event = WorkerEvent::Outcomes(outcomes(&self.state, &a, &b, split));
            }
            WorkerAction::AskValue => {
                self.event = WorkerEvent::Value(centered(
                    evaluate(&self.state, &EvalConfig::default()),
                    float(0.0),
                ));
            }
            WorkerAction::Apply(node) => {
                self.state = apply(self.state, tree.instructions(node));
            }
            WorkerAction::Finish => {
                for step in self.worker.path.iter().rev() {
                    self.state = reverse(self.state, tree.instructions(step.child));
                }
                assert_eq!(first_state(), self.state);
                self.finished += 1;
            }
            WorkerAction::Continue => {}
            WorkerAction::AskTime => {
                self.looks += 1;
                self.event = WorkerEvent::Time(false);
            }
            WorkerAction::Stop => return false,
        }
        true
    }
}

#[test]
fn workers_that_take_turns_leave_no_virtual_loss() {
    let (s1, s2) = options(&first_state());
    let mut tree = SharedTree::new(&s1, &s2);
    let mut rng = SmallRng::seed_from_u64(7);
    let limit = shared_limit(0, 2500);
    let mut hands = vec![Hand::new(limit), Hand::new(limit), Hand::new(limit)];
    let mut going = [true; 3];
    while going != [false; 3] {
        for (w, hand) in hands.iter_mut().enumerate() {
            if going[w] {
                going[w] = hand.turn(&mut tree, &mut rng);
            }
        }
    }
    // each worker looks at the limit after a batch, and all have made one
    // when the first of them looks
    let finished: u64 = hands.iter().map(|h| h.finished).sum();
    assert!(finished > 2500 && finished <= 2500 + 3 * 1000);
    assert_eq!(0, finished % 1000);
    assert!(hands.iter().all(|h| h.finished == 1000 * h.looks));
    let result = tree.collect_result();
    assert_eq!(finished, tree.started_iterations());
    assert_eq!(finished, result.iteration_count);
    let v1: u64 = result.s1.iter().map(|r| r.visits).sum();
    let v2: u64 = result.s2.iter().map(|r| r.visits).sum();
    assert_eq!((finished, finished), (v1, v2));
    assert!(tree.tree_bytes() > 0);
    assert!(tree.size() > 1);
    assert_eq!(MoveChoice::Move(0), best_by_visits(&result.s1));
}

#[test]
fn a_worker_stops_when_the_time_is_up() {
    let (s1, s2) = options(&first_state());
    let mut tree = SharedTree::new(&s1, &s2);
    let mut rng = SmallRng::seed_from_u64(8);
    let mut hand = Hand::new(shared_limit(5, 0));
    while hand.turn(&mut tree, &mut rng) {
        if hand.looks == 2 {
            hand.event = WorkerEvent::Time(true);
            assert!(!hand.turn(&mut tree, &mut rng));
            break;
        }
    }
    assert_eq!(2000, hand.finished);
    assert_eq!(2000, tree.collect_result().iteration_count);
}

#[test]
fn shared_counters_add_and_withdraw() {
    let mut m = SharedMoveNode::new(MoveChoice::Move(0));
    m.add_virtual_loss();
    assert_eq!(3, m.visits);
    m.add_result(SCORE_ONE / 4);
    m.remove_virtual_loss();
    assert_eq!((1, 100), (m.visits, m.total_score));
    assert_eq!(400, parts(SCORE_ONE));
    assert_eq!(200, parts(SCORE_ONE / 2));
    assert_eq!(0, parts(0));
    assert_eq!(None, rollout(0));
    assert_eq!(Some(0), rollout(-1));
    assert_eq!(Some(SCORE_ONE), rollout(1));
}

/// Scores from all over the range.
fn some_scores() -> Vec<f32> {
    (0..20_000u32).map(|i| sigmoid((i as f32 - 10_000.0) * 0.0937)).collect()
}

#[test]
fn scores_are_rounded_as_machine_numbers() {
    for score in some_scores() {
        assert_eq!(fixed(1.0 - score), rest(fixed(score)));
        assert_eq!((score * 400.0).round() as u64, parts(fixed(score)));
        let other = 1.0 - score;
        assert_eq!((other * 400.0).round() as u64, parts(rest(fixed(score))));
    }
}

#[test]
fn sums_and_averages_are_rounded_as_machine_numbers() {
    let mut total = 0.0f64;
    let mut options = fresh_options(&vec![MoveChoice::NoMove]);
    for (n, score) in some_scores().into_iter().enumerate() {
        // scores that the fixed point holds in full
        if score < 1e-11 {
            continue;
        }
        total += score as f64;
        credit(&mut options, 0, fixed(score));
        assert_eq!((total * SCORE_ONE as f64) as u128, options[0].total_score);
        let average = (total / options[0].visits as f64) as f32;
        assert!(options[0].visits <= n as u64 + 1);
        if average > 1e-3 {
            assert_eq!(fixed(average) as u128, options[0].average_score());
        }
    }
    assert!(options[0].visits > 15_000);
}

#[test]
fn a_shared_report_is_in_double_precision() {
    let (s1, s2) = options(&first_state());
    let mut tree = SharedTree::new(&s1, &s2);
    let list = outcomes(&first_state(), &s1[0], &s2[0], false);
    let branch = tree.add_outcomes(0, 0, 0, list, 2);
    let bytes = tree.tree_bytes();
    let step = PathStep { parent: 0, child: branch.first, s1_index: 0, s2_index: 0 };
    let mut path = vec![];
    tree.hold_pair(0, 0, 0);
    tree.enter(step, &mut path);
    tree.backpropagate(&path, branch.first, fixed(0.3));
    let result = tree.collect_result();
    assert_eq!(1, result.iteration_count);
    assert_eq!(1, result.s1[0].visits);
    assert_eq!((120.0f64 / 400.0 * SCORE_ONE as f64) as u128, result.s1[0].total_score);
    assert_eq!((280.0f64 / 400.0 * SCORE_ONE as f64) as u128, result.s2[0].total_score);
    // what a branch counts for follows the room of its lists
    let more = outcomes(&first_state(), &s1[1], &s2[0], false);
    tree.add_outcomes(0, 1, 0, more, 5);
    assert_eq!(2 * bytes + 3 * std::mem::size_of::<Instruction>() as u64, tree.tree_bytes());
}

#[test]
fn shared_limits() {
    assert_eq!(SharedLimit::Time, shared_limit(9, 0));
    assert_eq!(SharedLimit::Iterations(3), shared_limit(0, 3));
    assert_eq!(SharedLimit::TimeOrIterations(3), shared_limit(9, 3));
    assert!(stops(SharedLimit::Iterations(3), 0, false, 3));
    assert!(!stops(SharedLimit::Iterations(3), 0, true, 2));
    assert!(stops(SharedLimit::Time, 0, true, 0));
    assert!(stops(SharedLimit::Time, MCTS_MAX_TREE_BYTES, false, 0));
    assert!(stops(SharedLimit::TimeOrIterations(3), 0, true, 0));
}

#[test]
fn another_worker_may_expand_first() {
    let (s1, s2) = options(&first_state());
    let mut tree = SharedTree::new(&s1, &s2);
    assert!(tree.find_branch(0, 0, 0).is_none());
    let list = outcomes(&first_state(), &s1[0], &s2[0], true);
    let a = tree.add_branch(0, 0, 0, list.clone());
    let b = tree.add_branch(0, 0, 0, outcomes(&first_state(), &s1[1], &s2[1], true));
    assert_eq!(a, b);
    assert_eq!(Some(a), tree.find_branch(0, 0, 0));
    assert_eq!(3, tree.size());
    assert_eq!(&list[1].instruction_list, tree.instructions(a.first + 1));
    assert_eq!(100_000_000, tree.total_weight(a));
    assert_eq!(a.first, tree.sample_at(a, 5));
    assert_eq!(a.first, tree.sample_at(a, 93_750_000));
    assert_eq!(a.first + 1, tree.sample_at(a, 93_750_001));
    assert_eq!(a.first + 1, tree.sample_at(a, 99_000_000));
    assert!(tree.has_options(0));
    assert!(!tree.has_options(1));
}

fn config(iterations: u32, threads: usize, tree_reuse: bool) -> EngineConfig {
    EngineConfig::new(iterations, 0, threads, float(0.5), true, tree_reuse)
}

fn play(c1: &EngineConfig, c2: &EngineConfig, max_turns: usize) -> GameResult {
    play_from(first_state(), c1, c2, max_turns)
}

fn play_from(start: Duel, c1: &EngineConfig, c2: &EngineConfig, max_turns: usize) -> GameResult {
    let mut rng = SmallRng::seed_from_u64(11);
    let shared = |s: &Duel, a: &Vec<MoveChoice>, b: &Vec<MoveChoice>, c: &EngineConfig| {
        rules().perform_mcts(*s, a, b, 0, c.iterations, c.exploration_constant).1
    };
    let turn = |s: &Duel, a: &MoveChoice, b: &MoveChoice| outcomes(s, a, b, false);
    let quiet = |_: usize, _: &Duel, _: &MoveChoice, _: &MoveChoice| {};
    rules().play_game(
        start,
        c1,
        c2,
        max_turns,
        &mut rng,
        &options,
        &shared,
        &turn,
        &quiet,
    )
}

#[test]
fn a_game_is_played_to_its_end() {
    let r = play(&config(1000, 1, false), &config(1000, 2, false), 500);
    assert!(!r.capped);
    assert!(r.s1_score == SCORE_ONE || r.s1_score == 0);
    assert_eq!(0, r.s1_reuse.attempts);
    assert!(r.decisions >= 5 && r.decisions < 500);
}

#[test]
fn a_game_is_capped_and_trees_are_kept() {
    let r = play(&config(1000, 1, true), &config(1000, 1, false), 2);
    assert!(r.capped);
    assert_eq!(SCORE_HALF, r.s1_score);
    assert_eq!(2, r.decisions);
    assert_eq!(2, r.s1_reuse.attempts);
    assert_eq!(0, r.s2_reuse.attempts);
    assert!(r.s1_reuse.hits >= 1);
    assert!(r.s1_reuse.warm_visits > 0);
}

#[test]
fn a_battle_that_is_over_is_not_played() {
    let c = config(1000, 1, true);
    let won = play_from(Duel { one: 7, two: 0 }, &c, &c, 500);
    assert_eq!((SCORE_ONE, false, 0), (won.s1_score, won.capped, won.decisions));
    let lost = play_from(Duel { one: 0, two: 7 }, &c, &c, 500);
    assert_eq!((0, false, 0), (lost.s1_score, lost.capped, lost.decisions));
    assert_eq!(0, lost.s1_reuse.attempts);
}

#[test]
fn threads_switch_tree_reuse_off() {
    assert!(config(1, 1, true).tree_reuse);
    assert!(!config(1, 2, true).tree_reuse);
    assert_eq!(
        "iterations=20000 time_ms=0 threads=2 c=0.5 branch_all=true tree_reuse=false",
        config(20000, 2, true).describe("0.5")
    );
}

#[test]
fn reuse_is_counted() {
    let mut c = ReuseCounter::new();
    c.track(true, 100);
    c.track(false, 7);
    c.track(true, 51);
    assert_eq!("2/3 (66.7%), avg warm visits/hit: 75", c.describe("66.7"));
    let mut d = ReuseCounter::new();
    assert_eq!("0/0 (0.0%), avg warm visits/hit: 0", d.describe("0.0"));
    d.add(&c);
    d.add(&c);
    assert_eq!((6, 4, 302), (d.attempts, d.hits, d.warm_visits));
}

#[test]
fn the_robust_child_is_played() {
    let r = |m: u8, t: u128, v: u64| MctsSideResult { move_choice: MoveChoice::Move(m), total_score: t, visits: v };
    assert_eq!(MoveChoice::Move(1), robust_child(&vec![r(0, 90, 9), r(1, 10, 10)]));
    assert_eq!(MoveChoice::Move(2), robust_child(&vec![r(0, 10, 10), r(1, 10, 10), r(2, 30, 10)]));
    assert_eq!(MoveChoice::Move(0), robust_child(&vec![r(0, 10, 10), r(1, 10, 10)]));
    // averages that are the same machine number are equal
    let much = SCORE_ONE as u128;
    assert_eq!(MoveChoice::Move(0), robust_child(&vec![r(0, much, 3), r(1, much + 5, 3)]));
    assert_eq!(MoveChoice::Move(1), robust_child(&vec![r(0, much, 3), r(1, much + much / 1000, 3)]));
}

#[test]
fn outcomes_are_sampled_by_weight() {
    let list = outcomes(&first_state(), &MoveChoice::Move(0), &MoveChoice::Move(0), true);
    assert_eq!(0, sample_outcome_at(&list, 0));
    assert_eq!(0, sample_outcome_at(&list, 93_750_000));
    assert_eq!(1, sample_outcome_at(&list, 93_750_001));
    assert_eq!(1, sample_outcome_at(&list, 100_000_000));
}

#[test]
fn games_are_tallied_for_a() {
    let mut t = MatchTally::new();
    assert_eq!(SCORE_ONE, t.record(SCORE_ONE, true));
    assert_eq!(0, t.record(SCORE_ONE, false));
    assert_eq!(SCORE_HALF, t.record(SCORE_HALF, false));
    assert_eq!((1, 1, 1), (t.wins, t.losses, t.draws));
}
