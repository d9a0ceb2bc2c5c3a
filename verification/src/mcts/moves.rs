//! Moves, their outcomes and the statistics kept of them.

use crate::rounding::{
    lemma_rounding_down_to_even, lemma_rounding_in_proportion, lemma_rounding_is_near,
    lemma_rounding_keeps_bounds, lemma_spacing_divides, nearest_double, nearest_single,
    round_quotient, DOUBLE_RANGE, MOST_ROUNDED, SINGLE_RANGE,
};
use vstd::arithmetic::div_mod::lemma_mod_multiples_basic;
use vstd::arithmetic::power2::{lemma2_to64, lemma2_to64_rest, pow2};
use vstd::prelude::*;

verus! {

/// What a side can do in a turn. `Move` and `MoveTera` name a move slot,
/// `Switch` names a team slot.
#[derive(Clone, Copy, Debug, PartialEq, Eq, Structural)]
pub enum MoveChoice {
    MoveTera(u8),
    Move(u8),
    Switch(u8),
    NoMove,
}

/// One change to a position. The code is the battle engine's: two
/// instructions with the same code do the same.
#[derive(Clone, Copy, Debug, PartialEq, Eq, Structural)]
pub struct Instruction {
    pub code: u64,
}

/// One chance outcome of a pair of moves: how likely it is, in millionths of
/// a percent, and what it changes.
#[derive(Clone, Debug)]
pub struct StateInstructions {
    pub percentage: i64,
    pub instruction_list: Vec<Instruction>,
}

/// The percentage of what happens for certain.
pub const CERTAIN: i64 = 100_000_000;

/// Which of the two sides.
#[derive(Clone, Copy, Debug, PartialEq, Eq, Structural)]
pub enum SideReference {
    SideOne,
    SideTwo,
}

/// A certain win as a score; a score is a share of it.
pub const SCORE_ONE: u64 = 0x8000_0000_0000_0000;

/// How far a score and its rest may be from a win together.
pub const REST_ROUNDING: u64 = 0x80_0000_0000;

/// What a score leaves of a win: the nearest single-precision number.
pub open spec fn rest_of(score: int) -> int {
    nearest_single(SCORE_ONE - score, 1)
}

/// A score and its rest are a win together, up to rounding.
pub proof fn lemma_rest(score: int)
    requires
        0 <= score <= SCORE_ONE,
    ensures
        0 <= rest_of(score) <= SCORE_ONE,
        SCORE_ONE - REST_ROUNDING <= score + rest_of(score) <= SCORE_ONE + REST_ROUNDING,
{
    let n = SCORE_ONE - score;
    lemma2_to64_rest();
    assert(pow2(40) == 0x100_0000_0000);
    lemma_rounding_keeps_bounds(n, 1, SCORE_ONE as int, 40, SINGLE_RANGE as int);
    lemma_rounding_is_near(n, 1, SINGLE_RANGE as int);
    lemma_spacing_divides(n, 40, SINGLE_RANGE as int);
}

pub fn rest(score: u64) -> (r: u64)
    requires
        score <= SCORE_ONE,
    ensures
        r == rest_of(score as int),
        r <= SCORE_ONE,
{
    proof {
        lemma_rest(score as int);
    }
    round_quotient((SCORE_ONE - score) as u128, 1, SINGLE_RANGE) as u64
}

/// What is known of one move: how often it was tried and what it brought.
#[derive(Clone, Copy, Debug, PartialEq, Eq, Structural)]
pub struct MoveNode {
    pub move_choice: MoveChoice,
    pub total_score: u128,
    pub visits: u64,
}

/// A move that was not tried.
pub open spec fn untried(choice: MoveChoice) -> MoveNode {
    MoveNode { move_choice: choice, total_score: 0, visits: 0 }
}

/// The moves of a side, none of them tried.
pub open spec fn all_untried(choices: Seq<MoveChoice>) -> Seq<MoveNode> {
    Seq::new(choices.len(), |i: int| untried(choices[i]))
}

/// The moves alone.
pub open spec fn choices_of(options: Seq<MoveNode>) -> Seq<MoveChoice> {
    Seq::new(options.len(), |i: int| options[i].move_choice)
}

/// The statistics after option `i` was tried once more and brought `score`,
/// which is added in double precision.
pub open spec fn credited(options: Seq<MoveNode>, i: int, score: int) -> Seq<MoveNode> {
    options.update(
        i,
        MoveNode {
            total_score: nearest_double(options[i].total_score + score, 1) as u128,
            visits: (options[i].visits + 1) as u64,
            ..options[i]
        },
    )
}

/// How often the first `n` moves were tried.
pub open spec fn visits_sum(options: Seq<MoveNode>, n: int) -> int
    decreases n,
{
    if n <= 0 {
        0
    } else {
        visits_sum(options, n - 1) + options[n - 1].visits
    }
}

/// What the first `n` moves brought.
pub open spec fn score_sum(options: Seq<MoveNode>, n: int) -> int
    decreases n,
{
    if n <= 0 {
        0
    } else {
        score_sum(options, n - 1) + options[n - 1].total_score
    }
}

/// The most that so many tries can bring: a win each, as far as single wins
/// are counted in double precision.
pub open spec fn most_score(visits: int) -> int {
    if visits < DOUBLE_RANGE {
        SCORE_ONE * visits
    } else {
        SCORE_ONE * DOUBLE_RANGE
    }
}

/// How far adding one more score to so many may round the sum, for each.
pub const SUM_ROUNDING: u64 = 0x400;

/// Adding a score in double precision brings no more than a win, and rounds by
/// little.
pub proof fn lemma_double_sum(total: int, score: int, visits: int)
    requires
        0 <= total <= most_score(visits),
        0 <= score <= SCORE_ONE,
        0 <= visits,
    ensures
        0 <= total + score <= MOST_ROUNDED,
        0 <= nearest_double(total + score, 1) <= most_score(visits + 1),
        most_score(visits + 1) <= MOST_ROUNDED,
        -SUM_ROUNDING * (visits + 1) <= nearest_double(total + score, 1) - (total + score)
            <= SUM_ROUNDING * (visits + 1),
{
    let n = total + score;
    let range = DOUBLE_RANGE as int;
    lemma2_to64();
    lemma2_to64_rest();
    assert(pow2(63) == SCORE_ONE);
    lemma_rounding_in_proportion(n, range);
    let x = nearest_double(n, 1) - n;
    assert(SCORE_ONE * (visits + 1) == SCORE_ONE * visits + SCORE_ONE) by (nonlinear_arith);
    assert(visits >= range ==> SCORE_ONE * range <= SCORE_ONE * visits) by (nonlinear_arith);
    assert(n <= SCORE_ONE * (visits + 1));
    assert(-SUM_ROUNDING * (visits + 1) <= x <= SUM_ROUNDING * (visits + 1)) by (nonlinear_arith)
        requires
            -n <= range * x <= n,
            n <= SCORE_ONE * (visits + 1),
            range == 0x20_0000_0000_0000,
            SCORE_ONE == 0x8000_0000_0000_0000,
            SUM_ROUNDING == 0x400,
    ;
    assert(visits < range ==> SCORE_ONE * visits <= SCORE_ONE * range) by (nonlinear_arith);
    if visits + 1 < range {
        let bound = SCORE_ONE * (visits + 1);
        assert(bound < range * SCORE_ONE) by (nonlinear_arith)
            requires
                bound == SCORE_ONE * (visits + 1),
                visits + 1 < range,
                SCORE_ONE == 0x8000_0000_0000_0000,
        ;
        assert(bound == (visits + 1) * SCORE_ONE) by (nonlinear_arith)
            requires
                bound == SCORE_ONE * (visits + 1),
        ;
        lemma_mod_multiples_basic(visits + 1, SCORE_ONE as int);
        lemma_rounding_keeps_bounds(n, 1, bound, 63, range);
    } else if n <= SCORE_ONE * range {
        lemma_rounding_keeps_bounds(n, 1, SCORE_ONE * range, 64, range);
    } else {
        lemma_rounding_down_to_even(n, 63, range);
    }
}

/// Whether the statistics of a side are possible: it has moves, no move was
/// tried more than `cap` times, and none brought more than a win a try.
pub open spec fn options_wf(options: Seq<MoveNode>, cap: int) -> bool {
    &&& 1 <= options.len() <= 255
    &&& forall|i: int|
        0 <= i < options.len() ==> (#[trigger] options[i]).visits <= cap && options[i].total_score
            <= most_score(options[i].visits as int)
}

/// How far the scores of so many tries may be from a win each.
pub open spec fn score_rounding(visits: int) -> int {
    visits * (REST_ROUNDING + 2 * SUM_ROUNDING * visits)
}

/// Whether both sides' statistics come from the same tries: equally many,
/// and what one side did not win the other did, up to the rounding of so many
/// scores.
pub open spec fn balanced(s1: Seq<MoveNode>, s2: Seq<MoveNode>) -> bool {
    let visits = visits_sum(s1, s1.len() as int);
    let scores = score_sum(s1, s1.len() as int) + score_sum(s2, s2.len() as int);
    &&& visits == visits_sum(s2, s2.len() as int)
    &&& SCORE_ONE * visits - score_rounding(visits) <= scores <= SCORE_ONE * visits
        + score_rounding(visits)
}

/// A credit adds one visit and its score to the sums.
pub proof fn lemma_credit_sums(options: Seq<MoveNode>, i: int, score: int, n: int)
    requires
        0 <= i < options.len(),
        0 <= n <= options.len(),
        options[i].visits < u64::MAX,
        0 <= score <= SCORE_ONE,
        options[i].total_score <= most_score(options[i].visits as int),
    ensures
        visits_sum(credited(options, i, score), n) == visits_sum(options, n) + if i < n {
            1int
        } else {
            0
        },
        score_sum(credited(options, i, score), n) == score_sum(options, n) + if i < n {
            nearest_double(options[i].total_score + score, 1) - options[i].total_score
        } else {
            0
        },
    decreases n,
{
    lemma_double_sum(options[i].total_score as int, score, options[i].visits as int);
    if n > 0 {
        lemma_credit_sums(options, i, score, n - 1);
    }
}

/// No move was tried more often than all together.
proof fn lemma_part_of_visits(options: Seq<MoveNode>, i: int, n: int)
    requires
        0 <= n <= options.len(),
    ensures
        0 <= visits_sum(options, n),
        0 <= i < n ==> options[i].visits <= visits_sum(options, n),
    decreases n,
{
    if n > 0 {
        lemma_part_of_visits(options, i, n - 1);
    }
}

/// Untried moves sum up to nothing.
pub proof fn lemma_untried_sums(choices: Seq<MoveChoice>, n: int)
    requires
        0 <= n <= choices.len(),
    ensures
        visits_sum(all_untried(choices), n) == 0,
        score_sum(all_untried(choices), n) == 0,
    decreases n,
{
    if n > 0 {
        lemma_untried_sums(choices, n - 1);
    }
}

/// Crediting a pair of moves with a score and its rest keeps the two
/// sides' statistics balanced.
pub proof fn lemma_credit_keeps_balance(
    s1: Seq<MoveNode>,
    s2: Seq<MoveNode>,
    i: int,
    j: int,
    score: int,
    cap: int,
)
    requires
        options_wf(s1, cap),
        options_wf(s2, cap),
        cap < u64::MAX,
        balanced(s1, s2),
        0 <= i < s1.len(),
        0 <= j < s2.len(),
        0 <= score <= SCORE_ONE,
    ensures
        options_wf(credited(s1, i, score), cap + 1),
        options_wf(credited(s2, j, rest_of(score)), cap + 1),
        balanced(credited(s1, i, score), credited(s2, j, rest_of(score))),
{
    lemma_room(s1, i, cap);
    lemma_room(s2, j, cap);
    lemma_rest(score);
    let other = rest_of(score);
    lemma_credit_sums(s1, i, score, s1.len() as int);
    lemma_credit_sums(s2, j, other, s2.len() as int);
    lemma_double_sum(s1[i].total_score as int, score, s1[i].visits as int);
    lemma_double_sum(s2[j].total_score as int, other, s2[j].visits as int);
    lemma_part_of_visits(s1, i, s1.len() as int);
    lemma_part_of_visits(s2, j, s2.len() as int);
    let v = visits_sum(s1, s1.len() as int);
    let a = s1[i].visits as int;
    let b = s2[j].visits as int;
    assert(SCORE_ONE * (v + 1) == SCORE_ONE * v + SCORE_ONE) by (nonlinear_arith);
    assert(SUM_ROUNDING * (a + 1) + SUM_ROUNDING * (b + 1) + REST_ROUNDING <= score_rounding(v + 1)
        - score_rounding(v)) by (nonlinear_arith)
        requires
            0 <= a <= v,
            0 <= b <= v,
            score_rounding(v + 1) == (v + 1) * (REST_ROUNDING + 2 * SUM_ROUNDING * (v + 1)),
            score_rounding(v) == v * (REST_ROUNDING + 2 * SUM_ROUNDING * v),
    ;
    assert(-SUM_ROUNDING * (a + 1) == -(SUM_ROUNDING * (a + 1))) by (nonlinear_arith);
    assert(-SUM_ROUNDING * (b + 1) == -(SUM_ROUNDING * (b + 1))) by (nonlinear_arith);
    assert forall|k: int| 0 <= k < s1.len() implies (#[trigger] credited(s1, i, score)[k]).visits
        <= cap + 1 && credited(s1, i, score)[k].total_score <= most_score(
        credited(s1, i, score)[k].visits as int,
    ) by {
        assert(s1[k].visits <= cap);
    }
    assert forall|k: int| 0 <= k < s2.len() implies (#[trigger] credited(s2, j, other)[k]).visits
        <= cap + 1 && credited(s2, j, other)[k].total_score <= most_score(
        credited(s2, j, other)[k].visits as int,
    ) by {
        assert(s2[k].visits <= cap);
    }
}

/// There is room for one more result.
pub proof fn lemma_room(options: Seq<MoveNode>, i: int, cap: int)
    requires
        options_wf(options, cap),
        cap < u64::MAX,
        0 <= i < options.len(),
    ensures
        options[i].visits < u64::MAX,
        options[i].total_score + SCORE_ONE <= MOST_ROUNDED,
{
    assert(options[i].visits <= cap);
    lemma_double_sum(options[i].total_score as int, SCORE_ONE as int, options[i].visits as int);
}

/// Adds the result of one more try to an option.
pub fn credit(options: &mut Vec<MoveNode>, i: usize, score: u64)
    requires
        i < old(options)@.len(),
        old(options)@[i as int].visits < u64::MAX,
        old(options)@[i as int].total_score + score <= MOST_ROUNDED,
    ensures
        final(options)@ == credited(old(options)@, i as int, score as int),
{
    let old_node = options[i];
    options[i] = MoveNode {
        move_choice: old_node.move_choice,
        total_score: round_quotient(old_node.total_score + score as u128, 1, DOUBLE_RANGE),
        visits: old_node.visits + 1,
    };
    assert(options@ =~= credited(old(options)@, i as int, score as int));
}

/// The statistics of moves of which none was tried.
pub fn fresh_options(choices: &Vec<MoveChoice>) -> (r: Vec<MoveNode>)
    ensures
        r@ == all_untried(choices@),
{
    let mut r: Vec<MoveNode> = Vec::new();
    let mut i: usize = 0;
    while i < choices.len()
        invariant
            i <= choices.len(),
            r@ == all_untried(choices@).take(i as int),
        decreases choices.len() - i,
    {
        r.push(MoveNode { move_choice: choices[i], total_score: 0, visits: 0 });
        i = i + 1;
        assert(r@ =~= all_untried(choices@).take(i as int));
    }
    assert(r@ =~= all_untried(choices@));
    r
}

/// Where a move stands among the options, from option `from` on.
pub open spec fn position_of(options: Seq<MoveNode>, choice: MoveChoice, from: int) -> Option<int>
    decreases options.len() - from,
{
    if from >= options.len() {
        None
    } else if options[from].move_choice == choice {
        Some(from)
    } else {
        position_of(options, choice, from + 1)
    }
}

pub fn find_choice(options: &Vec<MoveNode>, choice: &MoveChoice) -> (r: Option<usize>)
    ensures
        match r {
            Some(i) => position_of(options@, *choice, 0) == Some(i as int) && i < options@.len()
                && options@[i as int].move_choice == *choice,
            None => position_of(options@, *choice, 0) is None,
        },
{
    let mut i: usize = 0;
    while i < options.len()
        invariant
            i <= options.len(),
            position_of(options@, *choice, 0) == position_of(options@, *choice, i as int),
        decreases options.len() - i,
    {
        if options[i].move_choice == *choice {
            return Some(i);
        }
        i = i + 1;
    }
    None
}

/// Whether two lists of instructions are the same.
pub fn same_instructions(a: &Vec<Instruction>, b: &[Instruction]) -> (r: bool)
    ensures
        r == (a@ == b@),
{
    if a.len() != b.len() {
        return false;
    }
    let mut i: usize = 0;
    while i < a.len()
        invariant
            i <= a.len(),
            a@.len() == b@.len(),
            forall|k: int| 0 <= k < i ==> a@[k] == b@[k],
        decreases a.len() - i,
    {
        if a[i] != b[i] {
            return false;
        }
        i = i + 1;
    }
    assert(a@ =~= b@);
    true
}

} // verus!
