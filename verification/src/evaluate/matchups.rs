//! What the evaluator sees of the matchups between the two teams.

use crate::matchup::cache::PairCache;
use crate::matchup::kernel::{
    cell, duel, duel_outcome, filled, first_mover, is_counter, moves_before, spikes_fit, standing,
    stands, DuelResult, MatchupKernel, Tables,
};
use crate::matchup::pair::{answers, computes, fits, DamageFn, PairResult};
use crate::state::{Choice, Pokemon, Side, State, TEAM_SIZE};
use vstd::prelude::*;

verus! {

/// The matchups of one side's Pokemon against the other team.
#[derive(Clone, Copy, Debug, PartialEq, Eq)]
pub struct SideMatchups {
    /// Who stands.
    pub alive: [bool; 6],
    pub active: usize,
    /// How many of the other team stand.
    pub opponents: usize,
    /// Whom a standing foe knocks out before it can move.
    pub revenged: [bool; 6],
    /// How many standing foes each one beats.
    pub wins: [usize; 6],
    /// How many standing foes can come in on each one and win.
    pub answered: [usize; 6],
    /// Whether the active Pokemon beats the active foe.
    pub wins_duel: bool,
    /// Whether it does and nobody can come in on it.
    pub pressures: bool,
}

/// The matchups of both sides.
#[derive(Clone, Copy, Debug, PartialEq, Eq)]
pub struct MatchupTally {
    pub one: SideMatchups,
    pub two: SideMatchups,
}

/// The side that is asked about: side one if `on_one`.
pub open spec fn own_side(state: State, on_one: bool) -> Side {
    if on_one {
        state.side_one
    } else {
        state.side_two
    }
}

/// The best attack of a side's Pokemon `i` on the foe `j`.
pub open spec fn attack_of(k: MatchupKernel, on_one: bool, i: int, j: int) -> PairResult {
    if on_one {
        k.one_to_two@[cell(i, j)]
    } else {
        k.two_to_one@[cell(i, j)]
    }
}

/// How many of the first `n` numbers `holds` accepts.
pub open spec fn count_where(n: int, holds: spec_fn(int) -> bool) -> int
    decreases n,
{
    if n <= 0 {
        0
    } else {
        count_where(n - 1, holds) + if holds(n - 1) {
            1int
        } else {
            0
        }
    }
}

/// Whether foe `j` stands and knocks Pokemon `i` out before it can move.
pub open spec fn revenges(state: State, k: MatchupKernel, on_one: bool, i: int, j: int) -> bool {
    let attack = attack_of(k, on_one, i, j);
    let reply = attack_of(k, !on_one, j, i);
    stands(own_side(state, !on_one), j) && reply.damage >= own_side(state, on_one).pokemon@[i].hp
        && first_mover(state.trick_room_active, reply, attack) == Some(true)
}

/// Whether Pokemon `i` beats foe `j` one on one.
pub open spec fn beats(state: State, k: MatchupKernel, on_one: bool, i: int, j: int) -> bool {
    duel_outcome(
        state.trick_room_active,
        attack_of(k, on_one, i, j),
        attack_of(k, !on_one, j, i),
    ) == DuelResult::Win
}

/// Whether one of the first `n` foes revenges Pokemon `i`.
pub open spec fn is_revenged(state: State, k: MatchupKernel, on_one: bool, i: int, n: int) -> bool {
    exists|j: int| 0 <= j < n && #[trigger] revenges(state, k, on_one, i, j)
}

/// How many of the first `n` foes stand and are beaten by Pokemon `i`.
pub open spec fn wins_of(state: State, k: MatchupKernel, on_one: bool, i: int, n: int) -> int {
    count_where(
        n,
        |j: int| stands(own_side(state, !on_one), j) && beats(state, k, on_one, i, j),
    )
}

/// How many of the first `n` foes stand and can come in on Pokemon `i`.
pub open spec fn answers_to(state: State, k: MatchupKernel, on_one: bool, i: int, n: int) -> int {
    count_where(
        n,
        |j: int| stands(own_side(state, !on_one), j) && k.counters(state, on_one, i, j),
    )
}

/// Whether both active Pokemon stand and the one on this side wins.
pub open spec fn active_wins(state: State, k: MatchupKernel, on_one: bool) -> bool {
    let own = own_side(state, on_one);
    let foe = own_side(state, !on_one);
    stands(own, own.active_index as int) && stands(foe, foe.active_index as int) && beats(
        state,
        k,
        on_one,
        own.active_index as int,
        foe.active_index as int,
    )
}

impl SideMatchups {
    /// Whether these are the matchups of a side in a position.
    pub open spec fn tells(self, state: State, k: MatchupKernel, on_one: bool) -> bool {
        let own = own_side(state, on_one);
        let foe = own_side(state, !on_one);
        &&& forall|i: int| 0 <= i < 6 ==> self.alive@[i] == #[trigger] stands(own, i)
        &&& self.active == own.active_index
        &&& self.opponents == standing(foe, 6)
        &&& forall|i: int|
            0 <= i < 6 ==> #[trigger] self.revenged@[i] == (stands(own, i) && is_revenged(
                state,
                k,
                on_one,
                i,
                6,
            ))
        &&& forall|i: int|
            0 <= i < 6 ==> #[trigger] self.wins@[i] == if stands(own, i) {
                wins_of(state, k, on_one, i, 6)
            } else {
                0
            }
        &&& forall|i: int|
            0 <= i < 6 ==> #[trigger] self.answered@[i] == if stands(own, i) {
                answers_to(state, k, on_one, i, 6)
            } else {
                0
            }
        &&& self.wins_duel == active_wins(state, k, on_one)
        &&& self.pressures == (active_wins(state, k, on_one) && answers_to(
            state,
            k,
            on_one,
            own.active_index as int,
            6,
        ) == 0)
    }
}

/// The row of one Pokemon: whether it is revenged, its wins and its answers.
fn tally_row(state: &State, k: &MatchupKernel, on_one: bool, i: usize) -> (r: (bool, usize, usize))
    requires
        state.wf(),
        k.wf(*state),
        spikes_fit(state.side_one),
        spikes_fit(state.side_two),
        i < TEAM_SIZE,
    ensures
        r.0 == is_revenged(*state, *k, on_one, i as int, 6),
        r.1 == wins_of(*state, *k, on_one, i as int, 6),
        r.2 == answers_to(*state, *k, on_one, i as int, 6),
{
    let mut revenged = false;
    let mut wins: usize = 0;
    let mut answered: usize = 0;
    let mut j: usize = 0;
    while j < TEAM_SIZE
        invariant
            j <= TEAM_SIZE,
            i < TEAM_SIZE,
            state.wf(),
            k.wf(*state),
            spikes_fit(state.side_one),
            spikes_fit(state.side_two),
            wins <= j,
            answered <= j,
            revenged == is_revenged(*state, *k, on_one, i as int, j as int),
            wins == wins_of(*state, *k, on_one, i as int, j as int),
            answered == answers_to(*state, *k, on_one, i as int, j as int),
        decreases TEAM_SIZE - j,
    {
        let alive = if on_one {
            k.alive_two[j]
        } else {
            k.alive_one[j]
        };
        assert(alive == stands(own_side(*state, !on_one), j as int));
        if alive {
            let (attack, reply) = if on_one {
                (k.one(i, j), k.two(j, i))
            } else {
                (k.two(i, j), k.one(j, i))
            };
            let hp: i16 = if on_one {
                state.side_one.pokemon[i].hp
            } else {
                state.side_two.pokemon[i].hp
            };
            if reply.damage >= hp && moves_before(state, reply, attack) == Some(true) {
                assert(revenges(*state, *k, on_one, i as int, j as int));
                revenged = true;
            }
            if duel(state, attack, reply) == DuelResult::Win {
                wins = wins + 1;
            }
            if is_counter(state, k, on_one, i, j) {
                answered = answered + 1;
            }
        }
        proof {
            if is_revenged(*state, *k, on_one, i as int, j as int) {
                let m = choose|m: int| 0 <= m < j && #[trigger] revenges(*state, *k, on_one, i as int, m);
                assert(revenges(*state, *k, on_one, i as int, m));
            }
            if is_revenged(*state, *k, on_one, i as int, j + 1) {
                let m = choose|m: int|
                    0 <= m < j + 1 && #[trigger] revenges(*state, *k, on_one, i as int, m);
                assert(m == j || is_revenged(*state, *k, on_one, i as int, j as int));
            }
        }
        j = j + 1;
    }
    (revenged, wins, answered)
}

fn tally_side(state: &State, k: &MatchupKernel, on_one: bool) -> (r: SideMatchups)
    requires
        state.wf(),
        k.wf(*state),
        spikes_fit(state.side_one),
        spikes_fit(state.side_two),
    ensures
        r.tells(*state, *k, on_one),
{
    let (own, foe) = if on_one {
        (&state.side_one, &state.side_two)
    } else {
        (&state.side_two, &state.side_one)
    };
    let alive: [bool; 6] = if on_one {
        k.alive_one
    } else {
        k.alive_two
    };
    let foes: [bool; 6] = if on_one {
        k.alive_two
    } else {
        k.alive_one
    };
    let mut revenged: [bool; 6] = [false;6];
    let mut wins: [usize; 6] = [0;6];
    let mut answered: [usize; 6] = [0;6];
    let mut i: usize = 0;
    while i < TEAM_SIZE
        invariant
            i <= TEAM_SIZE,
            state.wf(),
            k.wf(*state),
            spikes_fit(state.side_one),
            spikes_fit(state.side_two),
            *own == own_side(*state, on_one),
            forall|m: int| 0 <= m < 6 ==> alive@[m] == #[trigger] stands(*own, m),
            forall|m: int|
                0 <= m < i ==> #[trigger] revenged@[m] == (stands(*own, m) && is_revenged(
                    *state,
                    *k,
                    on_one,
                    m,
                    6,
                )),
            forall|m: int| i <= m < 6 ==> !#[trigger] revenged@[m],
            forall|m: int|
                0 <= m < i ==> #[trigger] wins@[m] == if stands(*own, m) {
                    wins_of(*state, *k, on_one, m, 6)
                } else {
                    0
                },
            forall|m: int| i <= m < 6 ==> #[trigger] wins@[m] == 0,
            forall|m: int|
                0 <= m < i ==> #[trigger] answered@[m] == if stands(*own, m) {
                    answers_to(*state, *k, on_one, m, 6)
                } else {
                    0
                },
            forall|m: int| i <= m < 6 ==> #[trigger] answered@[m] == 0,
        decreases TEAM_SIZE - i,
    {
        assert(alive@[i as int] == stands(*own, i as int));
        if alive[i] {
            let (a, b, c) = tally_row(state, k, on_one, i);
            revenged[i] = a;
            wins[i] = b;
            answered[i] = c;
        }
        i = i + 1;
    }
    assert(alive@[own.active_index as int] == stands(*own, own.active_index as int));
    assert(foes@[foe.active_index as int] == stands(*foe, foe.active_index as int));
    let mut wins_duel = false;
    let mut pressures = false;
    if alive[own.active_index] && foes[foe.active_index] {
        let (attack, reply) = if on_one {
            (k.one(own.active_index, foe.active_index), k.two(foe.active_index, own.active_index))
        } else {
            (k.two(own.active_index, foe.active_index), k.one(foe.active_index, own.active_index))
        };
        if duel(state, attack, reply) == DuelResult::Win {
            wins_duel = true;
            pressures = answered[own.active_index] == 0;
        }
    }
    SideMatchups {
        alive,
        active: own.active_index,
        opponents: if on_one {
            k.count_two
        } else {
            k.count_one
        },
        revenged,
        wins,
        answered,
        wins_duel,
        pressures,
    }
}

/// Works out every living cross-team pair and tallies what comes of it.
pub fn walk_matchups<
    F: Fn(&State, &Side, &Pokemon, bool, &Side, &Pokemon, bool, &Choice) -> Option<i16>,
>(state: &State, cache: &mut PairCache, damage_formula: &F) -> (r: MatchupTally)
    requires
        state.wf(),
        old(cache).wf(),
        answers(*damage_formula),
        fits(*damage_formula),
        spikes_fit(state.side_one),
        spikes_fit(state.side_two),
    ensures
        final(cache).wf(),
        exists|k: MatchupKernel|
            #![trigger k.wf(*state)]
            k.wf(*state) && r.one.tells(*state, k, true) && r.two.tells(*state, k, false) && (
            forall|calc: DamageFn|
                computes(*damage_formula, calc) ==> #[trigger] filled(
                    *state,
                    calc,
                    old(cache)@,
                    36,
                ) == (Tables {
                    one: k.one_to_two@,
                    two: k.two_to_one@,
                    cache: final(cache)@,
                })),
{
    let k = MatchupKernel::new(state, cache, damage_formula);
    tally_matchups(state, &k)
}

/// Tallies the matchups of a kernel that is worked out.
pub fn tally_matchups(state: &State, k: &MatchupKernel) -> (r: MatchupTally)
    requires
        state.wf(),
        k.wf(*state),
        spikes_fit(state.side_one),
        spikes_fit(state.side_two),
    ensures
        r.one.tells(*state, *k, true),
        r.two.tells(*state, *k, false),
{
    MatchupTally { one: tally_side(state, k, true), two: tally_side(state, k, false) }
}

} // verus!
