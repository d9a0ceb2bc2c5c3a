//! The kernel: every living cross-team pair, and the duels decided by them.

use crate::matchup::cache::{
    collision_free, counted, look_up, ordered_pair_keyed, truthful, CacheEntry, PairCache,
};
use crate::matchup::cache::lemma_cached_pair_matches_uncached;
use crate::matchup::fingerprint::{
    hp_sensitivity, participant_fingerprint, participant_hash, sensitivity_of, HpSensitivity,
};
use crate::matchup::pair::{
    answers, computes, fits, hits_to_faint, DamageFn, Duelists, PairResult,
};
use crate::state::{
    Abilities, Choice, Items, Pokemon, PokemonType, Side, State, TEAM_SIZE,
};
use vstd::prelude::*;

verus! {

/// How a one-on-one ends for the Pokemon it is asked about.
#[derive(Clone, Copy, Debug, PartialEq, Eq, Structural)]
pub enum DuelResult {
    Win,
    Loss,
    Draw,
}

impl DuelResult {
    /// The same duel seen by the other Pokemon.
    pub open spec fn reversed(self) -> DuelResult {
        match self {
            DuelResult::Win => DuelResult::Loss,
            DuelResult::Loss => DuelResult::Win,
            DuelResult::Draw => DuelResult::Draw,
        }
    }
}

/// The best attacks of each side's Pokemon on each of the other side's, and
/// who is still standing.
#[derive(Clone, Copy)]
pub struct MatchupKernel {
    pub one_to_two: [PairResult; 36],
    pub two_to_one: [PairResult; 36],
    pub alive_one: [bool; 6],
    pub alive_two: [bool; 6],
    pub count_one: usize,
    pub count_two: usize,
}

/// The cell of a pair in the tables.
pub open spec fn cell(attacker: int, defender: int) -> int {
    attacker * 6 + defender
}

pub fn at(attacker: usize, defender: usize) -> (r: usize)
    requires
        attacker < TEAM_SIZE,
        defender < TEAM_SIZE,
    ensures
        r == cell(attacker as int, defender as int),
        r < 36,
{
    attacker * 6 + defender
}

/// Which of two attacks happens first: the one of higher priority, else the
/// faster one (the slower one under trick room), else neither for certain.
pub open spec fn first_mover(trick_room: bool, first: PairResult, second: PairResult) -> Option<
    bool,
> {
    if first.priority != second.priority {
        Some(first.priority > second.priority)
    } else if first.speed == second.speed {
        None
    } else if trick_room {
        Some(first.speed < second.speed)
    } else {
        Some(first.speed > second.speed)
    }
}

pub fn moves_before(state: &State, first: PairResult, second: PairResult) -> (r: Option<bool>)
    ensures
        r == first_mover(state.trick_room_active, first, second),
{
    if first.priority != second.priority {
        return Some(first.priority > second.priority);
    }
    if first.speed == second.speed {
        return None;
    }
    Some(
        if state.trick_room_active {
            first.speed < second.speed
        } else {
            first.speed > second.speed
        },
    )
}

/// The duel of two attacks: fewer hits win, equal hits go to who moves first,
/// an attack that hurts beats one that does not.
pub open spec fn duel_outcome(trick_room: bool, first: PairResult, second: PairResult) -> DuelResult {
    match (first.hits, second.hits) {
        (Some(a), Some(b)) => if a < b {
            DuelResult::Win
        } else if a > b {
            DuelResult::Loss
        } else {
            match first_mover(trick_room, first, second) {
                Some(true) => DuelResult::Win,
                Some(false) => DuelResult::Loss,
                None => DuelResult::Draw,
            }
        },
        (Some(_), None) => DuelResult::Win,
        (None, Some(_)) => DuelResult::Loss,
        (None, None) => DuelResult::Draw,
    }
}

pub fn duel(state: &State, first: PairResult, second: PairResult) -> (r: DuelResult)
    ensures
        r == duel_outcome(state.trick_room_active, first, second),
{
    match (first.hits, second.hits) {
        (Some(a), Some(b)) => {
            if a < b {
                DuelResult::Win
            } else if a > b {
                DuelResult::Loss
            } else {
                match moves_before(state, first, second) {
                    Some(true) => DuelResult::Win,
                    Some(false) => DuelResult::Loss,
                    None => DuelResult::Draw,
                }
            }
        },
        (Some(_), None) => DuelResult::Win,
        (None, Some(_)) => DuelResult::Loss,
        (None, None) => DuelResult::Draw,
    }
}

/// A duel has one outcome: what one Pokemon wins the other loses, and a draw
/// is a draw for both.
pub proof fn lemma_duel_is_antisymmetric(trick_room: bool, first: PairResult, second: PairResult)
    ensures
        duel_outcome(trick_room, second, first) == duel_outcome(
            trick_room,
            first,
            second,
        ).reversed(),
{
}

/// Two attacks that need the same hits at the same priority and speed draw.
pub proof fn lemma_true_speed_tie_draws(trick_room: bool, first: PairResult, second: PairResult)
    requires
        first.hits == second.hits,
        first.priority == second.priority,
        first.speed == second.speed,
    ensures
        duel_outcome(trick_room, first, second) == DuelResult::Draw,
{
}

/// Side one's Pokemon `i` attacking side two's Pokemon `j`.
pub open spec fn pair_from_one(state: State, i: int, j: int) -> Duelists {
    Duelists {
        state,
        attacking_side: state.side_one,
        attacker: state.side_one.pokemon@[i],
        attacker_active: i == state.side_one.active_index,
        defending_side: state.side_two,
        defender: state.side_two.pokemon@[j],
        defender_active: j == state.side_two.active_index,
    }
}

/// Side two's Pokemon `j` attacking side one's Pokemon `i`.
pub open spec fn pair_from_two(state: State, j: int, i: int) -> Duelists {
    Duelists {
        state,
        attacking_side: state.side_two,
        attacker: state.side_two.pokemon@[j],
        attacker_active: j == state.side_two.active_index,
        defending_side: state.side_one,
        defender: state.side_one.pokemon@[i],
        defender_active: i == state.side_one.active_index,
    }
}

/// Whether a Pokemon still stands.
pub open spec fn stands(side: Side, i: int) -> bool {
    side.pokemon@[i].hp > 0
}

/// How many of the first `n` Pokemon of a side still stand.
pub open spec fn standing(side: Side, n: int) -> int
    decreases n,
{
    if n <= 0 {
        0
    } else {
        standing(side, n - 1) + if stands(side, n - 1) {
            1int
        } else {
            0
        }
    }
}

/// Both attacks of one cell, side one's first, and the cache afterwards.
#[verifier::opaque]
pub open spec fn looked_up_both_ways(
    cache: Seq<CacheEntry>,
    state: State,
    i: int,
    j: int,
    calc: DamageFn,
) -> (PairResult, PairResult, Seq<CacheEntry>) {
    let p = pair_from_one(state, i, j);
    let q = pair_from_two(state, j, i);
    let (forth, between) = look_up(cache, p.key(), p, calc);
    let (back, after) = look_up(between, q.key(), q, calc);
    (forth, back, after)
}

/// Looks both attacks of one cell up.
fn both_ways<
    F: Fn(&State, &Side, &Pokemon, bool, &Side, &Pokemon, bool, &Choice) -> Option<i16>,
>(
    cache: &mut PairCache,
    state: &State,
    i: usize,
    j: usize,
    fingerprint_one: u64,
    fingerprint_two: u64,
    sensitivity_one: HpSensitivity,
    sensitivity_two: HpSensitivity,
    damage_formula: &F,
) -> (r: (PairResult, PairResult))
    requires
        state.wf(),
        old(cache).wf(),
        answers(*damage_formula),
        fits(*damage_formula),
        i < TEAM_SIZE,
        j < TEAM_SIZE,
        fingerprint_one == participant_hash(
            *state,
            state.side_one,
            state.side_one.pokemon@[i as int],
            i == state.side_one.active_index,
        ),
        fingerprint_two == participant_hash(
            *state,
            state.side_two,
            state.side_two.pokemon@[j as int],
            j == state.side_two.active_index,
        ),
        sensitivity_one == sensitivity_of(state.side_one.pokemon@[i as int]),
        sensitivity_two == sensitivity_of(state.side_two.pokemon@[j as int]),
    ensures
        final(cache).wf(),
        r.0.wf(),
        r.1.wf(),
        forall|calc: DamageFn|
            computes(*damage_formula, calc) ==> (r.0, r.1, final(cache)@)
                == #[trigger] looked_up_both_ways(old(cache)@, *state, i as int, j as int, calc),
{
    reveal(looked_up_both_ways);
    reveal(Duelists::key);
    let one = &state.side_one.pokemon[i];
    let two = &state.side_two.pokemon[j];
    assert(state.side_one.pokemon@[i as int].wf());
    assert(state.side_two.pokemon@[j as int].wf());
    let forth = ordered_pair_keyed(
        cache,
        state,
        &state.side_one,
        one,
        i == state.side_one.active_index,
        &state.side_two,
        two,
        j == state.side_two.active_index,
        fingerprint_one,
        fingerprint_two,
        sensitivity_one,
        damage_formula,
    );
    let back = ordered_pair_keyed(
        cache,
        state,
        &state.side_two,
        two,
        j == state.side_two.active_index,
        &state.side_one,
        one,
        i == state.side_one.active_index,
        fingerprint_two,
        fingerprint_one,
        sensitivity_two,
        damage_formula,
    );
    (forth, back)
}

/// The two tables while they are being filled, and the cache beside them.
#[verifier::ext_equal]
pub struct Tables {
    pub one: Seq<PairResult>,
    pub two: Seq<PairResult>,
    pub cache: Seq<CacheEntry>,
}

/// The tables after the first `n` cells, taken row by row: a cell of two
/// standing Pokemon is looked up in both directions, every other one is left
/// harmless.
pub open spec fn filled(state: State, calc: DamageFn, cache: Seq<CacheEntry>, n: int) -> Tables
    decreases n,
{
    if n <= 0 {
        Tables {
            one: Seq::new(36, |k: int| PairResult::harmless()),
            two: Seq::new(36, |k: int| PairResult::harmless()),
            cache,
        }
    } else {
        let t = filled(state, calc, cache, n - 1);
        let i = (n - 1) / 6;
        let j = (n - 1) % 6;
        if stands(state.side_one, i) && stands(state.side_two, j) {
            let (r, s, d) = looked_up_both_ways(t.cache, state, i, j, calc);
            Tables {
                one: t.one.update(cell(i, j), r),
                two: t.two.update(cell(j, i), s),
                cache: d,
            }
        } else {
            t
        }
    }
}

impl MatchupKernel {
    /// Who stands agrees with `state`, and no attack is negative.
    pub open spec fn wf(self, state: State) -> bool {
        &&& forall|i: int| 0 <= i < 6 ==> self.alive_one@[i] == #[trigger] stands(state.side_one, i)
        &&& forall|i: int| 0 <= i < 6 ==> self.alive_two@[i] == #[trigger] stands(state.side_two, i)
        &&& self.count_one == standing(state.side_one, 6)
        &&& self.count_two == standing(state.side_two, 6)
        &&& self.count_one <= 6
        &&& self.count_two <= 6
        &&& forall|k: int| 0 <= k < 36 ==> (#[trigger] self.one_to_two@[k]).wf()
        &&& forall|k: int| 0 <= k < 36 ==> (#[trigger] self.two_to_one@[k]).wf()
    }

    /// Works out every living pair of `state`.
    pub fn new<
        F: Fn(&State, &Side, &Pokemon, bool, &Side, &Pokemon, bool, &Choice) -> Option<i16>,
    >(state: &State, cache: &mut PairCache, damage_formula: &F) -> (k: Self)
        requires
            state.wf(),
            old(cache).wf(),
            answers(*damage_formula),
            fits(*damage_formula),
        ensures
            final(cache).wf(),
            k.wf(*state),
            forall|calc: DamageFn|
                computes(*damage_formula, calc) ==> #[trigger] filled(
                    *state,
                    calc,
                    old(cache)@,
                    36,
                ) == (Tables {
                    one: k.one_to_two@,
                    two: k.two_to_one@,
                    cache: final(cache)@,
                }),
    {
        let blank = PairResult::default();
        let mut k = MatchupKernel {
            one_to_two: [blank;36],
            two_to_one: [blank;36],
            alive_one: [false;6],
            alive_two: [false;6],
            count_one: 0,
            count_two: 0,
        };
        let mut i: usize = 0;
        while i < TEAM_SIZE
            invariant
                i <= TEAM_SIZE,
                forall|n: int|
                    0 <= n < i ==> k.alive_one@[n] == #[trigger] stands(state.side_one, n),
                forall|n: int|
                    0 <= n < i ==> k.alive_two@[n] == #[trigger] stands(state.side_two, n),
                k.count_one == standing(state.side_one, i as int),
                k.count_two == standing(state.side_two, i as int),
                k.count_one <= i,
                k.count_two <= i,
                forall|n: int| 0 <= n < 36 ==> k.one_to_two@[n] == PairResult::harmless(),
                forall|n: int| 0 <= n < 36 ==> k.two_to_one@[n] == PairResult::harmless(),
            decreases TEAM_SIZE - i,
        {
            k.alive_one[i] = state.side_one.pokemon[i].hp > 0;
            k.alive_two[i] = state.side_two.pokemon[i].hp > 0;
            if k.alive_one[i] {
                k.count_one = k.count_one + 1;
            }
            if k.alive_two[i] {
                k.count_two = k.count_two + 1;
            }
            i = i + 1;
        }
        let mut fingerprints_one: [u64; 6] = [0;6];
        let mut fingerprints_two: [u64; 6] = [0;6];
        let calm = HpSensitivity { attacker: false, defender: false };
        let mut sensitivity_one: [HpSensitivity; 6] = [calm;6];
        let mut sensitivity_two: [HpSensitivity; 6] = [calm;6];
        i = 0;
        while i < TEAM_SIZE
            invariant
                i <= TEAM_SIZE,
                forall|n: int|
                    0 <= n < 6 ==> k.alive_one@[n] == #[trigger] stands(state.side_one, n),
                forall|n: int|
                    0 <= n < 6 ==> k.alive_two@[n] == #[trigger] stands(state.side_two, n),
                forall|n: int|
                    0 <= n < i && #[trigger] stands(state.side_one, n) ==> fingerprints_one@[n]
                        == participant_hash(
                        *state,
                        state.side_one,
                        state.side_one.pokemon@[n],
                        n == state.side_one.active_index,
                    ) && sensitivity_one@[n] == sensitivity_of(state.side_one.pokemon@[n]),
                forall|n: int|
                    0 <= n < i && #[trigger] stands(state.side_two, n) ==> fingerprints_two@[n]
                        == participant_hash(
                        *state,
                        state.side_two,
                        state.side_two.pokemon@[n],
                        n == state.side_two.active_index,
                    ) && sensitivity_two@[n] == sensitivity_of(state.side_two.pokemon@[n]),
            decreases TEAM_SIZE - i,
        {
            assert(stands(state.side_one, i as int) == k.alive_one@[i as int]);
            assert(stands(state.side_two, i as int) == k.alive_two@[i as int]);
            if k.alive_one[i] {
                let pokemon = &state.side_one.pokemon[i];
                fingerprints_one[i] = participant_fingerprint(
                    state,
                    &state.side_one,
                    pokemon,
                    i == state.side_one.active_index,
                );
                sensitivity_one[i] = hp_sensitivity(pokemon);
            }
            if k.alive_two[i] {
                let pokemon = &state.side_two.pokemon[i];
                fingerprints_two[i] = participant_fingerprint(
                    state,
                    &state.side_two,
                    pokemon,
                    i == state.side_two.active_index,
                );
                sensitivity_two[i] = hp_sensitivity(pokemon);
            }
            i = i + 1;
        }
        let ghost cache0 = cache@;
        let ghost alive = (k.alive_one, k.alive_two, k.count_one, k.count_two);
        proof {
            assert forall|calc: DamageFn| true implies #[trigger] filled(*state, calc, cache0, 0)
                == (Tables { one: k.one_to_two@, two: k.two_to_one@, cache: cache@ }) by {
                assert(filled(*state, calc, cache0, 0).one =~= k.one_to_two@);
                assert(filled(*state, calc, cache0, 0).two =~= k.two_to_one@);
            }
        }
        let mut n: usize = 0;
        while n < 36
            invariant
                n <= 36,
                state.wf(),
                cache.wf(),
                answers(*damage_formula),
                fits(*damage_formula),
                alive == (k.alive_one, k.alive_two, k.count_one, k.count_two),
                forall|m: int|
                    0 <= m < 6 ==> k.alive_one@[m] == #[trigger] stands(state.side_one, m),
                forall|m: int|
                    0 <= m < 6 ==> k.alive_two@[m] == #[trigger] stands(state.side_two, m),
                forall|m: int|
                    0 <= m < 6 && #[trigger] stands(state.side_one, m) ==> fingerprints_one@[m]
                        == participant_hash(
                        *state,
                        state.side_one,
                        state.side_one.pokemon@[m],
                        m == state.side_one.active_index,
                    ) && sensitivity_one@[m] == sensitivity_of(state.side_one.pokemon@[m]),
                forall|m: int|
                    0 <= m < 6 && #[trigger] stands(state.side_two, m) ==> fingerprints_two@[m]
                        == participant_hash(
                        *state,
                        state.side_two,
                        state.side_two.pokemon@[m],
                        m == state.side_two.active_index,
                    ) && sensitivity_two@[m] == sensitivity_of(state.side_two.pokemon@[m]),
                forall|m: int| 0 <= m < 36 ==> (#[trigger] k.one_to_two@[m]).wf(),
                forall|m: int| 0 <= m < 36 ==> (#[trigger] k.two_to_one@[m]).wf(),
                forall|calc: DamageFn|
                    computes(*damage_formula, calc) ==> #[trigger] filled(
                        *state,
                        calc,
                        cache0,
                        n as int,
                    ) == (Tables { one: k.one_to_two@, two: k.two_to_one@, cache: cache@ }),
            decreases 36 - n,
        {
            let row: usize = n / 6;
            let column: usize = n % 6;
            let ghost before = Tables { one: k.one_to_two@, two: k.two_to_one@, cache: cache@ };
            assert(stands(state.side_one, row as int) == k.alive_one@[row as int]);
            assert(stands(state.side_two, column as int) == k.alive_two@[column as int]);
            if k.alive_one[row] && k.alive_two[column] {
                let ghost start = cache@;
                let (forth, back) = both_ways(
                    cache,
                    state,
                    row,
                    column,
                    fingerprints_one[row],
                    fingerprints_two[column],
                    sensitivity_one[row],
                    sensitivity_two[column],
                    damage_formula,
                );
                k.one_to_two[at(row, column)] = forth;
                k.two_to_one[at(column, row)] = back;
                proof {
                    assert forall|calc: DamageFn|
                        computes(*damage_formula, calc) implies #[trigger] filled(
                        *state,
                        calc,
                        cache0,
                        n + 1,
                    ) == (Tables { one: k.one_to_two@, two: k.two_to_one@, cache: cache@ }) by {
                        assert(filled(*state, calc, cache0, n as int) == before);
                        assert((forth, back, cache@) == looked_up_both_ways(
                            start,
                            *state,
                            row as int,
                            column as int,
                            calc,
                        ));
                    }
                }
            } else {
                proof {
                    assert forall|calc: DamageFn|
                        computes(*damage_formula, calc) implies #[trigger] filled(
                        *state,
                        calc,
                        cache0,
                        n + 1,
                    ) == before by {
                        assert(filled(*state, calc, cache0, n as int) == before);
                    }
                }
            }
            n = n + 1;
        }
        k
    }

    /// Side one's attack from Pokemon `a` on Pokemon `d`.
    pub fn one(&self, a: usize, d: usize) -> (r: PairResult)
        requires
            a < TEAM_SIZE,
            d < TEAM_SIZE,
        ensures
            r == self.one_to_two@[cell(a as int, d as int)],
    {
        self.one_to_two[at(a, d)]
    }

    /// Side two's attack from Pokemon `a` on Pokemon `d`.
    pub fn two(&self, a: usize, d: usize) -> (r: PairResult)
        requires
            a < TEAM_SIZE,
            d < TEAM_SIZE,
        ensures
            r == self.two_to_one@[cell(a as int, d as int)],
    {
        self.two_to_one[at(a, d)]
    }

    /// How the duel of side one's `one` and side two's `two` ends.
    pub open spec fn duel_at(self, state: State, one: int, two: int) -> DuelResult {
        duel_outcome(
            state.trick_room_active,
            self.one_to_two@[cell(one, two)],
            self.two_to_one@[cell(two, one)],
        )
    }

    pub fn duel_one(&self, state: &State, one: usize, two: usize) -> (r: DuelResult)
        requires
            one < TEAM_SIZE,
            two < TEAM_SIZE,
        ensures
            r == self.duel_at(*state, one as int, two as int),
    {
        duel(state, self.one(one, two), self.two(two, one))
    }
}

/// All the pairs of a position belong to `world`.
pub open spec fn pairs_within(state: State, world: spec_fn(Duelists) -> bool) -> bool {
    forall|i: int, j: int|
        0 <= i < 6 && 0 <= j < 6 ==> world(#[trigger] pair_from_one(state, i, j)) && world(
            #[trigger] pair_from_two(state, j, i),
        )
}

/// What a pair of standing Pokemon comes to when it is worked out afresh.
pub open spec fn afresh(pair: Duelists, calc: DamageFn) -> PairResult {
    counted(pair.best(calc), pair.defender.hp)
}

/// What side one's cell holds after the first `n` cells were worked out.
pub open spec fn entry_one(state: State, calc: DamageFn, i: int, j: int, n: int) -> PairResult {
    if cell(i, j) < n && stands(state.side_one, i) && stands(state.side_two, j) {
        afresh(pair_from_one(state, i, j), calc)
    } else {
        PairResult::harmless()
    }
}

/// What side two's cell holds after the first `n` cells were worked out.
pub open spec fn entry_two(state: State, calc: DamageFn, j: int, i: int, n: int) -> PairResult {
    if cell(i, j) < n && stands(state.side_one, i) && stands(state.side_two, j) {
        afresh(pair_from_two(state, j, i), calc)
    } else {
        PairResult::harmless()
    }
}

/// Whether the tables hold what working every pair out afresh gives.
pub open spec fn worked_out(
    state: State,
    calc: DamageFn,
    one: Seq<PairResult>,
    two: Seq<PairResult>,
    n: int,
) -> bool {
    &&& one.len() == 36
    &&& two.len() == 36
    &&& forall|i: int, j: int|
        0 <= i < 6 && 0 <= j < 6 ==> one[#[trigger] cell(i, j)] == entry_one(state, calc, i, j, n)
    &&& forall|i: int, j: int|
        0 <= i < 6 && 0 <= j < 6 ==> two[#[trigger] cell(j, i)] == entry_two(state, calc, j, i, n)
}

/// The cache is transparent: started truthful, and with no key shared by two
/// pairs that differ, the kernel holds what working every pair out afresh
/// gives, and it leaves the cache truthful.
pub proof fn lemma_kernel_matches_uncached(
    state: State,
    calc: DamageFn,
    cache: Seq<CacheEntry>,
    world: spec_fn(Duelists) -> bool,
    n: int,
)
    requires
        0 <= n <= 36,
        truthful(cache, world, calc),
        collision_free(world, calc),
        pairs_within(state, world),
    ensures
        truthful(filled(state, calc, cache, n).cache, world, calc),
        worked_out(
            state,
            calc,
            filled(state, calc, cache, n).one,
            filled(state, calc, cache, n).two,
            n,
        ),
    decreases n,
{
    if n > 0 {
        lemma_kernel_matches_uncached(state, calc, cache, world, n - 1);
        let t = filled(state, calc, cache, n - 1);
        let i = (n - 1) / 6;
        let j = (n - 1) % 6;
        let p = pair_from_one(state, i, j);
        let q = pair_from_two(state, j, i);
        reveal(looked_up_both_ways);
        if stands(state.side_one, i) && stands(state.side_two, j) {
            lemma_cached_pair_matches_uncached(t.cache, world, p, calc);
            let c = look_up(t.cache, p.key(), p, calc).1;
            lemma_cached_pair_matches_uncached(c, world, q, calc);
        }
        let u = filled(state, calc, cache, n);
        assert forall|a: int, b: int| 0 <= a < 6 && 0 <= b < 6 implies u.one[#[trigger] cell(a, b)]
            == entry_one(state, calc, a, b, n) by {
            assert(t.one[cell(a, b)] == entry_one(state, calc, a, b, n - 1));
            if cell(a, b) == n - 1 {
                assert(a == i && b == j);
            }
        }
        assert forall|a: int, b: int| 0 <= a < 6 && 0 <= b < 6 implies u.two[#[trigger] cell(b, a)]
            == entry_two(state, calc, b, a, n) by {
            assert(t.two[cell(b, a)] == entry_two(state, calc, b, a, n - 1));
            if cell(a, b) == n - 1 {
                assert(a == i && b == j);
            } else {
                assert(cell(b, a) != cell(j, i));
            }
        }
    }
}

/// What entry hazards leave of a Pokemon that switches in.
pub open spec fn hp_after_entry(side: Side, p: Pokemon) -> int {
    if p.item == Items::HEAVYDUTYBOOTS || p.ability == Abilities::MAGICGUARD {
        p.hp as int
    } else {
        let after_rocks = if side.side_conditions.stealth_rock > 0 {
            p.hp - p.maxhp * p.taken(PokemonType::ROCK) / 32
        } else {
            p.hp as int
        };
        if after_rocks > 0 && side.side_conditions.spikes > 0 && p.grounded {
            after_rocks - p.maxhp * side.side_conditions.spikes / 8
        } else {
            after_rocks
        }
    }
}

pub fn entry_hp(side: &Side, pokemon: &Pokemon) -> (r: i16)
    requires
        pokemon.wf(),
        pokemon.maxhp * side.side_conditions.spikes <= i16::MAX,
    ensures
        r == hp_after_entry(*side, *pokemon),
        r <= pokemon.hp,
{
    if pokemon.item == Items::HEAVYDUTYBOOTS || pokemon.ability == Abilities::MAGICGUARD {
        return pokemon.hp;
    }
    let mut hp: i32 = pokemon.hp as i32;
    if side.side_conditions.stealth_rock > 0 {
        let share: i32 = pokemon.type_effectiveness(PokemonType::ROCK) as i32;
        proof {
            assert(0 <= pokemon.maxhp as i32 * share <= 32767 * 16) by (nonlinear_arith)
                requires
                    0 <= pokemon.maxhp <= 32767,
                    0 <= share <= 16,
            ;
        }
        hp = hp - pokemon.maxhp as i32 * share / 32;
    }
    if hp > 0 && side.side_conditions.spikes > 0 && pokemon.grounded {
        proof {
            assert(0 <= pokemon.maxhp * side.side_conditions.spikes) by (nonlinear_arith)
                requires
                    0 <= pokemon.maxhp,
                    0 < side.side_conditions.spikes,
            ;
        }
        hp = hp - pokemon.maxhp as i32 * side.side_conditions.spikes as i32 / 8;
    }
    hp as i16
}

/// Entry hazards do not touch a Pokemon in heavy-duty boots or with magic guard.
pub proof fn lemma_hazards_spare_protected(side: Side, p: Pokemon)
    requires
        p.item == Items::HEAVYDUTYBOOTS || p.ability == Abilities::MAGICGUARD,
    ensures
        hp_after_entry(side, p) == p.hp,
{
}

/// An attack and its answer once the answering Pokemon has paid its entry and
/// taken one attack on the way in: the hits each side still needs.
pub open spec fn answered(
    trick_room: bool,
    attack: PairResult,
    reply: PairResult,
    threat_hp: i16,
    entry_hp: int,
) -> bool {
    let left = entry_hp - attack.damage;
    entry_hp > 0 && left > 0 && duel_outcome(
        trick_room,
        PairResult { hits: hits_to_faint(reply.damage, threat_hp), ..reply },
        PairResult { hits: hits_to_faint(attack.damage, left as i16), ..attack },
    ) == DuelResult::Win
}

impl MatchupKernel {
    /// Whether `candidate` can come in on `threat` and win from there. The
    /// threat is on side one if `threat_on_one`.
    pub open spec fn counters(
        self,
        state: State,
        threat_on_one: bool,
        threat: int,
        candidate: int,
    ) -> bool {
        if threat_on_one {
            answered(
                state.trick_room_active,
                self.one_to_two@[cell(threat, candidate)],
                self.two_to_one@[cell(candidate, threat)],
                state.side_one.pokemon@[threat].hp,
                hp_after_entry(state.side_two, state.side_two.pokemon@[candidate]),
            )
        } else {
            answered(
                state.trick_room_active,
                self.two_to_one@[cell(threat, candidate)],
                self.one_to_two@[cell(candidate, threat)],
                state.side_two.pokemon@[threat].hp,
                hp_after_entry(state.side_one, state.side_one.pokemon@[candidate]),
            )
        }
    }
}

/// Entry damage from spikes can be worked out in 16 bits.
pub open spec fn spikes_fit(side: Side) -> bool {
    forall|i: int|
        0 <= i < 6 ==> (#[trigger] side.pokemon@[i]).maxhp * side.side_conditions.spikes
            <= i16::MAX
}

/// Whether entry damage from spikes can be worked out in 16 bits.
pub fn spikes_are_few(side: &Side) -> (r: bool)
    ensures
        r == spikes_fit(*side),
{
    let mut i: usize = 0;
    while i < 6
        invariant
            i <= 6,
            forall|k: int|
                0 <= k < i ==> (#[trigger] side.pokemon@[k]).maxhp * side.side_conditions.spikes
                    <= i16::MAX,
        decreases 6 - i,
    {
        let most: i32 = side.pokemon[i].maxhp as i32;
        let layers: i32 = side.side_conditions.spikes as i32;
        proof {
            assert(-0x80_0000 <= most * layers <= 0x80_0000) by (nonlinear_arith)
                requires
                    -0x8000 <= most <= 0x7fff,
                    -0x80 <= layers <= 0x7f,
            ;
        }
        if most * layers > i16::MAX as i32 {
            assert(side.pokemon@[i as int].maxhp * side.side_conditions.spikes > i16::MAX);
            return false;
        }
        i = i + 1;
    }
    true
}

pub fn is_counter(
    state: &State,
    kernel: &MatchupKernel,
    threat_on_one: bool,
    threat: usize,
    candidate: usize,
) -> (r: bool)
    requires
        state.wf(),
        kernel.wf(*state),
        spikes_fit(state.side_one),
        spikes_fit(state.side_two),
        threat < TEAM_SIZE,
        candidate < TEAM_SIZE,
    ensures
        r == kernel.counters(*state, threat_on_one, threat as int, candidate as int),
{
    let (a_side, b_side) = if threat_on_one {
        (&state.side_one, &state.side_two)
    } else {
        (&state.side_two, &state.side_one)
    };
    let a = &a_side.pokemon[threat];
    let b = &b_side.pokemon[candidate];
    assert(a_side.pokemon@[threat as int].wf());
    assert(b_side.pokemon@[candidate as int].wf());
    let mut remaining_hp: i16 = entry_hp(b_side, b);
    if remaining_hp <= 0 {
        return false;
    }
    let attack = if threat_on_one {
        kernel.one(threat, candidate)
    } else {
        kernel.two(threat, candidate)
    };
    assert(attack.wf());
    remaining_hp = remaining_hp - attack.damage;
    if remaining_hp <= 0 {
        return false;
    }
    let reply = if threat_on_one {
        kernel.two(candidate, threat)
    } else {
        kernel.one(candidate, threat)
    };
    let attack = crate::matchup::pair::with_hits(attack, remaining_hp);
    let reply = crate::matchup::pair::with_hits(reply, a.hp);
    duel(state, reply, attack) == DuelResult::Win
}

} // verus!
