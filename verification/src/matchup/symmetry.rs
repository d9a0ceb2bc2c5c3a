//! Swapping the two sides swaps the tables of the kernel.

use crate::matchup::cache::{collision_free, truthful, CacheEntry};
use crate::matchup::kernel::{
    cell, entry_one, entry_two, filled, lemma_kernel_matches_uncached, pair_from_one,
    pair_from_two, pairs_within, standing, stands, MatchupKernel,
};
use crate::matchup::pair::{exact_speed, matchup_speed, priority_in_matchup, DamageFn, Duelists};
use crate::state::{Choice, Pokemon, Side, State};
use vstd::prelude::*;

verus! {

/// Whether a damage formula does not care which side is called one.
pub open spec fn side_blind(calc: DamageFn) -> bool {
    forall|s: State, aside: Side, a: Pokemon, aa: bool, dside: Side, d: Pokemon, da: bool, c: Choice|
        #[trigger] calc(s.swapped(), aside, a, aa, dside, d, da, c) == calc(
            s,
            aside,
            a,
            aa,
            dside,
            d,
            da,
            c,
        )
}

/// The same two Pokemon with the sides of the position swapped.
pub open spec fn swapped_around(pair: Duelists) -> Duelists {
    Duelists { state: pair.state.swapped(), ..pair }
}

proof fn lemma_attack_is_side_blind(pair: Duelists, slot: int)
    ensures
        swapped_around(pair).attack(slot) == pair.attack(slot),
{
}

proof fn lemma_speed_is_side_blind(state: State, side: Side, pokemon: Pokemon, active: bool)
    ensures
        matchup_speed(state.swapped(), side, pokemon, active) == matchup_speed(
            state,
            side,
            pokemon,
            active,
        ),
{
    assert(exact_speed(state.swapped(), side, pokemon, active) == exact_speed(
        state,
        side,
        pokemon,
        active,
    ));
}

proof fn lemma_best_is_side_blind(pair: Duelists, n: int, calc: DamageFn)
    requires
        side_blind(calc),
    ensures
        swapped_around(pair).best_of(n, calc) == pair.best_of(n, calc),
    decreases n,
{
    let q = swapped_around(pair);
    if n <= 0 {
        lemma_speed_is_side_blind(
            pair.state,
            pair.attacking_side,
            pair.attacker,
            pair.attacker_active,
        );
    } else {
        lemma_best_is_side_blind(pair, n - 1, calc);
        lemma_attack_is_side_blind(pair, n - 1);
        let c = pair.attack(n - 1);
        assert(q.attack(n - 1) == c);
        assert(priority_in_matchup(q.state, q.attacker, c) == priority_in_matchup(
            pair.state,
            pair.attacker,
            c,
        ));
        assert(calc(
            q.state,
            q.attacking_side,
            q.attacker,
            q.attacker_active,
            q.defending_side,
            q.defender,
            q.defender_active,
            c,
        ) == calc(
            pair.state,
            pair.attacking_side,
            pair.attacker,
            pair.attacker_active,
            pair.defending_side,
            pair.defender,
            pair.defender_active,
            c,
        ));
        assert(q.attack_damage(n - 1, calc) == pair.attack_damage(n - 1, calc));
        assert(q.attack_priority(n - 1) == pair.attack_priority(n - 1));
    }
}

/// Side symmetry of the kernel: with a damage formula that is blind to the
/// side, the tables of a position with the sides swapped are the tables of
/// the position, swapped, whatever truthful caches the two started from.
pub proof fn lemma_kernel_is_side_symmetric(
    state: State,
    calc: DamageFn,
    cache: Seq<CacheEntry>,
    other_cache: Seq<CacheEntry>,
    world: spec_fn(Duelists) -> bool,
)
    requires
        side_blind(calc),
        truthful(cache, world, calc),
        truthful(other_cache, world, calc),
        collision_free(world, calc),
        pairs_within(state, world),
        pairs_within(state.swapped(), world),
    ensures
        filled(state.swapped(), calc, other_cache, 36).one == filled(state, calc, cache, 36).two,
        filled(state.swapped(), calc, other_cache, 36).two == filled(state, calc, cache, 36).one,
{
    let flip = state.swapped();
    lemma_kernel_matches_uncached(state, calc, cache, world, 36);
    lemma_kernel_matches_uncached(flip, calc, other_cache, world, 36);
    let t = filled(state, calc, cache, 36);
    let u = filled(flip, calc, other_cache, 36);
    assert forall|k: int| 0 <= k < 36 implies u.one[k] == t.two[k] && u.two[k] == t.one[k] by {
        let i = k / 6;
        let j = k % 6;
        assert(k == cell(i, j));
        assert(u.one[cell(i, j)] == entry_one(flip, calc, i, j, 36));
        assert(t.two[cell(i, j)] == entry_two(state, calc, i, j, 36));
        assert(u.two[cell(i, j)] == entry_two(flip, calc, i, j, 36));
        assert(t.one[cell(i, j)] == entry_one(state, calc, i, j, 36));
        let p = pair_from_two(state, i, j);
        assert(pair_from_one(flip, i, j) == swapped_around(p));
        lemma_best_is_side_blind(p, 4, calc);
        let q = pair_from_one(state, i, j);
        assert(pair_from_two(flip, i, j) == swapped_around(q));
        lemma_best_is_side_blind(q, 4, calc);
        assert(cell(i, j) < 36 && cell(j, i) < 36);
    }
    assert(u.one =~= t.two);
    assert(u.two =~= t.one);
}

proof fn lemma_standing_swaps(state: State, n: int)
    ensures
        standing(state.swapped().side_one, n) == standing(state.side_two, n),
        standing(state.swapped().side_two, n) == standing(state.side_one, n),
{
}

/// The kernel of a position with the sides swapped is the kernel of the
/// position with its fields swapped: the tables, who stands, and how many.
pub proof fn lemma_swapped_kernel(
    k: MatchupKernel,
    swapped: MatchupKernel,
    state: State,
    calc: DamageFn,
    cache: Seq<CacheEntry>,
    other_cache: Seq<CacheEntry>,
    world: spec_fn(Duelists) -> bool,
)
    requires
        side_blind(calc),
        truthful(cache, world, calc),
        truthful(other_cache, world, calc),
        collision_free(world, calc),
        pairs_within(state, world),
        pairs_within(state.swapped(), world),
        k.wf(state),
        k.one_to_two@ == filled(state, calc, cache, 36).one,
        k.two_to_one@ == filled(state, calc, cache, 36).two,
        swapped.wf(state.swapped()),
        swapped.one_to_two@ == filled(state.swapped(), calc, other_cache, 36).one,
        swapped.two_to_one@ == filled(state.swapped(), calc, other_cache, 36).two,
    ensures
        swapped.one_to_two@ == k.two_to_one@,
        swapped.two_to_one@ == k.one_to_two@,
        swapped.alive_one@ == k.alive_two@,
        swapped.alive_two@ == k.alive_one@,
        swapped.count_one == k.count_two,
        swapped.count_two == k.count_one,
{
    lemma_kernel_is_side_symmetric(state, calc, cache, other_cache, world);
    lemma_standing_swaps(state, 6);
    let flip = state.swapped();
    assert forall|i: int| 0 <= i < 6 implies swapped.alive_one@[i] == k.alive_two@[i]
        && swapped.alive_two@[i] == k.alive_one@[i] by {
        assert(stands(flip.side_one, i) == stands(state.side_two, i));
        assert(stands(flip.side_two, i) == stands(state.side_one, i));
    }
    assert(swapped.alive_one@ =~= k.alive_two@);
    assert(swapped.alive_two@ =~= k.alive_one@);
}

} // verus!
