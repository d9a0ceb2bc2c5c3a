//! What the attacks that a kernel keeps are: the strongest of each pair, and
//! how many of them a knock-out takes.

use crate::matchup::cache::{collision_free, truthful, CacheEntry};
use crate::matchup::kernel::{
    cell, duel_outcome, entry_one, entry_two, filled, first_mover, hp_after_entry,
    lemma_kernel_matches_uncached, pair_from_one, pair_from_two, pairs_within, stands, DuelResult,
};
use crate::matchup::pair::{
    hits_per_use, hits_to_faint, is_immune, matchup_speed, slot_attacks, DamageFn, Duelists,
    PairResult,
};
use crate::state::{
    Abilities, Choice, Choices, Items, MoveCategory, Pokemon, PokemonType, Side,
    State,
};
use vstd::prelude::*;

verus! {

/// Whether a slot holds a move that is not disabled, can be used, and does
/// damage.
pub open spec fn usable(p: Pokemon, slot: int) -> bool {
    &&& 0 <= slot < 4
    &&& !p.moves@[slot].disabled
    &&& p.moves@[slot].pp > 0
    &&& p.moves@[slot].choice.category == MoveCategory::Physical || p.moves@[slot].choice.category
        == MoveCategory::Special
}

/// Whether the damage and the priority of every attack fit where they are
/// kept.
pub open spec fn moderate(p: Duelists, calc: DamageFn) -> bool {
    forall|slot: int|
        0 <= slot < 4 ==> 0 <= #[trigger] p.attack_damage(slot, calc) <= i16::MAX && i8::MIN
            <= p.attack_priority(slot) <= i8::MAX
}

proof fn lemma_best_so_far(p: Duelists, calc: DamageFn, n: int)
    requires
        0 <= n <= 4,
        moderate(p, calc),
    ensures
        ({
            let best = p.best_of(n, calc);
            let kept = best.move_slot as int;
            &&& best.damage >= 0
            &&& best.hits is None
            &&& forall|slot: int|
                0 <= slot < n && usable(p.attacker, slot) ==> best.damage
                    >= #[trigger] p.attack_damage(slot, calc)
            &&& forall|slot: int|
                0 <= slot < n && usable(p.attacker, slot) && #[trigger] p.attack_damage(slot, calc)
                    == best.damage ==> best.priority >= p.attack_priority(slot)
            &&& forall|slot: int|
                0 <= slot < n && usable(p.attacker, slot) && #[trigger] p.attack_damage(slot, calc)
                    == best.damage && p.attack_priority(slot) == best.priority ==> kept <= slot
            &&& best.damage == 0 && best.priority == 0 && kept == 0 || (usable(p.attacker, kept)
                && kept < n && best.damage == p.attack_damage(kept, calc) && best.priority
                == p.attack_priority(kept))
        }),
    decreases n,
{
    if n > 0 {
        lemma_best_so_far(p, calc, n - 1);
        assert(0 <= p.attack_damage(n - 1, calc) <= i16::MAX);
        let c = p.attacker.moves@[n - 1].choice.category;
        assert(usable(p.attacker, n - 1) == slot_attacks(p.attacker, n - 1));
    }
}

/// The kept attack is the strongest: no usable attack does more damage, none
/// of the same damage has a higher priority, and none of the same priority
/// too stands in an earlier slot. It is one of the usable attacks, unless no
/// attack does any damage.
pub proof fn lemma_kept_attack_is_the_strongest(p: Duelists, calc: DamageFn)
    requires
        moderate(p, calc),
    ensures
        ({
            let best = p.best(calc);
            let kept = best.move_slot as int;
            &&& forall|slot: int|
                usable(p.attacker, slot) ==> best.damage >= #[trigger] p.attack_damage(slot, calc)
            &&& forall|slot: int|
                usable(p.attacker, slot) && #[trigger] p.attack_damage(slot, calc) == best.damage
                    ==> best.priority >= p.attack_priority(slot)
            &&& forall|slot: int|
                usable(p.attacker, slot) && #[trigger] p.attack_damage(slot, calc) == best.damage
                    && p.attack_priority(slot) == best.priority ==> kept <= slot
            &&& best.damage > 0 ==> usable(p.attacker, kept) && best.damage == p.attack_damage(
                kept,
                calc,
            ) && best.priority == p.attack_priority(kept)
        }),
{
    lemma_best_so_far(p, calc, 4);
}

/// What an attack does: nothing to a target that is immune; the level of the
/// attacker, or half of what the target has left, by the moves that say so;
/// and else what the damage formula gives, once for each hit.
pub proof fn lemma_what_an_attack_does(p: Duelists, slot: int, calc: DamageFn)
    requires
        0 <= slot < 4,
    ensures
        ({
            let c = p.attack(slot);
            let id = p.attacker.moves@[slot].choice.move_id;
            let dealt = calc(
                p.state,
                p.attacking_side,
                p.attacker,
                p.attacker_active,
                p.defending_side,
                p.defender,
                p.defender_active,
                c,
            );
            let level_move = id == Choices::NIGHTSHADE || id == Choices::SEISMICTOSS;
            let half_move = id == Choices::SUPERFANG || id == Choices::RUINATION;
            &&& c.move_id == id
            &&& is_immune(p.attacker, p.defender, c) ==> p.attack_damage(slot, calc) == 0
            &&& !is_immune(p.attacker, p.defender, c) ==> {
                &&& level_move ==> p.attack_damage(slot, calc) == p.attacker.level
                &&& half_move ==> p.attack_damage(slot, calc) == p.defender.hp as int / 2
                &&& !level_move && !half_move && (dealt matches Some(v) && v > 0)
                    ==> p.attack_damage(slot, calc) == dealt->0 * hits_per_use(p.attacker, c)
                &&& !level_move && !half_move && !(dealt matches Some(v) && v > 0)
                    ==> p.attack_damage(slot, calc) == 0
            }
        }),
{
}

/// A move that hits several times counts as so many hits: two or three where
/// that is fixed, three of two to five, or four with loaded dice and five
/// with skill link, and of ten six, or nine with a wide lens.
pub proof fn lemma_hits_of_a_move(p: Pokemon, c: Choice)
    ensures
        1 <= hits_per_use(p, c) <= 9,
        c.multi_hit is SingleHit <==> hits_per_use(p, c) == 1,
        c.multi_hit is DoubleHit <==> hits_per_use(p, c) == 2,
        c.multi_hit is TripleHit || c.multi_hit is TripleAxel ==> hits_per_use(p, c) == 3,
        c.multi_hit is TwoToFiveHits ==> 3 <= hits_per_use(p, c) <= 5,
        c.multi_hit is TwoToFiveHits ==> (hits_per_use(p, c) == 5 <==> p.ability
            == Abilities::SKILLLINK),
        c.multi_hit is TwoToFiveHits && p.ability != Abilities::SKILLLINK ==> (hits_per_use(p, c)
            == 4 <==> p.item == Items::LOADEDDICE),
        c.multi_hit is PopulationBomb ==> hits_per_use(p, c) == 6 || hits_per_use(p, c) == 9,
        c.multi_hit is PopulationBomb ==> (hits_per_use(p, c) == 9 <==> p.item == Items::WIDELENS),
{
}

/// Abilities that take a type of move for nothing: each takes just its type,
/// and none of them a mold breaker's.
pub proof fn lemma_abilities_that_take_nothing(a: Pokemon, d: Pokemon, c: Choice)
    ensures
        a.ability == Abilities::MOLDBREAKER ==> !is_immune(a, d, c),
        a.ability != Abilities::MOLDBREAKER ==> {
            &&& d.ability == Abilities::LEVITATE ==> (is_immune(a, d, c) <==> c.move_type
                == PokemonType::GROUND && c.move_id != Choices::THOUSANDARROWS)
            &&& d.ability == Abilities::EARTHEATER ==> (is_immune(a, d, c) <==> c.move_type
                == PokemonType::GROUND)
            &&& d.ability == Abilities::FLASHFIRE ==> (is_immune(a, d, c) <==> c.move_type
                == PokemonType::FIRE)
            &&& d.ability == Abilities::SAPSIPPER ==> (is_immune(a, d, c) <==> c.move_type
                == PokemonType::GRASS)
            &&& d.ability == Abilities::VOLTABSORB || d.ability == Abilities::LIGHTNINGROD
                || d.ability == Abilities::MOTORDRIVE ==> (is_immune(a, d, c) <==> c.move_type
                == PokemonType::ELECTRIC)
            &&& d.ability == Abilities::WATERABSORB || d.ability == Abilities::STORMDRAIN
                || d.ability == Abilities::DRYSKIN ==> (is_immune(a, d, c) <==> c.move_type
                == PokemonType::WATER)
            &&& d.ability == Abilities::WONDERGUARD ==> (is_immune(a, d, c) <==> d.taken(
                c.move_type,
            ) <= 4)
            &&& d.ability == Abilities::NONE ==> !is_immune(a, d, c)
        },
{
}

/// The hits to a knock-out are the fewest that take all hit points; an attack
/// that does no damage never gets there.
pub proof fn lemma_fewest_hits(damage: i16, hp: i16)
    requires
        hp > 0,
    ensures
        damage <= 0 ==> hits_to_faint(damage, hp) is None,
        damage > 0 ==> (hits_to_faint(damage, hp) matches Some(n) && 1 <= n && n * damage >= hp
            && (n - 1) * damage < hp),
{
    if damage > 0 {
        let d = damage as int;
        let t = hp + d - 1;
        vstd::arithmetic::div_mod::lemma_fundamental_div_mod(t, d);
        vstd::arithmetic::div_mod::lemma_mod_bound(t, d);
        let q = t / d;
        assert(1 <= q <= hp) by (nonlinear_arith)
            requires
                t == d * q + t % d,
                0 <= t % d < d,
                t == hp + d - 1,
                d >= 1,
                hp >= 1,
        ;
        assert(q * d == d * q) by (nonlinear_arith);
        assert((q - 1) * d == q * d - d) by (nonlinear_arith);
    }
}

/// Whether an attack comes before another: it has the higher priority, or the
/// same and the higher speed, the lower one under trick room.
pub open spec fn strikes_first(trick_room: bool, a: PairResult, b: PairResult) -> bool {
    a.priority > b.priority || (a.priority == b.priority && if trick_room {
        a.speed < b.speed
    } else {
        a.speed > b.speed
    })
}

/// Who moves first is told by priority and speed alone.
pub proof fn lemma_who_strikes_first(trick_room: bool, a: PairResult, b: PairResult)
    ensures
        first_mover(trick_room, a, b) == Some(true) <==> strikes_first(trick_room, a, b),
        first_mover(trick_room, a, b) == Some(false) <==> strikes_first(trick_room, b, a),
        first_mover(trick_room, a, b) is None <==> a.priority == b.priority && a.speed == b.speed,
{
}

/// A duel is won by whoever needs fewer hits, and at as many by whoever
/// strikes first; one who never does damage cannot win.
pub proof fn lemma_who_wins_a_duel(trick_room: bool, a: PairResult, b: PairResult)
    ensures
        duel_outcome(trick_room, a, b) == DuelResult::Win <==> (a.hits matches Some(n) && (
        b.hits is None || n < b.hits->0 || (n == b.hits->0 && strikes_first(trick_room, a, b)))),
        duel_outcome(trick_room, a, b) == DuelResult::Loss <==> (b.hits matches Some(n) && (
        a.hits is None || n < a.hits->0 || (n == a.hits->0 && strikes_first(trick_room, b, a)))),
{
}

/// The turns of a duel, played out: the one who wins does enough damage in
/// some turn, before the other did in an earlier turn or, if the other comes
/// first, in the same.
pub proof fn lemma_a_duel_played_out(
    trick_room: bool,
    a: PairResult,
    b: PairResult,
    hp_a: i16,
    hp_b: i16,
    turns: int,
)
    requires
        hp_a > 0,
        hp_b > 0,
        a.damage >= 0,
        b.damage >= 0,
        a.hits == hits_to_faint(a.damage, hp_b),
        b.hits == hits_to_faint(b.damage, hp_a),
        turns >= 1,
        turns * a.damage >= hp_b,
        (turns - 1) * a.damage < hp_b,
        strikes_first(trick_room, a, b) ==> (turns - 1) * b.damage < hp_a,
        !strikes_first(trick_room, a, b) ==> turns * b.damage < hp_a,
    ensures
        duel_outcome(trick_room, a, b) == DuelResult::Win,
{
    lemma_fewest_hits(a.damage, hp_b);
    lemma_fewest_hits(b.damage, hp_a);
    assert(a.damage > 0) by (nonlinear_arith)
        requires
            turns * a.damage >= hp_b,
            hp_b > 0,
            a.damage >= 0,
    ;
    let n = a.hits->0 as int;
    let d = a.damage as int;
    assert(n == turns) by (nonlinear_arith)
        requires
            n * d >= hp_b,
            (n - 1) * d < hp_b,
            turns * d >= hp_b,
            (turns - 1) * d < hp_b,
            d > 0,
    ;
    if b.damage > 0 {
        let m = b.hits->0 as int;
        let e = b.damage as int;
        if strikes_first(trick_room, a, b) {
            assert(m >= turns) by (nonlinear_arith)
                requires
                    m * e >= hp_a,
                    (turns - 1) * e < hp_a,
                    e > 0,
            ;
        } else {
            assert(m > turns) by (nonlinear_arith)
                requires
                    m * e >= hp_a,
                    turns * e < hp_a,
                    e > 0,
            ;
        }
    }
}

/// What the kernel keeps of a standing pair is the strongest attack of side
/// one's Pokemon `i` on side two's `j`, and of `j` on `i`, with the fewest
/// hits to a knock-out and the attacker's speed; nothing is kept of a pair
/// that does not stand.
pub proof fn lemma_what_the_kernel_keeps(
    state: State,
    calc: DamageFn,
    cache: Seq<CacheEntry>,
    world: spec_fn(Duelists) -> bool,
    i: int,
    j: int,
)
    requires
        truthful(cache, world, calc),
        collision_free(world, calc),
        pairs_within(state, world),
        0 <= i < 6,
        0 <= j < 6,
        moderate(pair_from_one(state, i, j), calc),
        moderate(pair_from_two(state, j, i), calc),
    ensures
        ({
            let one = state.side_one.pokemon@[i];
            let two = state.side_two.pokemon@[j];
            let forth = filled(state, calc, cache, 36).one[i * 6 + j];
            let back = filled(state, calc, cache, 36).two[j * 6 + i];
            let p = pair_from_one(state, i, j);
            let q = pair_from_two(state, j, i);
            &&& p.attacker == one && p.defender == two && q.attacker == two && q.defender == one
            &&& p.state == state && q.state == state
            &&& p.attacking_side == state.side_one && p.defending_side == state.side_two
            &&& q.attacking_side == state.side_two && q.defending_side == state.side_one
            &&& p.attacker_active == (i == state.side_one.active_index) && p.defender_active == (j
                == state.side_two.active_index)
            &&& q.attacker_active == p.defender_active && q.defender_active == p.attacker_active
            &&& one.hp > 0 && two.hp > 0 ==> {
                &&& forall|slot: int|
                    usable(one, slot) ==> forth.damage >= #[trigger] p.attack_damage(slot, calc)
                &&& forall|slot: int|
                    usable(two, slot) ==> back.damage >= #[trigger] q.attack_damage(slot, calc)
                &&& forth.damage > 0 ==> usable(one, forth.move_slot as int) && forth.damage
                    == p.attack_damage(forth.move_slot as int, calc)
                &&& back.damage > 0 ==> usable(two, back.move_slot as int) && back.damage
                    == q.attack_damage(back.move_slot as int, calc)
                &&& forth.damage > 0 ==> (forth.hits matches Some(n) && n * forth.damage >= two.hp
                    && (n - 1) * forth.damage < two.hp)
                &&& back.damage > 0 ==> (back.hits matches Some(n) && n * back.damage >= one.hp
                    && (n - 1) * back.damage < one.hp)
                &&& forth.damage == 0 ==> forth.hits is None
                &&& back.damage == 0 ==> back.hits is None
            }
            &&& one.hp <= 0 || two.hp <= 0 ==> forth.damage == 0 && back.damage == 0
                && forth.hits is None && back.hits is None
        }),
{
    let p = pair_from_one(state, i, j);
    let q = pair_from_two(state, j, i);
    lemma_kernel_matches_uncached(state, calc, cache, world, 36);
    let tables = filled(state, calc, cache, 36);
    assert(tables.one[cell(i, j)] == entry_one(state, calc, i, j, 36));
    assert(tables.two[cell(j, i)] == entry_two(state, calc, j, i, 36));
    lemma_best_so_far(p, calc, 4);
    lemma_best_so_far(q, calc, 4);
    if stands(state.side_one, i) && stands(state.side_two, j) {
        lemma_fewest_hits(tables.one[cell(i, j)].damage, state.side_two.pokemon@[j].hp);
        lemma_fewest_hits(tables.two[cell(j, i)].damage, state.side_one.pokemon@[i].hp);
    }
}

/// Whether what a side has on its floor can hurt a Pokemon that comes in.
pub open spec fn can_be_hurt(p: Pokemon) -> bool {
    p.item != Items::HEAVYDUTYBOOTS && p.ability != Abilities::MAGICGUARD
}

/// Entry hazards: without any, coming in costs nothing; rocks cost an eighth
/// of the full hit points times the effectiveness of rock; spikes cost an
/// eighth for each layer, of those who touch the ground and were not felled
/// by rocks.
pub proof fn lemma_what_entry_costs(side: Side, p: Pokemon)
    requires
        p.maxhp >= 0,
    ensures
        ({
            let rocks = side.side_conditions.stealth_rock > 0;
            let layers = side.side_conditions.spikes;
            let left = hp_after_entry(side, p);
            let price = p.maxhp * p.taken(PokemonType::ROCK) / 32;
            &&& !can_be_hurt(p) ==> left == p.hp
            &&& !rocks && layers <= 0 ==> left == p.hp
            &&& can_be_hurt(p) && rocks && (layers <= 0 || !p.grounded) ==> left == p.hp - price
            &&& can_be_hurt(p) && !rocks && layers > 0 && p.grounded && p.hp > 0 ==> left == p.hp
                - p.maxhp * layers / 8
            &&& !rocks && !p.grounded ==> left == p.hp
            &&& can_be_hurt(p) && rocks && layers > 0 && p.grounded && p.hp > price ==> left == p.hp
                - price - p.maxhp * layers / 8
            &&& can_be_hurt(p) && rocks && p.hp <= price ==> left == p.hp - price
        }),
{
}

/// The speed that a pair is decided by is that of the attacker.
pub proof fn lemma_kept_speed(p: Duelists, calc: DamageFn, n: int)
    requires
        0 <= n <= 4,
    ensures
        p.best_of(n, calc).speed == matchup_speed(
            p.state,
            p.attacking_side,
            p.attacker,
            p.attacker_active,
        ) as i16,
    decreases n,
{
    if n > 0 {
        lemma_kept_speed(p, calc, n - 1);
    }
}

} // verus!
