//! Hit points in matchups: what they change, and that the cache keeps track
//! of them.

use crate::matchup::cache::{collision_free, truthful, CacheEntry};
use crate::matchup::fingerprint::{
    guards_at_full_hp, hash_of, lemma_hash_tracks_every_word, pair_words, participant_hash,
    participant_words, push_active, push_body, push_moves, sensitivity_of,
};
use crate::matchup::kernel::{
    afresh, cell, entry_one, entry_two, filled, lemma_kernel_matches_uncached, pair_from_one,
    pair_from_two, pairs_within, stands,
};
use crate::matchup::pair::{slot_attacks, DamageFn, Duelists};
use crate::matchup::power::{
    attacker_ability_factor, bulk_factor, defender_ability_factor, item_factor, normalized_power,
    normalized_type, plain_power, recolor_factor, ruled_category, ruled_power, ruled_type,
};
use crate::ratio::product;
use crate::state::{Abilities, Choices, Pokemon, Side, State, TEAM_SIZE};
use vstd::prelude::*;

verus! {

/// Whether two Pokemon are the same but for their hit points, and both stand.
pub open spec fn same_but_hurt(p: Pokemon, q: Pokemon) -> bool {
    p == (Pokemon { hp: p.hp, ..q }) && p.hp > 0 && q.hp > 0
}

/// Whether two sides are the same but for the hit points of those who stand.
pub open spec fn same_team(a: Side, b: Side) -> bool {
    &&& a == (Side { pokemon: a.pokemon, ..b })
    &&& forall|i: int|
        0 <= i < TEAM_SIZE ==> (#[trigger] a.pokemon@[i] == b.pokemon@[i] || same_but_hurt(
            a.pokemon@[i],
            b.pokemon@[i],
        ))
}

/// Whether two pairs are the same but for hit points of those who stand.
pub open spec fn same_pair(p: Duelists, q: Duelists) -> bool {
    &&& p.state == (State { side_one: p.state.side_one, side_two: p.state.side_two, ..q.state })
    &&& same_team(p.attacking_side, q.attacking_side)
    &&& same_team(p.defending_side, q.defending_side)
    &&& p.attacker_active == q.attacker_active
    &&& p.defender_active == q.defender_active
    &&& p.attacker == q.attacker || same_but_hurt(p.attacker, q.attacker)
    &&& p.defender == q.defender || same_but_hurt(p.defender, q.defender)
}

proof fn lemma_same_fainted(a: Side, b: Side, n: int)
    requires
        same_team(a, b),
        0 <= n <= TEAM_SIZE,
    ensures
        a.fainted_among(n) == b.fainted_among(n),
    decreases n,
{
    if n > 0 {
        lemma_same_fainted(a, b, n - 1);
        assert(a.pokemon@[n - 1] == b.pokemon@[n - 1] || same_but_hurt(
            a.pokemon@[n - 1],
            b.pokemon@[n - 1],
        ));
    }
}

proof fn lemma_same_words(
    s: State,
    t: State,
    a: Side,
    b: Side,
    p: Pokemon,
    q: Pokemon,
    active: bool,
)
    requires
        s == (State { side_one: s.side_one, side_two: s.side_two, ..t }),
        same_team(a, b),
        p == q || same_but_hurt(p, q),
    ensures
        participant_words(s, a, p, active) == participant_words(t, b, q, active),
{
    lemma_same_fainted(a, b, TEAM_SIZE as int);
    let none = Seq::<u64>::empty();
    assert(push_body(none, p) == push_body(none, q));
    let w = push_moves(push_body(none, p), p.moves@, 4);
    assert(w == push_moves(push_body(none, q), q.moves@, 4));
    assert(push_active(w, a, active) == push_active(w, b, active));
}

/// The words that a pair is hashed by.
pub open spec fn words_of_pair(p: Duelists) -> Seq<u64> {
    pair_words(
        participant_hash(p.state, p.attacking_side, p.attacker, p.attacker_active),
        participant_hash(p.state, p.defending_side, p.defender, p.defender_active),
        p.attacker,
        p.defender,
        sensitivity_of(p.attacker),
    )
}

/// Whether the attacker's hit points count for a pair.
pub open spec fn reads_attacker(p: Duelists) -> bool {
    sensitivity_of(p.attacker).attacker
}

/// Whether the defender's hit points count for a pair.
pub open spec fn reads_defender(p: Duelists) -> bool {
    sensitivity_of(p.attacker).defender || guards_at_full_hp(p.defender)
}

/// A pair's key keeps track of the hit points that it is sensitive to: where
/// one of them changes the hash does, and the key with it, but for the two
/// hashes that share the key one.
pub proof fn lemma_key_tracks_hit_points(p: Duelists, q: Duelists)
    requires
        same_pair(p, q),
        p.attacker.hp >= 0,
        q.attacker.hp >= 0,
        p.defender.hp >= 0,
        q.defender.hp >= 0,
        (reads_attacker(p) && p.attacker.hp != q.attacker.hp && (p.defender.hp == q.defender.hp
            || !reads_defender(p))) || (reads_defender(p) && p.defender.hp != q.defender.hp && (
        p.attacker.hp == q.attacker.hp || !reads_attacker(p))),
    ensures
        hash_of(words_of_pair(p)) != hash_of(words_of_pair(q)),
        p.key() != q.key() || (hash_of(words_of_pair(p)) <= 1 && hash_of(words_of_pair(q)) <= 1),
{
    reveal(Duelists::key);
    lemma_same_words(
        p.state,
        q.state,
        p.attacking_side,
        q.attacking_side,
        p.attacker,
        q.attacker,
        p.attacker_active,
    );
    lemma_same_words(
        p.state,
        q.state,
        p.defending_side,
        q.defending_side,
        p.defender,
        q.defender,
        p.defender_active,
    );
    let a = words_of_pair(p);
    let b = words_of_pair(q);
    assert(a.len() == b.len());
    let place: int = if reads_attacker(p) && p.attacker.hp != q.attacker.hp {
        2
    } else {
        a.len() - 1
    };
    assert(a[place] != b[place]);
    assert forall|i: int| 0 <= i < a.len() && i != place implies a[i] == b[i] by {}
    lemma_hash_tracks_every_word(a, b, place);
}

/// A kernel is not misled by the one before it: whatever was worked out for
/// another position with the same cache, it holds what working its own pairs
/// out afresh gives.
pub proof fn lemma_kernels_do_not_mix(
    first: State,
    second: State,
    calc: DamageFn,
    cache: Seq<CacheEntry>,
    world: spec_fn(Duelists) -> bool,
    i: int,
    j: int,
)
    requires
        truthful(cache, world, calc),
        collision_free(world, calc),
        pairs_within(first, world),
        pairs_within(second, world),
        0 <= i < 6,
        0 <= j < 6,
        stands(second.side_one, i),
        stands(second.side_two, j),
    ensures
        ({
            let between = filled(first, calc, cache, 36).cache;
            let tables = filled(second, calc, between, 36);
            &&& tables.one[cell(i, j)] == afresh(pair_from_one(second, i, j), calc)
            &&& tables.two[cell(j, i)] == afresh(pair_from_two(second, j, i), calc)
        }),
{
    lemma_kernel_matches_uncached(first, calc, cache, world, 36);
    let between = filled(first, calc, cache, 36).cache;
    lemma_kernel_matches_uncached(second, calc, between, world, 36);
    let tables = filled(second, calc, between, 36);
    assert(tables.one[cell(i, j)] == entry_one(second, calc, i, j, 36));
    assert(tables.two[cell(j, i)] == entry_two(second, calc, j, i, 36));
}

/// Whether a slot is the only one that attacks.
pub open spec fn only_attack(p: Pokemon, slot: int) -> bool {
    &&& 0 <= slot < 4
    &&& forall|k: int| 0 <= k < 4 ==> (#[trigger] slot_attacks(p, k) <==> k == slot)
}

/// The only attack is the best.
proof fn lemma_only_attack(p: Duelists, slot: int, calc: DamageFn)
    requires
        only_attack(p.attacker, slot),
        0 <= p.attack_damage(slot, calc) <= i16::MAX,
    ensures
        p.best(calc).damage == p.attack_damage(slot, calc),
{
    reveal_with_fuel(Duelists::best_of, 5);
    assert(slot_attacks(p.attacker, 0) <==> 0 == slot);
    assert(slot_attacks(p.attacker, 1) <==> 1 == slot);
    assert(slot_attacks(p.attacker, 2) <==> 2 == slot);
    assert(slot_attacks(p.attacker, 3) <==> 3 == slot);
}

/// The power of the move in a slot, as it hits in a pair.
pub open spec fn power_in(p: Duelists, slot: int) -> (nat, nat) {
    normalized_power(
        p.state,
        p.attacking_side,
        p.attacker,
        p.defending_side,
        p.defender,
        p.attacker.moves@[slot].choice,
        p.attacker_active,
    )
}

/// Whether one fraction is more than another.
pub open spec fn more(a: (nat, nat), b: (nat, nat)) -> bool {
    a.0 * b.1 > b.0 * a.1
}

/// Hit points tell in the kernel: where the only attack of side one's Pokemon
/// `i` has more power in the first position than in the second, and the
/// damage formula makes more damage of that, the kernel of the first holds
/// more damage than the kernel of the second, whichever of the two is worked
/// out right after the other with the same cache.
pub proof fn lemma_more_power_tells(
    first: State,
    second: State,
    calc: DamageFn,
    cache: Seq<CacheEntry>,
    world: spec_fn(Duelists) -> bool,
    i: int,
    j: int,
    slot: int,
)
    requires
        truthful(cache, world, calc),
        collision_free(world, calc),
        pairs_within(first, world),
        pairs_within(second, world),
        0 <= i < 6,
        0 <= j < 6,
        stands(first.side_one, i) && stands(first.side_two, j),
        stands(second.side_one, i) && stands(second.side_two, j),
        only_attack(first.side_one.pokemon@[i], slot),
        only_attack(second.side_one.pokemon@[i], slot),
        ({
            let p = pair_from_one(first, i, j);
            let q = pair_from_one(second, i, j);
            &&& 0 <= p.attack_damage(slot, calc) <= i16::MAX
            &&& 0 <= q.attack_damage(slot, calc) <= i16::MAX
            &&& more(power_in(p, slot), power_in(q, slot))
            &&& more(power_in(p, slot), power_in(q, slot)) ==> p.attack_damage(slot, calc)
                > q.attack_damage(slot, calc)
        }),
    ensures
        ({
            let tables = filled(first, calc, cache, 36);
            tables.one[cell(i, j)].damage > filled(second, calc, tables.cache, 36).one[cell(
                i,
                j,
            )].damage
        }),
        ({
            let tables = filled(second, calc, cache, 36);
            filled(first, calc, tables.cache, 36).one[cell(i, j)].damage > tables.one[cell(
                i,
                j,
            )].damage
        }),
{
    let p = pair_from_one(first, i, j);
    let q = pair_from_one(second, i, j);
    lemma_only_attack(p, slot, calc);
    lemma_only_attack(q, slot, calc);
    lemma_kernels_do_not_mix(first, second, calc, cache, world, i, j);
    lemma_kernels_do_not_mix(second, first, calc, cache, world, i, j);
    lemma_kernel_matches_uncached(first, calc, cache, world, 36);
    lemma_kernel_matches_uncached(second, calc, cache, world, 36);
    assert(filled(first, calc, cache, 36).one[cell(i, j)] == entry_one(first, calc, i, j, 36));
    assert(filled(second, calc, cache, 36).one[cell(i, j)] == entry_one(second, calc, i, j, 36));
}

proof fn lemma_more_times(a: (nat, nat), b: (nat, nat), f: (nat, nat))
    requires
        more(a, b),
        f.0 > 0,
        f.1 > 0,
    ensures
        more(product(a, f), product(b, f)),
{
    let x = a.0 * b.1;
    let y = b.0 * a.1;
    let z = f.0 * f.1;
    assert(z > 0) by (nonlinear_arith)
        requires
            z == f.0 * f.1,
            f.0 > 0,
            f.1 > 0,
    ;
    assert(x * z > y * z) by (nonlinear_arith)
        requires
            x > y,
            z > 0,
    ;
    assert((a.0 * f.0) * (b.1 * f.1) == (a.0 * b.1) * (f.0 * f.1)) by (nonlinear_arith);
    assert((b.0 * f.0) * (a.1 * f.1) == (b.0 * a.1) * (f.0 * f.1)) by (nonlinear_arith);
}

/// Whether a factor is above zero.
spec fn positive(f: (nat, nat)) -> bool {
    f.0 > 0 && f.1 > 0
}

/// The powers of a move in two pairs compare as its own rule compares them,
/// where abilities and items make the same of both.
proof fn lemma_ruled_power_tells(p: Duelists, q: Duelists, slot: int)
    requires
        same_pair(p, q),
        ({
            let c = p.attacker.moves@[slot].choice;
            let t = normalized_type(p.state, p.attacker, c);
            let category = ruled_category(p.attacker, c);
            &&& more(ruled_in(p, slot), ruled_in(q, slot))
            &&& attacker_factor(p, slot) == attacker_factor(q, slot)
            &&& defender_ability_factor(p.attacker, p.defender, c, t, category)
                == defender_ability_factor(q.attacker, q.defender, c, t, category)
        }),
    ensures
        more(power_in(p, slot), power_in(q, slot)),
{
    let c = p.attacker.moves@[slot].choice;
    let t = normalized_type(p.state, p.attacker, c);
    let category = ruled_category(p.attacker, c);
    let recolor = recolor_factor(p.attacker, ruled_type(p.state, p.attacker, c));
    let own = attacker_factor(p, slot);
    let foe = defender_ability_factor(p.attacker, p.defender, c, t, category);
    let item = item_factor(p.attacker, p.defender, t, category);
    let bulk = bulk_factor(p.defender, category);
    assert(q.attacker.moves@[slot].choice == c);
    assert(normalized_type(q.state, q.attacker, c) == t);
    assert(ruled_category(q.attacker, c) == category);
    assert(item == item_factor(q.attacker, q.defender, t, category));
    assert(bulk == bulk_factor(q.defender, category));
    assert(p.attacking_side.fainted() >= 0) by {
        lemma_fainted(p.attacking_side, TEAM_SIZE as int);
    }
    assert(positive(recolor) && positive(own) && positive(foe) && positive(item) && positive(bulk));
    let a = ruled_in(p, slot);
    let b = ruled_in(q, slot);
    lemma_more_times(a, b, recolor);
    lemma_more_times(product(a, recolor), product(b, recolor), own);
    let a = product(product(a, recolor), own);
    let b = product(product(b, recolor), own);
    lemma_more_times(a, b, foe);
    lemma_more_times(product(a, foe), product(b, foe), item);
    lemma_more_times(product(product(a, foe), item), product(product(b, foe), item), bulk);
}

proof fn lemma_fainted(side: Side, n: int)
    ensures
        side.fainted_among(n) >= 0,
    decreases n,
{
    if n > 0 {
        lemma_fainted(side, n - 1);
    }
}

/// The power that its own rule gives the move in a slot.
pub open spec fn ruled_in(p: Duelists, slot: int) -> (nat, nat) {
    ruled_power(
        p.state,
        p.attacking_side,
        p.attacker,
        p.defending_side,
        p.defender,
        p.attacker.moves@[slot].choice,
        p.attacker_active,
    )
}

/// What the attacker's ability makes of the power of the move in a slot.
spec fn attacker_factor(p: Duelists, slot: int) -> (nat, nat) {
    let c = p.attacker.moves@[slot].choice;
    attacker_ability_factor(
        p.attacking_side,
        p.attacker,
        p.defender,
        c,
        normalized_type(p.state, p.attacker, c),
        ruled_category(p.attacker, c),
        plain_power(
            p.state,
            p.attacking_side,
            p.attacker,
            p.defending_side,
            p.defender,
            c,
            p.attacker_active,
        ),
    )
}

/// Whether an ability of the attacker looks at its hit points or at the power
/// of a move.
pub open spec fn watches_power(ability: Abilities) -> bool {
    match ability {
        Abilities::TECHNICIAN
        | Abilities::BLAZE
        | Abilities::TORRENT
        | Abilities::OVERGROW
        | Abilities::SWARM => true,
        _ => false,
    }
}

proof fn lemma_same_attacker_factor(p: Duelists, q: Duelists, slot: int)
    requires
        same_pair(p, q),
        !watches_power(p.attacker.ability),
    ensures
        attacker_factor(p, slot) == attacker_factor(q, slot),
{
    lemma_same_fainted(p.attacking_side, q.attacking_side, TEAM_SIZE as int);
}

/// Moves that erupt hit harder the healthier their user is.
pub proof fn lemma_eruption_fades(p: Duelists, q: Duelists, slot: int)
    requires
        same_pair(p, q),
        p.defender == q.defender,
        0 <= slot < 4,
        p.attacker.moves@[slot].choice.move_id == Choices::ERUPTION || p.attacker.moves@[slot].choice.move_id
            == Choices::WATERSPOUT,
        p.attacker.hp > q.attacker.hp >= 0,
        !watches_power(p.attacker.ability),
    ensures
        more(power_in(p, slot), power_in(q, slot)),
{
    lemma_same_attacker_factor(p, q, slot);
    let a = ruled_in(p, slot);
    let b = ruled_in(q, slot);
    assert(a.1 == b.1 && a.1 > 0 && a.0 > b.0);
    assert(a.0 * b.1 > b.0 * a.1) by (nonlinear_arith)
        requires
            a.1 == b.1,
            a.1 > 0,
            a.0 > b.0,
    ;
    lemma_ruled_power_tells(p, q, slot);
}

/// Brine hits harder a target that is down to half its hit points.
pub proof fn lemma_brine_finishes(p: Duelists, q: Duelists, slot: int)
    requires
        same_pair(p, q),
        p.attacker == q.attacker,
        0 <= slot < 4,
        p.attacker.moves@[slot].choice.move_id == Choices::BRINE,
        p.attacker.moves@[slot].choice.base_power.num > 0,
        p.attacker.moves@[slot].choice.base_power.den > 0,
        p.defender.hp * 2 <= p.defender.maxhp,
        q.defender.hp * 2 > q.defender.maxhp,
        !watches_power(p.attacker.ability),
        !guards_at_full_hp(p.defender),
    ensures
        more(power_in(p, slot), power_in(q, slot)),
{
    lemma_same_attacker_factor(p, q, slot);
    let x = p.attacker.moves@[slot].choice.base_power.num as int;
    let y = p.attacker.moves@[slot].choice.base_power.den as int;
    assert((x * 2) * y > x * (y * 1)) by (nonlinear_arith)
        requires
            x > 0,
            y > 0,
    ;
    lemma_ruled_power_tells(p, q, slot);
}

/// A move whose own rule does not look at the target's hit points has the
/// same power by that rule, whatever they are.
proof fn lemma_same_rule(p: Duelists, q: Duelists, slot: int)
    requires
        same_pair(p, q),
        p.attacker == q.attacker,
        p.attacker.moves@[slot].choice.move_id != Choices::BRINE,
        p.attacker.moves@[slot].choice.move_id != Choices::HARDPRESS,
    ensures
        ruled_in(p, slot) == ruled_in(q, slot),
{
    lemma_same_fainted(p.attacking_side, q.attacking_side, TEAM_SIZE as int);
}

/// The attacker's ability makes the same of a power that is the same.
proof fn lemma_same_boost(p: Duelists, q: Duelists, slot: int)
    requires
        same_pair(p, q),
        p.attacker == q.attacker,
        ruled_in(p, slot) == ruled_in(q, slot),
    ensures
        attacker_factor(p, slot) == attacker_factor(q, slot),
        positive(attacker_factor(p, slot)),
{
    lemma_same_fainted(p.attacking_side, q.attacking_side, TEAM_SIZE as int);
    lemma_fainted(p.attacking_side, TEAM_SIZE as int);
}

/// An ability that guards at full hit points halves the power there alone, of
/// moves whose own rule does not look at the target's hit points.
pub proof fn lemma_guard_breaks(p: Duelists, q: Duelists, slot: int)
    requires
        same_pair(p, q),
        p.attacker == q.attacker,
        0 <= slot < 4,
        p.attacker.moves@[slot].choice.move_id != Choices::BRINE,
        p.attacker.moves@[slot].choice.move_id != Choices::HARDPRESS,
        guards_at_full_hp(p.defender),
        p.defender.hp != p.defender.maxhp,
        q.defender.hp == q.defender.maxhp,
        ruled_in(q, slot).0 > 0,
        ruled_in(q, slot).1 > 0,
    ensures
        more(power_in(p, slot), power_in(q, slot)),
{
    lemma_same_rule(p, q, slot);
    lemma_same_boost(p, q, slot);
    let c = p.attacker.moves@[slot].choice;
    let t = normalized_type(p.state, p.attacker, c);
    let category = ruled_category(p.attacker, c);
    let recolor = recolor_factor(p.attacker, ruled_type(p.state, p.attacker, c));
    let item = item_factor(p.attacker, p.defender, t, category);
    let bulk = bulk_factor(p.defender, category);
    assert(item == item_factor(q.attacker, q.defender, t, category));
    assert(bulk == bulk_factor(q.defender, category));
    assert(positive(recolor) && positive(item) && positive(bulk));
    let whole: (nat, nat) = (1, 1);
    let half: (nat, nat) = (1, 2);
    assert(defender_ability_factor(p.attacker, p.defender, c, t, category) == whole);
    assert(defender_ability_factor(q.attacker, q.defender, c, t, category) == half);
    lemma_halved(ruled_in(p, slot), recolor, attacker_factor(p, slot), item, bulk);
}

/// Whether two positions are the same but for hit points of those who stand.
pub open spec fn same_position(s: State, t: State) -> bool {
    &&& s == (State { side_one: s.side_one, side_two: s.side_two, ..t })
    &&& same_team(s.side_one, t.side_one)
    &&& same_team(s.side_two, t.side_two)
}

/// Whether the hit points of the first pair make the move in a slot stronger
/// than those of the second: one that erupts from a healthier user, brine at
/// a target down to half, or any at a guard that is broken.
pub open spec fn favoured(p: Duelists, q: Duelists, slot: int) -> bool {
    let c = p.attacker.moves@[slot].choice;
    let erupts = c.move_id == Choices::ERUPTION || c.move_id == Choices::WATERSPOUT;
    let plain = !watches_power(p.attacker.ability);
    ||| {
        &&& erupts && plain
        &&& p.defender == q.defender
        &&& p.attacker.hp > q.attacker.hp
    }
    ||| {
        &&& c.move_id == Choices::BRINE && plain
        &&& c.base_power.num > 0 && c.base_power.den > 0
        &&& p.attacker == q.attacker
        &&& p.defender.hp * 2 <= p.defender.maxhp
        &&& q.defender.hp * 2 > q.defender.maxhp
        &&& !guards_at_full_hp(p.defender)
    }
    ||| {
        &&& c.move_id != Choices::BRINE && c.move_id != Choices::HARDPRESS
        &&& ruled_in(q, slot).0 > 0 && ruled_in(q, slot).1 > 0
        &&& p.attacker == q.attacker
        &&& guards_at_full_hp(p.defender)
        &&& p.defender.hp != p.defender.maxhp
        &&& q.defender.hp == q.defender.maxhp
    }
}

/// The kernel keeps track of hit points: of two positions that differ in
/// those alone, the one whose hit points favour the only attack of side one's
/// Pokemon `i` has more damage of `j` in its kernel, whichever kernel is
/// worked out right after the other with the same cache. The damage formula
/// has to make more damage of more power in that attack.
pub proof fn lemma_kernel_tracks_hit_points(
    first: State,
    second: State,
    calc: DamageFn,
    cache: Seq<CacheEntry>,
    world: spec_fn(Duelists) -> bool,
    i: int,
    j: int,
    slot: int,
)
    requires
        same_position(first, second),
        truthful(cache, world, calc),
        collision_free(world, calc),
        pairs_within(first, world),
        pairs_within(second, world),
        0 <= i < 6,
        0 <= j < 6,
        stands(first.side_one, i) && stands(first.side_two, j),
        only_attack(first.side_one.pokemon@[i], slot),
        ({
            let p = pair_from_one(first, i, j);
            let q = pair_from_one(second, i, j);
            &&& favoured(p, q, slot)
            &&& 0 <= p.attack_damage(slot, calc) <= i16::MAX
            &&& 0 <= q.attack_damage(slot, calc) <= i16::MAX
            &&& more(power_in(p, slot), power_in(q, slot)) ==> p.attack_damage(slot, calc)
                > q.attack_damage(slot, calc)
        }),
    ensures
        ({
            let tables = filled(first, calc, cache, 36);
            tables.one[cell(i, j)].damage > filled(second, calc, tables.cache, 36).one[cell(
                i,
                j,
            )].damage
        }),
        ({
            let tables = filled(second, calc, cache, 36);
            filled(first, calc, tables.cache, 36).one[cell(i, j)].damage > tables.one[cell(
                i,
                j,
            )].damage
        }),
{
    let p = pair_from_one(first, i, j);
    let q = pair_from_one(second, i, j);
    let a = first.side_one.pokemon@[i];
    let b = second.side_one.pokemon@[i];
    assert(a == b || same_but_hurt(a, b));
    let c = first.side_two.pokemon@[j];
    let d = second.side_two.pokemon@[j];
    assert(c == d || same_but_hurt(c, d));
    assert(same_pair(p, q));
    assert(only_attack(b, slot)) by {
        assert forall|k: int| 0 <= k < 4 implies (#[trigger] slot_attacks(b, k) <==> k == slot) by {
            assert(slot_attacks(a, k) <==> k == slot);
        }
    }
    let move_id = p.attacker.moves@[slot].choice.move_id;
    if p.attacker == q.attacker && guards_at_full_hp(p.defender) {
        lemma_guard_breaks(p, q, slot);
    } else if move_id == Choices::BRINE {
        lemma_brine_finishes(p, q, slot);
    } else {
        lemma_eruption_fades(p, q, slot);
    }
    lemma_more_power_tells(first, second, calc, cache, world, i, j, slot);
}

/// Half a product is less than the product.
proof fn lemma_halved(
    r: (nat, nat),
    recolor: (nat, nat),
    own: (nat, nat),
    item: (nat, nat),
    bulk: (nat, nat),
)
    requires
        positive(r),
        positive(recolor),
        positive(own),
        positive(item),
        positive(bulk),
    ensures
        ({
            let a = product(product(r, recolor), own);
            more(
                product(product(product(a, (1, 1)), item), bulk),
                product(product(product(a, (1, 2)), item), bulk),
            )
        }),
{
    let a = product(product(r, recolor), own);
    assert(a.0 > 0 && a.1 > 0) by (nonlinear_arith)
        requires
            a.0 == (r.0 * recolor.0) * own.0,
            a.1 == (r.1 * recolor.1) * own.1,
            r.0 > 0,
            r.1 > 0,
            recolor.0 > 0,
            recolor.1 > 0,
            own.0 > 0,
            own.1 > 0,
    ;
    let b = product(a, (1, 1));
    let d = product(a, (1, 2));
    assert((a.0 * 1) * (a.1 * 2) > (a.0 * 1) * (a.1 * 1)) by (nonlinear_arith)
        requires
            a.0 > 0,
            a.1 > 0,
    ;
    lemma_more_times(b, d, item);
    lemma_more_times(product(b, item), product(d, item), bulk);
}

} // verus!
