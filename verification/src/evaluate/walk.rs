//! What the evaluator sees of a position, event by event.
//!
//! The walk is the single source of truth for what the evaluation looks at.
//! The score and the feature vectors are all read off the same list of
//! events, so they cannot drift apart.

use crate::evaluate::feat;
use crate::state::{
    stage_in_range, Abilities, Items, MoveCategory, Pokemon, PokemonStatus, PokemonVolatileStatus,
    Side, State, TEAM_SIZE,
};
use vstd::prelude::*;

verus! {

/// One thing that the evaluator looks at. Feature values are hundredths.
#[derive(Clone, Copy, Debug, PartialEq, Eq, Structural)]
pub enum EvalEvent {
    /// What follows belongs to side one if positive, else to side two.
    Sign { positive: bool },
    /// How much of a Pokemon's health is left.
    Hp { hp: i16, maxhp: i16 },
    /// A feature inside the clampable part of a Pokemon (hp, status, item).
    Mon { feature: usize, hundredths: i32 },
    /// Close the current Pokemon: clamp its part, credit the alive bonus.
    FinishMon,
    /// A feature outside the clamp.
    Global { feature: usize, hundredths: i32 },
    /// From here on features are added up on their own, up to the end of
    /// the group.
    StartGroup,
    FinishGroup,
}

/// What a stat stage counts, in hundredths.
pub open spec fn boost_hundredths(boost: int) -> int {
    if boost < 0 {
        -boost_hundredths_up(-boost)
    } else {
        boost_hundredths_up(boost)
    }
}

/// What a stage up counts.
pub open spec fn boost_hundredths_up(boost: int) -> int {
    if boost == 0 {
        0
    } else if boost == 1 {
        100
    } else if boost == 2 {
        200
    } else if boost == 3 {
        250
    } else if boost == 4 {
        300
    } else if boost == 5 {
        315
    } else {
        330
    }
}

pub fn get_boost_multiplier(boost: i8) -> (r: i32)
    requires
        stage_in_range(boost),
    ensures
        r == boost_hundredths(boost as int),
{
    match boost {
        6 => 330,
        5 => 315,
        4 => 300,
        3 => 250,
        2 => 200,
        1 => 100,
        0 => 0,
        -1 => -100,
        -2 => -200,
        -3 => -250,
        -4 => -300,
        -5 => -315,
        _ => -330,
    }
}

/// How many of the first `n` moves are physical.
pub open spec fn physical_moves(pokemon: Pokemon, n: int) -> int
    decreases n,
{
    if n <= 0 {
        0
    } else {
        physical_moves(pokemon, n - 1) + if pokemon.moves@[n - 1].choice.category
            == MoveCategory::Physical {
            1int
        } else {
            0
        }
    }
}

/// How much a burn counts, in hundredths: it helps some abilities, and it
/// hurts by the physical moves, half as much for a special attacker.
pub open spec fn burn_hundredths(pokemon: Pokemon) -> int {
    if pokemon.ability == Abilities::GUTS || pokemon.ability == Abilities::MARVELSCALE
        || pokemon.ability == Abilities::QUICKFEET {
        -200
    } else if pokemon.special_attack > pokemon.attack {
        50 * physical_moves(pokemon, 4)
    } else {
        100 * physical_moves(pokemon, 4)
    }
}

pub fn burn_multiplier(pokemon: &Pokemon) -> (r: i32)
    ensures
        r == burn_hundredths(*pokemon),
{
    match pokemon.ability {
        Abilities::GUTS | Abilities::MARVELSCALE | Abilities::QUICKFEET => {
            return -200;
        },
        _ => {},
    }
    let mut count: i32 = 0;
    let mut i: usize = 0;
    while i < 4
        invariant
            i <= 4,
            0 <= count <= i,
            count == physical_moves(*pokemon, i as int),
        decreases 4 - i,
    {
        if pokemon.moves[i].choice.category == MoveCategory::Physical {
            count = count + 1;
        }
        i = i + 1;
    }
    if pokemon.special_attack > pokemon.attack {
        count * 50
    } else {
        count * 100
    }
}

/// Which feature a poisoned Pokemon counts for, given its ability.
pub open spec fn poison_counts_for(ability: Abilities, base_feature: usize) -> usize {
    if ability == Abilities::POISONHEAL {
        feat::POISON_HEAL
    } else if ability == Abilities::GUTS || ability == Abilities::MARVELSCALE || ability
        == Abilities::QUICKFEET || ability == Abilities::TOXICBOOST || ability
        == Abilities::MAGICGUARD {
        feat::STATUS_ABILITY_BONUS
    } else {
        base_feature
    }
}

pub fn poison_feature(pokemon: &Pokemon, base_feature: usize) -> (r: usize)
    ensures
        r == poison_counts_for(pokemon.ability, base_feature),
{
    match pokemon.ability {
        Abilities::POISONHEAL => feat::POISON_HEAL,
        Abilities::GUTS
        | Abilities::MARVELSCALE
        | Abilities::QUICKFEET
        | Abilities::TOXICBOOST
        | Abilities::MAGICGUARD => feat::STATUS_ABILITY_BONUS,
        _ => base_feature,
    }
}

/// The event of a status, if it counts at all.
pub open spec fn status_events(p: Pokemon) -> Seq<EvalEvent> {
    match p.status {
        PokemonStatus::BURN => seq![
            EvalEvent::Mon { feature: feat::BURNED, hundredths: burn_hundredths(p) as i32 },
        ],
        PokemonStatus::FREEZE => seq![EvalEvent::Mon { feature: feat::FROZEN, hundredths: 100 }],
        PokemonStatus::SLEEP => seq![EvalEvent::Mon { feature: feat::ASLEEP, hundredths: 100 }],
        PokemonStatus::PARALYZE => seq![
            EvalEvent::Mon { feature: feat::PARALYZED, hundredths: 100 },
        ],
        PokemonStatus::TOXIC => seq![
            EvalEvent::Mon {
                feature: poison_counts_for(p.ability, feat::TOXIC),
                hundredths: 100,
            },
        ],
        PokemonStatus::POISON => seq![
            EvalEvent::Mon {
                feature: poison_counts_for(p.ability, feat::POISONED),
                hundredths: 100,
            },
        ],
        PokemonStatus::NONE => Seq::empty(),
    }
}

/// The events of one living Pokemon: health, status, item.
pub open spec fn mon_events(p: Pokemon) -> Seq<EvalEvent> {
    let item: Seq<EvalEvent> = if p.item != Items::NONE {
        seq![EvalEvent::Mon { feature: feat::ITEM, hundredths: 100 }]
    } else {
        Seq::empty()
    };
    seq![EvalEvent::Hp { hp: p.hp, maxhp: p.maxhp }] + status_events(p) + item
        + seq![EvalEvent::FinishMon]
}

pub fn walk_mon(pokemon: &Pokemon, events: &mut Vec<EvalEvent>)
    ensures
        final(events)@ == old(events)@ + mon_events(*pokemon),
{
    events.push(EvalEvent::Hp { hp: pokemon.hp, maxhp: pokemon.maxhp });
    match pokemon.status {
        PokemonStatus::BURN => events.push(
            EvalEvent::Mon { feature: feat::BURNED, hundredths: burn_multiplier(pokemon) },
        ),
        PokemonStatus::FREEZE => events.push(
            EvalEvent::Mon { feature: feat::FROZEN, hundredths: 100 },
        ),
        PokemonStatus::SLEEP => events.push(
            EvalEvent::Mon { feature: feat::ASLEEP, hundredths: 100 },
        ),
        PokemonStatus::PARALYZE => events.push(
            EvalEvent::Mon { feature: feat::PARALYZED, hundredths: 100 },
        ),
        PokemonStatus::TOXIC => events.push(
            EvalEvent::Mon { feature: poison_feature(pokemon, feat::TOXIC), hundredths: 100 },
        ),
        PokemonStatus::POISON => events.push(
            EvalEvent::Mon { feature: poison_feature(pokemon, feat::POISONED), hundredths: 100 },
        ),
        PokemonStatus::NONE => {},
    }
    if pokemon.item != Items::NONE {
        events.push(EvalEvent::Mon { feature: feat::ITEM, hundredths: 100 });
    }
    events.push(EvalEvent::FinishMon);
    assert(events@ =~= old(events)@ + mon_events(*pokemon));
}

/// A feature outside the clamp that counts whole numbers.
pub open spec fn whole(feature: usize, count: i8) -> EvalEvent {
    EvalEvent::Global { feature, hundredths: (100 * count) as i32 }
}

fn count_of(feature: usize, count: i8) -> (r: EvalEvent)
    ensures
        r == whole(feature, count),
{
    EvalEvent::Global { feature, hundredths: 100 * (count as i32) }
}

/// The events of the hazards that a Pokemon would meet.
pub open spec fn hazard_events(p: Pokemon, side: Side) -> Seq<EvalEvent> {
    let conditions = side.side_conditions;
    let rocks: Seq<EvalEvent> = if p.item == Items::HEAVYDUTYBOOTS || p.ability
        == Abilities::MAGICGUARD {
        Seq::empty()
    } else if p.grounded {
        seq![
            whole(feat::STEALTH_ROCK, conditions.stealth_rock),
            whole(feat::SPIKES, conditions.spikes),
            whole(feat::TOXIC_SPIKES, conditions.toxic_spikes),
        ]
    } else {
        seq![whole(feat::STEALTH_ROCK, conditions.stealth_rock)]
    };
    let web: Seq<EvalEvent> = if p.item != Items::HEAVYDUTYBOOTS && p.grounded {
        seq![whole(feat::STICKY_WEB, conditions.sticky_web)]
    } else {
        Seq::empty()
    };
    seq![EvalEvent::StartGroup] + rocks + web + seq![EvalEvent::FinishGroup]
}

pub fn walk_hazards(pokemon: &Pokemon, side: &Side, events: &mut Vec<EvalEvent>)
    ensures
        final(events)@ == old(events)@ + hazard_events(*pokemon, *side),
{
    events.push(EvalEvent::StartGroup);
    let grounded = pokemon.grounded;
    if pokemon.item != Items::HEAVYDUTYBOOTS {
        if pokemon.ability != Abilities::MAGICGUARD {
            events.push(count_of(feat::STEALTH_ROCK, side.side_conditions.stealth_rock));
            if grounded {
                events.push(count_of(feat::SPIKES, side.side_conditions.spikes));
                events.push(count_of(feat::TOXIC_SPIKES, side.side_conditions.toxic_spikes));
            }
        }
        if grounded {
            events.push(count_of(feat::STICKY_WEB, side.side_conditions.sticky_web));
        }
    }
    events.push(EvalEvent::FinishGroup);
    assert(events@ =~= old(events)@ + hazard_events(*pokemon, *side));
}

/// The event of a condition that is on or off.
pub open spec fn condition_events(
    side: Side,
    status: PokemonVolatileStatus,
    feature: usize,
) -> Seq<EvalEvent> {
    if side.volatile_statuses.has(status) {
        seq![EvalEvent::Global { feature, hundredths: 100 }]
    } else {
        Seq::empty()
    }
}

/// The event of a stat stage.
pub open spec fn boost_event(feature: usize, boost: i8) -> EvalEvent {
    EvalEvent::Global { feature, hundredths: boost_hundredths(boost as int) as i32 }
}

/// The events of being active: conditions and stat stages.
pub open spec fn active_events(side: Side) -> Seq<EvalEvent> {
    condition_events(side, PokemonVolatileStatus::LEECHSEED, feat::LEECH_SEED) + condition_events(
        side,
        PokemonVolatileStatus::SUBSTITUTE,
        feat::SUBSTITUTE,
    ) + condition_events(side, PokemonVolatileStatus::CONFUSION, feat::CONFUSION) + seq![
        boost_event(feat::ATTACK_BOOST, side.attack_boost),
        boost_event(feat::DEFENSE_BOOST, side.defense_boost),
        boost_event(feat::SPECIAL_ATTACK_BOOST, side.special_attack_boost),
        boost_event(feat::SPECIAL_DEFENSE_BOOST, side.special_defense_boost),
        boost_event(feat::SPEED_BOOST, side.speed_boost),
    ]
}

fn walk_active(side: &Side, events: &mut Vec<EvalEvent>)
    requires
        side.wf(),
    ensures
        final(events)@ == old(events)@ + active_events(*side),
{
    if side.volatile_statuses.contains(PokemonVolatileStatus::LEECHSEED) {
        events.push(EvalEvent::Global { feature: feat::LEECH_SEED, hundredths: 100 });
    }
    if side.volatile_statuses.contains(PokemonVolatileStatus::SUBSTITUTE) {
        events.push(EvalEvent::Global { feature: feat::SUBSTITUTE, hundredths: 100 });
    }
    if side.volatile_statuses.contains(PokemonVolatileStatus::CONFUSION) {
        events.push(EvalEvent::Global { feature: feat::CONFUSION, hundredths: 100 });
    }
    events.push(
        EvalEvent::Global {
            feature: feat::ATTACK_BOOST,
            hundredths: get_boost_multiplier(side.attack_boost),
        },
    );
    events.push(
        EvalEvent::Global {
            feature: feat::DEFENSE_BOOST,
            hundredths: get_boost_multiplier(side.defense_boost),
        },
    );
    events.push(
        EvalEvent::Global {
            feature: feat::SPECIAL_ATTACK_BOOST,
            hundredths: get_boost_multiplier(side.special_attack_boost),
        },
    );
    events.push(
        EvalEvent::Global {
            feature: feat::SPECIAL_DEFENSE_BOOST,
            hundredths: get_boost_multiplier(side.special_defense_boost),
        },
    );
    events.push(
        EvalEvent::Global {
            feature: feat::SPEED_BOOST,
            hundredths: get_boost_multiplier(side.speed_boost),
        },
    );
    assert(events@ =~= old(events)@ + active_events(*side));
}

/// The events of one team slot; a fainted Pokemon has none.
pub open spec fn slot_events(side: Side, i: int) -> Seq<EvalEvent> {
    let p = side.pokemon@[i];
    if p.hp > 0 {
        mon_events(p) + hazard_events(p, side) + if i == side.active_index {
            active_events(side)
        } else {
            Seq::empty()
        }
    } else {
        Seq::empty()
    }
}

/// The events of the first `n` team slots.
pub open spec fn slots_events(side: Side, n: int) -> Seq<EvalEvent>
    decreases n,
{
    if n <= 0 {
        Seq::empty()
    } else {
        slots_events(side, n - 1) + slot_events(side, n - 1)
    }
}

/// Whether one of the first `n` Pokemon is terastallized.
pub open spec fn any_terastallized(side: Side, n: int) -> bool {
    exists|i: int| 0 <= i < n && (#[trigger] side.pokemon@[i]).terastallized
}

/// The events of a team.
pub open spec fn team_events(side: Side, positive: bool) -> Seq<EvalEvent> {
    let tera: Seq<EvalEvent> = if any_terastallized(side, 6) {
        seq![EvalEvent::Global { feature: feat::USED_TERA, hundredths: 100 }]
    } else {
        Seq::empty()
    };
    seq![EvalEvent::Sign { positive }] + slots_events(side, 6) + tera
}

pub fn walk_side_pokemon(side: &Side, events: &mut Vec<EvalEvent>, positive: bool)
    requires
        side.wf(),
    ensures
        final(events)@ == old(events)@ + team_events(*side, positive),
{
    events.push(EvalEvent::Sign { positive });
    let ghost start = events@;
    let mut used_tera = false;
    let mut i: usize = 0;
    assert(start + slots_events(*side, 0) =~= start);
    while i < TEAM_SIZE
        invariant
            i <= TEAM_SIZE,
            side.wf(),
            events@ == start + slots_events(*side, i as int),
            used_tera == any_terastallized(*side, i as int),
        decreases TEAM_SIZE - i,
    {
        let pokemon = &side.pokemon[i];
        let ghost before = events@;
        if pokemon.hp > 0 {
            walk_mon(pokemon, events);
            walk_hazards(pokemon, side, events);
            if i == side.active_index {
                walk_active(side, events);
            }
        }
        assert(events@ =~= before + slot_events(*side, i as int));
        assert(events@ =~= start + slots_events(*side, i + 1));
        if pokemon.terastallized {
            used_tera = true;
        }
        proof {
            if used_tera {
                if side.pokemon@[i as int].terastallized {
                    assert(any_terastallized(*side, i + 1));
                } else {
                    let k = choose|k: int| 0 <= k < i && (#[trigger] side.pokemon@[k]).terastallized;
                    assert(side.pokemon@[k].terastallized);
                }
            }
        }
        i = i + 1;
    }
    if used_tera {
        events.push(EvalEvent::Global { feature: feat::USED_TERA, hundredths: 100 });
    }
    assert(events@ =~= old(events)@ + team_events(*side, positive));
}

/// The events of the conditions on a side.
pub open spec fn side_condition_events(side: Side, positive: bool) -> Seq<EvalEvent> {
    let conditions = side.side_conditions;
    seq![
        EvalEvent::Sign { positive },
        whole(feat::REFLECT, conditions.reflect),
        whole(feat::LIGHT_SCREEN, conditions.light_screen),
        whole(feat::AURORA_VEIL, conditions.aurora_veil),
        whole(feat::SAFE_GUARD, conditions.safeguard),
        whole(feat::TAILWIND, conditions.tailwind),
        whole(feat::HEALING_WISH, conditions.healing_wish),
    ]
}

pub fn walk_side_conditions(side: &Side, events: &mut Vec<EvalEvent>, positive: bool)
    ensures
        final(events)@ == old(events)@ + side_condition_events(*side, positive),
{
    events.push(EvalEvent::Sign { positive });
    events.push(count_of(feat::REFLECT, side.side_conditions.reflect));
    events.push(count_of(feat::LIGHT_SCREEN, side.side_conditions.light_screen));
    events.push(count_of(feat::AURORA_VEIL, side.side_conditions.aurora_veil));
    events.push(count_of(feat::SAFE_GUARD, side.side_conditions.safeguard));
    events.push(count_of(feat::TAILWIND, side.side_conditions.tailwind));
    events.push(count_of(feat::HEALING_WISH, side.side_conditions.healing_wish));
    assert(events@ =~= old(events)@ + side_condition_events(*side, positive));
}

/// Everything that is seen of a position but its matchups: both teams, then
/// the conditions on both sides.
pub open spec fn base_events(state: State) -> Seq<EvalEvent> {
    team_events(state.side_one, true) + team_events(state.side_two, false) + side_condition_events(
        state.side_one,
        true,
    ) + side_condition_events(state.side_two, false)
}

pub fn eval_walk_base(state: &State) -> (events: Vec<EvalEvent>)
    requires
        state.wf(),
    ensures
        events@ == base_events(*state),
{
    let mut events: Vec<EvalEvent> = Vec::new();
    walk_side_pokemon(&state.side_one, &mut events, true);
    walk_side_pokemon(&state.side_two, &mut events, false);
    walk_side_conditions(&state.side_one, &mut events, true);
    walk_side_conditions(&state.side_two, &mut events, false);
    assert(events@ =~= base_events(*state));
    events
}

} // verus!
