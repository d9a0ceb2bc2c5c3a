//! Move normalization: the type, category and power a damaging move has in a
//! given matchup, before the damage formula runs. Powers are exact fractions.

use crate::float32::{lemma_order_of_magnitudes, Float32};
use crate::quotient::{has_quotient, quotient_reaches};
use crate::ratio::{product, Ratio};
use crate::state::{
    Abilities, Choice, Choices, Items, MoveCategory, Pokemon, PokemonStatus, PokemonType, Side,
    State, Weather,
};
use vstd::prelude::*;

verus! {

/// Hit points as a divisor: a Pokemon without maximum hit points counts one.
pub open spec fn hp_scale(p: Pokemon) -> nat {
    if p.maxhp <= 1 {
        1
    } else {
        p.maxhp as nat
    }
}

/// Whether `p` has at least `thousandths` / 1000 of its hit points.
pub open spec fn hp_share_at_least(p: Pokemon, thousandths: int) -> bool {
    p.hp * 1000 >= thousandths * hp_scale(p)
}

/// Whether `p` is down to a third of its hit points or less.
pub open spec fn in_a_pinch(p: Pokemon) -> bool {
    p.hp * 3 <= hp_scale(p)
}

/// The power of the moves that hit harder the weaker their user is.
pub open spec fn flail_power(p: Pokemon) -> nat {
    if hp_share_at_least(p, 688) {
        20
    } else if hp_share_at_least(p, 354) {
        40
    } else if hp_share_at_least(p, 208) {
        80
    } else if hp_share_at_least(p, 104) {
        100
    } else if hp_share_at_least(p, 42) {
        150
    } else {
        200
    }
}

/// Ten kilograms, as a bit pattern.
pub const KG_10: u32 = 0x4120_0000;

pub const KG_25: u32 = 0x41c8_0000;

pub const KG_50: u32 = 0x4248_0000;

pub const KG_100: u32 = 0x42c8_0000;

pub const KG_200: u32 = 0x4348_0000;

/// A tenth of a kilogram: no target counts as lighter.
pub const LEAST_KG: u32 = 0x3dcc_cccd;

/// The numbers two to five, as bit patterns.
pub const TWO: u32 = 0x4000_0000;

pub const THREE: u32 = 0x4040_0000;

pub const FOUR: u32 = 0x4080_0000;

pub const FIVE: u32 = 0x40a0_0000;

/// Whether a weight is at least the one of a bit pattern.
pub open spec fn weighs(weight: Float32, bits: u32) -> bool {
    !weight.nan() && weight.units() >= (Float32 { bits }).units()
}

/// The power of the moves that trip heavy targets.
pub open spec fn low_kick_power(weight: Float32) -> nat {
    if weighs(weight, KG_200) {
        120
    } else if weighs(weight, KG_100) {
        100
    } else if weighs(weight, KG_50) {
        80
    } else if weighs(weight, KG_25) {
        60
    } else if weighs(weight, KG_10) {
        40
    } else {
        20
    }
}

/// A target's weight, as one that can be divided by.
pub open spec fn divisor_weight(weight: Float32) -> Float32 {
    if weighs(weight, LEAST_KG) {
        weight
    } else {
        Float32 { bits: LEAST_KG }
    }
}

/// Whether a user is so many times as heavy as its target.
pub open spec fn outweighs(user: Float32, target: Float32, times: u32) -> bool {
    quotient_reaches(user, divisor_weight(target), Float32 { bits: times })
}

/// The power of the moves that crush lighter targets.
pub open spec fn heavy_slam_power(user: Float32, target: Float32) -> nat {
    if outweighs(user, target, FIVE) {
        120
    } else if outweighs(user, target, FOUR) {
        100
    } else if outweighs(user, target, THREE) {
        80
    } else if outweighs(user, target, TWO) {
        60
    } else {
        40
    }
}

/// A stat stage, counted only where it is a raise.
pub open spec fn raise(stage: i8) -> int {
    if stage > 0 {
        stage as int
    } else {
        0
    }
}

/// All the raises on the active Pokemon of a side.
pub open spec fn total_raises(side: Side) -> int {
    raise(side.attack_boost) + raise(side.defense_boost) + raise(side.special_attack_boost) + raise(
        side.special_defense_boost,
    ) + raise(side.speed_boost)
}

/// Whether a wall that halves physical damage stands.
pub open spec fn has_physical_wall(side: Side) -> bool {
    side.side_conditions.reflect > 0 || side.side_conditions.aurora_veil > 0
}

/// The power the move's own rule gives it.
pub open spec fn ruled_power(
    state: State,
    attacking_side: Side,
    attacker: Pokemon,
    defending_side: Side,
    defender: Pokemon,
    c: Choice,
    attacker_active: bool,
) -> (nat, nat) {
    let listed = c.base_power@;
    match c.move_id {
        Choices::REVERSAL | Choices::FLAIL => (flail_power(attacker), 1),
        Choices::HARDPRESS => (100 * defender.hp as nat, hp_scale(defender)),
        Choices::WATERSPOUT | Choices::ERUPTION => (150 * attacker.hp as nat, hp_scale(attacker)),
        Choices::STOREDPOWER => (
            (20 + 20 * if attacker_active {
                total_raises(attacking_side)
            } else {
                0
            }) as nat,
            1,
        ),
        Choices::LASTRESPECTS => ((50 + 50 * attacking_side.fainted()) as nat, 1),
        Choices::LOWKICK | Choices::GRASSKNOT => (low_kick_power(defender.weight_kg), 1),
        Choices::HEAVYSLAM | Choices::HEATCRASH => (
            heavy_slam_power(attacker.weight_kg, defender.weight_kg),
            1,
        ),
        Choices::ACROBATICS if attacker.item == Items::NONE => product(listed, (2, 1)),
        Choices::KNOCKOFF if defender.item != Items::NONE => product(listed, (3, 2)),
        Choices::FACADE if attacker.status != PokemonStatus::NONE => product(listed, (2, 1)),
        Choices::HEX if defender.status != PokemonStatus::NONE => product(listed, (2, 1)),
        Choices::BRINE if defender.hp * 2 <= defender.maxhp => product(listed, (2, 1)),
        Choices::WEATHERBALL if state.weather_type != Weather::NONE => product(listed, (2, 1)),
        Choices::RAGINGBULL if has_physical_wall(defending_side) => product(listed, (2, 1)),
        Choices::NIGHTSHADE | Choices::SEISMICTOSS | Choices::SUPERFANG | Choices::RUINATION => (
            0,
            1,
        ),
        _ => listed,
    }
}

/// The type the move's own rule gives it.
pub open spec fn ruled_type(state: State, attacker: Pokemon, c: Choice) -> PokemonType {
    match c.move_id {
        Choices::WEATHERBALL => match state.weather_type {
            Weather::SUN | Weather::HARSHSUN => PokemonType::FIRE,
            Weather::RAIN | Weather::HEAVYRAIN => PokemonType::WATER,
            Weather::SAND => PokemonType::ROCK,
            Weather::HAIL | Weather::SNOW => PokemonType::ICE,
            Weather::NONE => c.move_type,
        },
        Choices::TERABLAST if attacker.terastallized => attacker.tera_type,
        Choices::IVYCUDGEL => match attacker.item {
            Items::WELLSPRINGMASK => PokemonType::WATER,
            Items::HEARTHFLAMEMASK => PokemonType::FIRE,
            Items::CORNERSTONEMASK => PokemonType::ROCK,
            _ => c.move_type,
        },
        _ => c.move_type,
    }
}

/// The category the move's own rule gives it.
pub open spec fn ruled_category(attacker: Pokemon, c: Choice) -> MoveCategory {
    if c.move_id == Choices::TERABLAST && attacker.terastallized && attacker.attack
        > attacker.special_attack {
        MoveCategory::Physical
    } else {
        c.category
    }
}

/// What an ability that recolors normal-type moves turns them into.
pub open spec fn recolored(ability: Abilities) -> Option<PokemonType> {
    match ability {
        Abilities::PIXILATE => Some(PokemonType::FAIRY),
        Abilities::REFRIGERATE => Some(PokemonType::ICE),
        Abilities::AERILATE => Some(PokemonType::FLYING),
        Abilities::GALVANIZE => Some(PokemonType::ELECTRIC),
        _ => None,
    }
}

/// The type after the attacker's ability has recolored the move.
pub open spec fn final_type(attacker: Pokemon, t: PokemonType, sound: bool) -> PokemonType {
    match recolored(attacker.ability) {
        Some(new_type) if t == PokemonType::NORMAL => new_type,
        _ => if attacker.ability == Abilities::LIQUIDVOICE && sound {
            PokemonType::WATER
        } else {
            t
        },
    }
}

/// The power a recolored move gains.
pub open spec fn recolor_factor(attacker: Pokemon, t: PokemonType) -> (nat, nat) {
    if recolored(attacker.ability) is Some && t == PokemonType::NORMAL {
        (6, 5)
    } else {
        (1, 1)
    }
}

/// What the attacker's ability makes of the power.
pub open spec fn attacker_ability_factor(
    attacking_side: Side,
    attacker: Pokemon,
    defender: Pokemon,
    c: Choice,
    t: PokemonType,
    category: MoveCategory,
    power: (nat, nat),
) -> (nat, nat) {
    match attacker.ability {
        Abilities::TECHNICIAN if power.0 <= 60 * power.1 => (3, 2),
        Abilities::IRONFIST if c.flags.punch => (6, 5),
        Abilities::STRONGJAW if c.flags.bite => (3, 2),
        Abilities::SHARPNESS if c.flags.slicing => (3, 2),
        Abilities::MEGALAUNCHER if c.flags.pulse => (3, 2),
        Abilities::TOUGHCLAWS if c.flags.contact => (13, 10),
        Abilities::TINTEDLENS if defender.taken(t) < 4 => (2, 1),
        Abilities::HUGEPOWER if category == MoveCategory::Physical => (2, 1),
        Abilities::PUREPOWER if category == MoveCategory::Physical => (2, 1),
        Abilities::GUTS if category == MoveCategory::Physical && attacker.status
            != PokemonStatus::NONE => (3, 1),
        Abilities::ADAPTABILITY if t == attacker.types.0 || t == attacker.types.1 => (4, 3),
        Abilities::SUPREMEOVERLORD => ((10 + attacking_side.fainted()) as nat, 10),
        Abilities::SWORDOFRUIN if category == MoveCategory::Physical => (4, 3),
        Abilities::BEADSOFRUIN if category == MoveCategory::Special => (4, 3),
        Abilities::BLAZE if in_a_pinch(attacker) && t == PokemonType::FIRE => (3, 2),
        Abilities::TORRENT if in_a_pinch(attacker) && t == PokemonType::WATER => (3, 2),
        Abilities::OVERGROW if in_a_pinch(attacker) && t == PokemonType::GRASS => (3, 2),
        Abilities::SWARM if in_a_pinch(attacker) && t == PokemonType::BUG => (3, 2),
        _ => (1, 1),
    }
}

/// What the defender's ability makes of the power.
pub open spec fn defender_ability_factor(
    attacker: Pokemon,
    defender: Pokemon,
    c: Choice,
    t: PokemonType,
    category: MoveCategory,
) -> (nat, nat) {
    match defender.ability {
        Abilities::FURCOAT if category == MoveCategory::Physical => (1, 2),
        Abilities::ICESCALES if category == MoveCategory::Special => (1, 2),
        Abilities::THICKFAT if t == PokemonType::FIRE || t == PokemonType::ICE => (1, 2),
        Abilities::HEATPROOF if t == PokemonType::FIRE => (1, 2),
        Abilities::FLUFFY if c.flags.contact => (1, 2),
        Abilities::FLUFFY if t == PokemonType::FIRE => (2, 1),
        Abilities::MULTISCALE if defender.hp == defender.maxhp => (1, 2),
        Abilities::SHADOWSHIELD if defender.hp == defender.maxhp => (1, 2),
        Abilities::FILTER if defender.taken(t) > 4 => (3, 4),
        Abilities::SOLIDROCK if defender.taken(t) > 4 => (3, 4),
        Abilities::PRISMARMOR if defender.taken(t) > 4 => (3, 4),
        Abilities::TABLETSOFRUIN if category == MoveCategory::Physical && attacker.ability
            != Abilities::TABLETSOFRUIN => (3, 4),
        Abilities::VESSELOFRUIN if category == MoveCategory::Special && attacker.ability
            != Abilities::VESSELOFRUIN => (3, 4),
        _ => (1, 1),
    }
}

/// What the attacker's item makes of the power.
pub open spec fn item_factor(
    attacker: Pokemon,
    defender: Pokemon,
    t: PokemonType,
    category: MoveCategory,
) -> (nat, nat) {
    match attacker.item {
        Items::CHOICEBAND if category == MoveCategory::Physical => (3, 2),
        Items::CHOICESPECS if category == MoveCategory::Special => (3, 2),
        Items::LIFEORB if category != MoveCategory::Status => (13, 10),
        Items::EXPERTBELT if defender.taken(t) > 4 => (6, 5),
        Items::MUSCLEBAND if category == MoveCategory::Physical => (11, 10),
        Items::WISEGLASSES if category == MoveCategory::Special => (11, 10),
        _ => (1, 1),
    }
}

/// What a defensive item of the defender makes of the power.
pub open spec fn bulk_factor(defender: Pokemon, category: MoveCategory) -> (nat, nat) {
    if defender.item == Items::EVIOLITE || (defender.item == Items::ASSAULTVEST && category
        == MoveCategory::Special) {
        (2, 3)
    } else {
        (1, 1)
    }
}

/// The type the move ends up with.
pub open spec fn normalized_type(state: State, attacker: Pokemon, c: Choice) -> PokemonType {
    final_type(attacker, ruled_type(state, attacker, c), c.flags.sound)
}

/// The power before abilities and items: the move's own rule, recolored.
pub open spec fn plain_power(
    state: State,
    attacking_side: Side,
    attacker: Pokemon,
    defending_side: Side,
    defender: Pokemon,
    c: Choice,
    attacker_active: bool,
) -> (nat, nat) {
    product(
        ruled_power(
            state,
            attacking_side,
            attacker,
            defending_side,
            defender,
            c,
            attacker_active,
        ),
        recolor_factor(attacker, ruled_type(state, attacker, c)),
    )
}

/// The power the move ends up with: the plain power times what the two
/// abilities and the two items make of it.
pub open spec fn normalized_power(
    state: State,
    attacking_side: Side,
    attacker: Pokemon,
    defending_side: Side,
    defender: Pokemon,
    c: Choice,
    attacker_active: bool,
) -> (nat, nat) {
    let t = normalized_type(state, attacker, c);
    let category = ruled_category(attacker, c);
    let plain = plain_power(
        state,
        attacking_side,
        attacker,
        defending_side,
        defender,
        c,
        attacker_active,
    );
    product(
        product(
            product(
                product(
                    plain,
                    attacker_ability_factor(
                        attacking_side,
                        attacker,
                        defender,
                        c,
                        t,
                        category,
                        plain,
                    ),
                ),
                defender_ability_factor(attacker, defender, c, t, category),
            ),
            item_factor(attacker, defender, t, category),
        ),
        bulk_factor(defender, category),
    )
}

/// The move as it hits in this matchup.
pub open spec fn normalized_choice(
    state: State,
    attacking_side: Side,
    attacker: Pokemon,
    defending_side: Side,
    defender: Pokemon,
    c: Choice,
    attacker_active: bool,
) -> Choice {
    let power = normalized_power(
        state,
        attacking_side,
        attacker,
        defending_side,
        defender,
        c,
        attacker_active,
    );
    Choice {
        move_type: normalized_type(state, attacker, c),
        category: ruled_category(attacker, c),
        base_power: Ratio { num: power.0 as u64, den: power.1 as u64 },
        first_move: true,
        ..c
    }
}

/// Drops what the damage rules do not read and marks the move as the first
/// one of its turn.
pub fn compact_choice(source: &Choice) -> (c: Choice)
    ensures
        c == (Choice { first_move: true, ..*source }),
{
    Choice {
        move_id: source.move_id,
        move_index: source.move_index,
        move_type: source.move_type,
        accuracy: source.accuracy,
        category: source.category,
        base_power: source.base_power,
        priority: source.priority,
        flags: source.flags,
        target: source.target,
        multi_hit: source.multi_hit,
        first_move: true,
    }
}

fn compute_hp_scale(p: &Pokemon) -> (r: u64)
    ensures
        r == hp_scale(*p),
        1 <= r <= i16::MAX,
{
    if p.maxhp <= 1 {
        1
    } else {
        p.maxhp as u64
    }
}

fn has_hp_share(p: &Pokemon, thousandths: u64) -> (r: bool)
    requires
        p.wf(),
        thousandths <= 1000,
    ensures
        r == hp_share_at_least(*p, thousandths as int),
{
    let scale: u64 = compute_hp_scale(p);
    proof {
        assert(thousandths * scale <= 1000 * 32767) by (nonlinear_arith)
            requires
                thousandths <= 1000,
                scale <= 32767,
        ;
    }
    p.hp as u64 * 1000 >= thousandths * scale
}

fn compute_in_a_pinch(p: &Pokemon) -> (r: bool)
    requires
        p.wf(),
    ensures
        r == in_a_pinch(*p),
{
    p.hp as u64 * 3 <= compute_hp_scale(p)
}

fn compute_flail_power(p: &Pokemon) -> (r: u64)
    requires
        p.wf(),
    ensures
        r == flail_power(*p),
        r <= 200,
{
    if has_hp_share(p, 688) {
        20
    } else if has_hp_share(p, 354) {
        40
    } else if has_hp_share(p, 208) {
        80
    } else if has_hp_share(p, 104) {
        100
    } else if has_hp_share(p, 42) {
        150
    } else {
        200
    }
}

fn has_weight(weight: &Float32, bits: u32) -> (r: bool)
    requires
        bits <= KG_200,
    ensures
        r == weighs(*weight, bits),
{
    !weight.is_nan() && !weight.is_below(&Float32 { bits })
}

fn compute_low_kick_power(weight: &Float32) -> (r: u64)
    ensures
        r == low_kick_power(*weight),
        r <= 120,
{
    if has_weight(weight, KG_200) {
        120
    } else if has_weight(weight, KG_100) {
        100
    } else if has_weight(weight, KG_50) {
        80
    } else if has_weight(weight, KG_25) {
        60
    } else if has_weight(weight, KG_10) {
        40
    } else {
        20
    }
}

fn find_divisor_weight(weight: &Float32) -> (r: Float32)
    ensures
        r == divisor_weight(*weight),
        !r.nan(),
        r.units() > 0,
{
    proof {
        lemma_order_of_magnitudes(Float32 { bits: 0 }, Float32 { bits: LEAST_KG });
    }
    if has_weight(weight, LEAST_KG) {
        *weight
    } else {
        Float32 { bits: LEAST_KG }
    }
}

fn compute_heavy_slam_power(user: &Float32, target: &Float32) -> (r: u64)
    ensures
        r == heavy_slam_power(*user, *target),
        r <= 120,
{
    let divisor = find_divisor_weight(target);
    if has_quotient(user, &divisor, &Float32 { bits: FIVE }) {
        120
    } else if has_quotient(user, &divisor, &Float32 { bits: FOUR }) {
        100
    } else if has_quotient(user, &divisor, &Float32 { bits: THREE }) {
        80
    } else if has_quotient(user, &divisor, &Float32 { bits: TWO }) {
        60
    } else {
        40
    }
}

fn compute_raise(stage: i8) -> (r: u64)
    requires
        -6 <= stage <= 6,
    ensures
        r == raise(stage),
        r <= 6,
{
    if stage > 0 {
        stage as u64
    } else {
        0
    }
}

fn compute_total_raises(side: &Side) -> (r: u64)
    requires
        side.wf(),
    ensures
        r == total_raises(*side),
        r <= 30,
{
    compute_raise(side.attack_boost) + compute_raise(side.defense_boost) + compute_raise(
        side.special_attack_boost,
    ) + compute_raise(side.special_defense_boost) + compute_raise(side.speed_boost)
}

proof fn lemma_product_bound(a: nat, b: nat, a_max: nat, b_max: nat)
    requires
        a <= a_max,
        b <= b_max,
    ensures
        a * b <= a_max * b_max,
{
    assert(a * b <= a_max * b_max) by (nonlinear_arith)
        requires
            a <= a_max,
            b <= b_max,
    ;
}

fn compute_ruled_power(
    state: &State,
    attacking_side: &Side,
    attacker: &Pokemon,
    defending_side: &Side,
    defender: &Pokemon,
    c: &Choice,
    attacker_active: bool,
) -> (r: Ratio)
    requires
        attacking_side.wf(),
        attacker.wf(),
        defender.wf(),
        c.wf(),
    ensures
        r.wf(),
        r@ == ruled_power(
            *state,
            *attacking_side,
            *attacker,
            *defending_side,
            *defender,
            *c,
            attacker_active,
        ),
        r.num <= 0x3_0000_0000,
        r.den <= 0x2_0000_0000,
{
    let listed = c.base_power;
    match c.move_id {
        Choices::REVERSAL | Choices::FLAIL => Ratio::whole(compute_flail_power(attacker)),
        Choices::HARDPRESS => Ratio::new(100 * defender.hp as u64, compute_hp_scale(defender)),
        Choices::WATERSPOUT | Choices::ERUPTION => Ratio::new(
            150 * attacker.hp as u64,
            compute_hp_scale(attacker),
        ),
        Choices::STOREDPOWER => {
            let boosts: u64 = if attacker_active {
                compute_total_raises(attacking_side)
            } else {
                0
            };
            Ratio::whole(20 + boosts * 20)
        },
        Choices::LASTRESPECTS => Ratio::whole(50 + 50 * attacking_side.count_fainted() as u64),
        Choices::LOWKICK | Choices::GRASSKNOT => Ratio::whole(
            compute_low_kick_power(&defender.weight_kg),
        ),
        Choices::HEAVYSLAM | Choices::HEATCRASH => Ratio::whole(
            compute_heavy_slam_power(&attacker.weight_kg, &defender.weight_kg),
        ),
        Choices::ACROBATICS if attacker.item == Items::NONE => listed.times(Ratio::new(2, 1)),
        Choices::KNOCKOFF if defender.item != Items::NONE => listed.times(Ratio::new(3, 2)),
        Choices::FACADE if attacker.status != PokemonStatus::NONE => listed.times(Ratio::new(2, 1)),
        Choices::HEX if defender.status != PokemonStatus::NONE => listed.times(Ratio::new(2, 1)),
        Choices::BRINE if defender.hp as i32 * 2 <= defender.maxhp as i32 => listed.times(
            Ratio::new(2, 1),
        ),
        Choices::WEATHERBALL if state.weather_type != Weather::NONE => listed.times(
            Ratio::new(2, 1),
        ),
        Choices::RAGINGBULL if defending_side.side_conditions.reflect > 0
            || defending_side.side_conditions.aurora_veil > 0 => listed.times(Ratio::new(2, 1)),
        Choices::NIGHTSHADE | Choices::SEISMICTOSS | Choices::SUPERFANG
        | Choices::RUINATION => Ratio::whole(0),
        _ => listed,
    }
}

fn compute_ruled_type(state: &State, attacker: &Pokemon, c: &Choice) -> (r: PokemonType)
    ensures
        r == ruled_type(*state, *attacker, *c),
{
    match c.move_id {
        Choices::WEATHERBALL => match state.weather_type {
            Weather::SUN | Weather::HARSHSUN => PokemonType::FIRE,
            Weather::RAIN | Weather::HEAVYRAIN => PokemonType::WATER,
            Weather::SAND => PokemonType::ROCK,
            Weather::HAIL | Weather::SNOW => PokemonType::ICE,
            Weather::NONE => c.move_type,
        },
        Choices::TERABLAST if attacker.terastallized => attacker.tera_type,
        Choices::IVYCUDGEL => match attacker.item {
            Items::WELLSPRINGMASK => PokemonType::WATER,
            Items::HEARTHFLAMEMASK => PokemonType::FIRE,
            Items::CORNERSTONEMASK => PokemonType::ROCK,
            _ => c.move_type,
        },
        _ => c.move_type,
    }
}

fn compute_recolored(ability: Abilities) -> (r: Option<PokemonType>)
    ensures
        r == recolored(ability),
{
    match ability {
        Abilities::PIXILATE => Some(PokemonType::FAIRY),
        Abilities::REFRIGERATE => Some(PokemonType::ICE),
        Abilities::AERILATE => Some(PokemonType::FLYING),
        Abilities::GALVANIZE => Some(PokemonType::ELECTRIC),
        _ => None,
    }
}

fn compute_attacker_ability_factor(
    attacking_side: &Side,
    attacker: &Pokemon,
    defender: &Pokemon,
    c: &Choice,
    t: PokemonType,
    category: MoveCategory,
    power: Ratio,
) -> (r: Ratio)
    requires
        attacker.wf(),
        power.wf(),
        power.den <= 0xA_0000_0000,
    ensures
        r.wf(),
        r@ == attacker_ability_factor(
            *attacking_side,
            *attacker,
            *defender,
            *c,
            t,
            category,
            power@,
        ),
        r.num <= 16,
        r.den <= 10,
{
    match attacker.ability {
        Abilities::TECHNICIAN if power.at_most(60) => Ratio::new(3, 2),
        Abilities::IRONFIST if c.flags.punch => Ratio::new(6, 5),
        Abilities::STRONGJAW if c.flags.bite => Ratio::new(3, 2),
        Abilities::SHARPNESS if c.flags.slicing => Ratio::new(3, 2),
        Abilities::MEGALAUNCHER if c.flags.pulse => Ratio::new(3, 2),
        Abilities::TOUGHCLAWS if c.flags.contact => Ratio::new(13, 10),
        Abilities::TINTEDLENS if defender.type_effectiveness(t) < 4 => Ratio::new(2, 1),
        Abilities::HUGEPOWER if category == MoveCategory::Physical => Ratio::new(2, 1),
        Abilities::PUREPOWER if category == MoveCategory::Physical => Ratio::new(2, 1),
        Abilities::GUTS if category == MoveCategory::Physical && attacker.status
            != PokemonStatus::NONE => Ratio::new(3, 1),
        Abilities::ADAPTABILITY if t == attacker.types.0 || t == attacker.types.1 => Ratio::new(
            4,
            3,
        ),
        Abilities::SUPREMEOVERLORD => Ratio::new(10 + attacking_side.count_fainted() as u64, 10),
        Abilities::SWORDOFRUIN if category == MoveCategory::Physical => Ratio::new(4, 3),
        Abilities::BEADSOFRUIN if category == MoveCategory::Special => Ratio::new(4, 3),
        Abilities::BLAZE if compute_in_a_pinch(attacker) && t == PokemonType::FIRE => Ratio::new(
            3,
            2,
        ),
        Abilities::TORRENT if compute_in_a_pinch(attacker) && t
            == PokemonType::WATER => Ratio::new(3, 2),
        Abilities::OVERGROW if compute_in_a_pinch(attacker) && t
            == PokemonType::GRASS => Ratio::new(3, 2),
        Abilities::SWARM if compute_in_a_pinch(attacker) && t == PokemonType::BUG => Ratio::new(
            3,
            2,
        ),
        _ => Ratio::new(1, 1),
    }
}

fn compute_defender_ability_factor(
    attacker: &Pokemon,
    defender: &Pokemon,
    c: &Choice,
    t: PokemonType,
    category: MoveCategory,
) -> (r: Ratio)
    ensures
        r.wf(),
        r@ == defender_ability_factor(*attacker, *defender, *c, t, category),
        r.num <= 3,
        r.den <= 4,
{
    match defender.ability {
        Abilities::FURCOAT if category == MoveCategory::Physical => Ratio::new(1, 2),
        Abilities::ICESCALES if category == MoveCategory::Special => Ratio::new(1, 2),
        Abilities::THICKFAT if t == PokemonType::FIRE || t == PokemonType::ICE => Ratio::new(1, 2),
        Abilities::HEATPROOF if t == PokemonType::FIRE => Ratio::new(1, 2),
        Abilities::FLUFFY if c.flags.contact => Ratio::new(1, 2),
        Abilities::FLUFFY if t == PokemonType::FIRE => Ratio::new(2, 1),
        Abilities::MULTISCALE if defender.hp == defender.maxhp => Ratio::new(1, 2),
        Abilities::SHADOWSHIELD if defender.hp == defender.maxhp => Ratio::new(1, 2),
        Abilities::FILTER if defender.type_effectiveness(t) > 4 => Ratio::new(3, 4),
        Abilities::SOLIDROCK if defender.type_effectiveness(t) > 4 => Ratio::new(3, 4),
        Abilities::PRISMARMOR if defender.type_effectiveness(t) > 4 => Ratio::new(3, 4),
        Abilities::TABLETSOFRUIN if category == MoveCategory::Physical && attacker.ability
            != Abilities::TABLETSOFRUIN => Ratio::new(3, 4),
        Abilities::VESSELOFRUIN if category == MoveCategory::Special && attacker.ability
            != Abilities::VESSELOFRUIN => Ratio::new(3, 4),
        _ => Ratio::new(1, 1),
    }
}

fn compute_item_factor(
    attacker: &Pokemon,
    defender: &Pokemon,
    t: PokemonType,
    category: MoveCategory,
) -> (r: Ratio)
    ensures
        r.wf(),
        r@ == item_factor(*attacker, *defender, t, category),
        r.num <= 13,
        r.den <= 10,
{
    match attacker.item {
        Items::CHOICEBAND if category == MoveCategory::Physical => Ratio::new(3, 2),
        Items::CHOICESPECS if category == MoveCategory::Special => Ratio::new(3, 2),
        Items::LIFEORB if category != MoveCategory::Status => Ratio::new(13, 10),
        Items::EXPERTBELT if defender.type_effectiveness(t) > 4 => Ratio::new(6, 5),
        Items::MUSCLEBAND if category == MoveCategory::Physical => Ratio::new(11, 10),
        Items::WISEGLASSES if category == MoveCategory::Special => Ratio::new(11, 10),
        _ => Ratio::new(1, 1),
    }
}

fn scaled_plain(ruled: Ratio, recolor: Ratio) -> (r: Ratio)
    requires
        ruled.wf(),
        ruled.num <= 0x3_0000_0000,
        ruled.den <= 0x2_0000_0000,
        recolor.wf(),
        recolor.num <= 6,
        recolor.den <= 5,
    ensures
        r.wf(),
        r@ == product(ruled@, recolor@),
        r.num <= 0x12_0000_0000,
        r.den <= 0xA_0000_0000,
{
    proof {
        lemma_product_bound(ruled.num as nat, recolor.num as nat, 0x3_0000_0000, 6);
        lemma_product_bound(ruled.den as nat, recolor.den as nat, 0x2_0000_0000, 5);
    }
    ruled.times(recolor)
}

/// The product of a plain power and its four factors.
fn chained(plain: Ratio, ability: Ratio, guard: Ratio, held: Ratio, bulk: Ratio) -> (r: Ratio)
    requires
        plain.wf(),
        plain.num <= 0x12_0000_0000,
        plain.den <= 0xA_0000_0000,
        ability.wf(),
        ability.num <= 16,
        ability.den <= 10,
        guard.wf(),
        guard.num <= 3,
        guard.den <= 4,
        held.wf(),
        held.num <= 13,
        held.den <= 10,
        bulk.wf(),
        bulk.num <= 2,
        bulk.den <= 3,
    ensures
        r.wf(),
        r@ == product(product(product(product(plain@, ability@), guard@), held@), bulk@),
{
    proof {
        lemma_product_bound(plain.num as nat, ability.num as nat, 0x12_0000_0000, 16);
        lemma_product_bound(plain.den as nat, ability.den as nat, 0xA_0000_0000, 10);
    }
    let by_ability = plain.times(ability);
    proof {
        lemma_product_bound(by_ability.num as nat, guard.num as nat, 0x120_0000_0000, 3);
        lemma_product_bound(by_ability.den as nat, guard.den as nat, 0x64_0000_0000, 4);
    }
    let by_guard = by_ability.times(guard);
    proof {
        lemma_product_bound(by_guard.num as nat, held.num as nat, 0x360_0000_0000, 13);
        lemma_product_bound(by_guard.den as nat, held.den as nat, 0x190_0000_0000, 10);
    }
    let by_item = by_guard.times(held);
    proof {
        lemma_product_bound(by_item.num as nat, bulk.num as nat, 0x2BE0_0000_0000, 2);
        lemma_product_bound(by_item.den as nat, bulk.den as nat, 0xFA0_0000_0000, 3);
    }
    by_item.times(bulk)
}

/// Works out the type, category and power that `source` has when `attacker`
/// uses it on `defender`. The other fields are those of the compact choice.
pub fn normalize_choice(
    state: &State,
    attacking_side: &Side,
    attacker: &Pokemon,
    defending_side: &Side,
    defender: &Pokemon,
    source: &Choice,
    attacker_active: bool,
) -> (c: Choice)
    requires
        attacking_side.wf(),
        attacker.wf(),
        defender.wf(),
        source.wf(),
    ensures
        c.base_power.wf(),
        c.base_power@ == normalized_power(
            *state,
            *attacking_side,
            *attacker,
            *defending_side,
            *defender,
            *source,
            attacker_active,
        ),
        c == normalized_choice(
            *state,
            *attacking_side,
            *attacker,
            *defending_side,
            *defender,
            *source,
            attacker_active,
        ),
{
    let mut c = compact_choice(source);
    let ruled = compute_ruled_power(
        state,
        attacking_side,
        attacker,
        defending_side,
        defender,
        source,
        attacker_active,
    );
    let own_type = compute_ruled_type(state, attacker, source);
    c.move_type = own_type;
    if c.move_id == Choices::TERABLAST && attacker.terastallized && attacker.attack
        > attacker.special_attack {
        c.category = MoveCategory::Physical;
    }
    let mut recolor = Ratio::new(1, 1);
    match compute_recolored(attacker.ability) {
        Some(new_type) => {
            if own_type == PokemonType::NORMAL {
                c.move_type = new_type;
                recolor = Ratio::new(6, 5);
            }
        },
        None => {
            if attacker.ability == Abilities::LIQUIDVOICE && c.flags.sound {
                c.move_type = PokemonType::WATER;
            }
        },
    }
    let plain = scaled_plain(ruled, recolor);
    let ability = compute_attacker_ability_factor(
        attacking_side,
        attacker,
        defender,
        source,
        c.move_type,
        c.category,
        plain,
    );
    let guard = compute_defender_ability_factor(attacker, defender, source, c.move_type, c.category);
    let held = compute_item_factor(attacker, defender, c.move_type, c.category);
    let bulk = if defender.item == Items::EVIOLITE || (defender.item == Items::ASSAULTVEST
        && c.category == MoveCategory::Special) {
        Ratio::new(2, 3)
    } else {
        Ratio::new(1, 1)
    };
    c.base_power = chained(plain, ability, guard, held, bulk);
    c
}

} // verus!
