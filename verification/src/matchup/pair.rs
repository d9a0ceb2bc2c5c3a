//! One ordered pair: the best attack of one Pokemon on another.

use crate::matchup::power::normalize_choice;
use crate::ratio::{product, Ratio};
use crate::state::{
    Abilities, Choice, Choices, Generation, Items, MoveCategory, MultiHitMove, Pokemon,
    PokemonStatus, PokemonType, PokemonVolatileStatus, Side, State, Terrain, Weather,
};
use vstd::prelude::*;

verus! {

/// What the best attack of one Pokemon does to another.
#[derive(Clone, Copy, Debug, PartialEq, Eq, Structural)]
pub struct PairResult {
    /// Average damage, all hits of a multi-hit move together.
    pub damage: i16,
    /// How many such attacks the target takes to faint, if the attack hurts.
    pub hits: Option<i16>,
    pub priority: i8,
    pub speed: i16,
    pub move_slot: u8,
}

impl PairResult {
    /// No attack at all.
    pub open spec fn harmless() -> PairResult {
        PairResult { damage: 0, hits: None, priority: 0, speed: 0, move_slot: 0 }
    }

    /// Damage is never negative and the slot is one of four.
    pub open spec fn wf(self) -> bool {
        &&& 0 <= self.damage
        &&& self.move_slot < 4
    }
}

impl Default for PairResult {
    fn default() -> (r: PairResult)
        ensures
            r == PairResult::harmless(),
    {
        PairResult { damage: 0, hits: None, priority: 0, speed: 0, move_slot: 0 }
    }
}

/// The damage formula: the average damage of a move in a matchup, or nothing
/// where the move cannot connect. Arguments in order: the position, the
/// attacking side, the attacker, whether it is active, the defending side,
/// the defender, whether it is active, and the normalized move.
pub type DamageFn = spec_fn(State, Side, Pokemon, bool, Side, Pokemon, bool, Choice) -> Option<i16>;

/// Whether the executable damage formula `damage` can always be called.
pub open spec fn answers<
    F: Fn(&State, &Side, &Pokemon, bool, &Side, &Pokemon, bool, &Choice) -> Option<i16>,
>(damage: F) -> bool {
    forall|s: &State, aside: &Side, a: &Pokemon, aa: bool, dside: &Side, d: &Pokemon, da: bool, c: &Choice|
        #[trigger] damage.requires((s, aside, a, aa, dside, d, da, c))
}

/// Whether the executable damage formula `damage` computes `calc`.
pub open spec fn computes<
    F: Fn(&State, &Side, &Pokemon, bool, &Side, &Pokemon, bool, &Choice) -> Option<i16>,
>(damage: F, calc: DamageFn) -> bool {
    forall|s: &State, aside: &Side, a: &Pokemon, aa: bool, dside: &Side, d: &Pokemon, da: bool, c: &Choice, r: Option<i16>|
        #[trigger] damage.ensures((s, aside, a, aa, dside, d, da, c), r) ==> r == calc(
            *s,
            *aside,
            *a,
            aa,
            *dside,
            *d,
            da,
            *c,
        )
}

/// Whether the damage formula stays small enough that all hits of a move
/// together fit the 16 bits damage is kept in.
pub open spec fn fits<
    F: Fn(&State, &Side, &Pokemon, bool, &Side, &Pokemon, bool, &Choice) -> Option<i16>,
>(damage: F) -> bool {
    forall|s: &State, aside: &Side, a: &Pokemon, aa: bool, dside: &Side, d: &Pokemon, da: bool, c: &Choice, r: Option<i16>|
        #[trigger] damage.ensures((s, aside, a, aa, dside, d, da, c), r) ==> (r matches Some(v)
            ==> v * hits_per_use(*a, *c) <= i16::MAX)
}

/// Whether the defender's ability takes no damage from the move at all.
pub open spec fn is_immune(attacker: Pokemon, defender: Pokemon, c: Choice) -> bool {
    attacker.ability != Abilities::MOLDBREAKER && match defender.ability {
        Abilities::LEVITATE => c.move_type == PokemonType::GROUND && c.move_id
            != Choices::THOUSANDARROWS,
        Abilities::FLASHFIRE => c.move_type == PokemonType::FIRE,
        Abilities::VOLTABSORB | Abilities::LIGHTNINGROD | Abilities::MOTORDRIVE => c.move_type
            == PokemonType::ELECTRIC,
        Abilities::WATERABSORB | Abilities::STORMDRAIN | Abilities::DRYSKIN => c.move_type
            == PokemonType::WATER,
        Abilities::SAPSIPPER => c.move_type == PokemonType::GRASS,
        Abilities::EARTHEATER => c.move_type == PokemonType::GROUND,
        Abilities::WONDERGUARD => defender.taken(c.move_type) <= 4,
        _ => false,
    }
}

pub fn immune(attacker: &Pokemon, defender: &Pokemon, c: &Choice) -> (r: bool)
    ensures
        r == is_immune(*attacker, *defender, *c),
{
    if attacker.ability == Abilities::MOLDBREAKER {
        return false;
    }
    match defender.ability {
        Abilities::LEVITATE => c.move_type == PokemonType::GROUND && c.move_id
            != Choices::THOUSANDARROWS,
        Abilities::FLASHFIRE => c.move_type == PokemonType::FIRE,
        Abilities::VOLTABSORB | Abilities::LIGHTNINGROD | Abilities::MOTORDRIVE => c.move_type
            == PokemonType::ELECTRIC,
        Abilities::WATERABSORB | Abilities::STORMDRAIN | Abilities::DRYSKIN => c.move_type
            == PokemonType::WATER,
        Abilities::SAPSIPPER => c.move_type == PokemonType::GRASS,
        Abilities::EARTHEATER => c.move_type == PokemonType::GROUND,
        Abilities::WONDERGUARD => defender.type_effectiveness(c.move_type) <= 4,
        _ => false,
    }
}

/// How many hits one use of the move is counted as.
pub open spec fn hits_per_use(attacker: Pokemon, c: Choice) -> int {
    match c.multi_hit {
        MultiHitMove::SingleHit => 1,
        MultiHitMove::DoubleHit => 2,
        MultiHitMove::TripleHit | MultiHitMove::TripleAxel => 3,
        MultiHitMove::TwoToFiveHits => if attacker.ability == Abilities::SKILLLINK {
            5
        } else if attacker.item == Items::LOADEDDICE {
            4
        } else {
            3
        },
        MultiHitMove::PopulationBomb => if attacker.item == Items::WIDELENS {
            9
        } else {
            6
        },
    }
}

pub fn hit_multiplier(attacker: &Pokemon, c: &Choice) -> (r: i16)
    ensures
        r == hits_per_use(*attacker, *c),
        1 <= r <= 9,
{
    match c.multi_hit {
        MultiHitMove::SingleHit => 1,
        MultiHitMove::DoubleHit => 2,
        MultiHitMove::TripleHit | MultiHitMove::TripleAxel => 3,
        MultiHitMove::TwoToFiveHits => {
            if attacker.ability == Abilities::SKILLLINK {
                5
            } else if attacker.item == Items::LOADEDDICE {
                4
            } else {
                3
            }
        },
        MultiHitMove::PopulationBomb => {
            if attacker.item == Items::WIDELENS {
                9
            } else {
                6
            }
        },
    }
}

/// The move's priority once terrain and ability have had their say.
pub open spec fn priority_in_matchup(state: State, pokemon: Pokemon, c: Choice) -> int {
    c.priority + (if c.move_id == Choices::GRASSYGLIDE && state.terrain_type
        == Terrain::GRASSYTERRAIN {
        1int
    } else {
        0
    }) + (if pokemon.ability == Abilities::GALEWINGS && c.move_type == PokemonType::FLYING
        && pokemon.hp == pokemon.maxhp {
        1int
    } else {
        0
    })
}

pub fn effective_priority(state: &State, pokemon: &Pokemon, c: &Choice) -> (r: i8)
    requires
        c.priority <= i8::MAX - 2,
    ensures
        r == priority_in_matchup(*state, *pokemon, *c),
{
    let mut priority: i8 = c.priority;
    if c.move_id == Choices::GRASSYGLIDE && state.terrain_type == Terrain::GRASSYTERRAIN {
        priority = priority + 1;
    }
    if pokemon.ability == Abilities::GALEWINGS && c.move_type == PokemonType::FLYING && pokemon.hp
        == pokemon.maxhp {
        priority = priority + 1;
    }
    priority
}

/// The speed stat with its stage, rounded down.
pub open spec fn staged_speed(speed: int, stage: int) -> int {
    if stage < 0 {
        speed * 2 / (2 - stage)
    } else {
        speed * (2 + stage) / 2
    }
}

/// Whether the weather makes this ability twice as fast.
pub open spec fn fast_in_weather(weather: Weather, ability: Abilities) -> bool {
    match weather {
        Weather::SUN | Weather::HARSHSUN => ability == Abilities::CHLOROPHYLL,
        Weather::RAIN | Weather::HEAVYRAIN => ability == Abilities::SWIFTSWIM,
        Weather::SAND => ability == Abilities::SANDRUSH,
        Weather::HAIL | Weather::SNOW => ability == Abilities::SLUSHRUSH,
        Weather::NONE => false,
    }
}

/// `x`, multiplied by `factor` if `applies`.
#[verifier::opaque]
pub open spec fn product_if(x: (nat, nat), applies: bool, factor: (nat, nat)) -> (nat, nat) {
    if applies {
        product(x, factor)
    } else {
        x
    }
}

/// What is left of the speed under paralysis.
pub open spec fn paralysis_factor(generation: Generation) -> (nat, nat) {
    match generation {
        Generation::Gen3 | Generation::Gen4 | Generation::Gen5 | Generation::Gen6 => (1, 4),
        _ => (1, 2),
    }
}

/// The speed as an exact fraction: the stat, staged where the Pokemon is
/// active, times every factor that applies.
pub open spec fn exact_speed(state: State, side: Side, pokemon: Pokemon, active: bool) -> (
    nat,
    nat,
) {
    let base: (nat, nat) = (
        (if active {
            staged_speed(pokemon.speed as int, side.speed_boost as int)
        } else {
            pokemon.speed as int
        }) as nat,
        1,
    );
    let has = |status: PokemonVolatileStatus| active && side.volatile_statuses.has(status);
    let s = product_if(base, fast_in_weather(state.weather_type, pokemon.ability), (2, 1));
    let s = product_if(
        s,
        pokemon.ability == Abilities::SURGESURFER && state.terrain_type == Terrain::ELECTRICTERRAIN,
        (2, 1),
    );
    let s = product_if(
        s,
        pokemon.ability == Abilities::QUICKFEET && pokemon.status != PokemonStatus::NONE,
        (3, 2),
    );
    let s = product_if(s, has(PokemonVolatileStatus::UNBURDEN), (2, 1));
    let s = product_if(s, has(PokemonVolatileStatus::SLOWSTART), (1, 2));
    let s = product_if(
        s,
        has(PokemonVolatileStatus::PROTOSYNTHESISSPE) || has(PokemonVolatileStatus::QUARKDRIVESPE),
        (3, 2),
    );
    let s = product_if(s, side.side_conditions.tailwind > 0, (2, 1));
    let s = product_if(s, pokemon.item == Items::IRONBALL, (1, 2));
    let s = product_if(s, pokemon.item == Items::CHOICESCARF, (3, 2));
    product_if(
        s,
        pokemon.status == PokemonStatus::PARALYZE && pokemon.ability != Abilities::QUICKFEET,
        paralysis_factor(state.generation),
    )
}

/// The speed a matchup is decided by: the exact speed rounded down, and never
/// more than 16 bits hold.
pub open spec fn matchup_speed(state: State, side: Side, pokemon: Pokemon, active: bool) -> int {
    let s = exact_speed(state, side, pokemon, active);
    let whole = s.0 as int / s.1 as int;
    if whole > i16::MAX {
        i16::MAX as int
    } else {
        whole
    }
}

fn times_if(x: Ratio, applies: bool, num: u64, den: u64) -> (r: Ratio)
    requires
        x.wf(),
        x.num <= 0x1000_0000_0000,
        x.den <= 0x1000_0000_0000,
        1 <= num <= 3,
        1 <= den <= 4,
    ensures
        r.wf(),
        r@ == product_if(x@, applies, (num as nat, den as nat)),
        r.num <= 3 * x.num,
        r.den <= 4 * x.den,
{
    reveal(product_if);
    if applies {
        proof {
            assert(x.num * num <= 3 * x.num) by (nonlinear_arith)
                requires
                    num <= 3,
            ;
            assert(x.den * den <= 4 * x.den) by (nonlinear_arith)
                requires
                    den <= 4,
            ;
        }
        x.times(Ratio::new(num, den))
    } else {
        x
    }
}

fn compute_staged_speed(speed: i16, stage: i8) -> (r: u64)
    requires
        0 <= speed,
        -6 <= stage <= 6,
    ensures
        r == staged_speed(speed as int, stage as int),
        r <= 4 * i16::MAX,
{
    if stage < 0 {
        let divisor: u64 = (2 - stage) as u64;
        let doubled: u64 = speed as u64 * 2;
        proof {
            assert(doubled / divisor <= doubled) by (nonlinear_arith)
                requires
                    divisor >= 1,
            ;
        }
        doubled / divisor
    } else {
        let factor: u64 = (2 + stage) as u64;
        proof {
            assert(speed as u64 * factor <= 8 * 32767) by (nonlinear_arith)
                requires
                    0 <= speed <= 32767,
                    factor <= 8,
            ;
        }
        speed as u64 * factor / 2
    }
}

fn compute_fast_in_weather(weather: Weather, ability: Abilities) -> (r: bool)
    ensures
        r == fast_in_weather(weather, ability),
{
    match weather {
        Weather::SUN | Weather::HARSHSUN => ability == Abilities::CHLOROPHYLL,
        Weather::RAIN | Weather::HEAVYRAIN => ability == Abilities::SWIFTSWIM,
        Weather::SAND => ability == Abilities::SANDRUSH,
        Weather::HAIL | Weather::SNOW => ability == Abilities::SLUSHRUSH,
        Weather::NONE => false,
    }
}

/// The speed `pokemon` has in a matchup.
pub fn effective_speed(state: &State, side: &Side, pokemon: &Pokemon, active: bool) -> (r: i16)
    requires
        side.wf(),
        pokemon.wf(),
    ensures
        r == matchup_speed(*state, *side, *pokemon, active),
        0 <= r,
{
    let base: u64 = if active {
        compute_staged_speed(pokemon.speed, side.speed_boost)
    } else {
        pokemon.speed as u64
    };
    let volatile = &side.volatile_statuses;
    let boosted = active && (volatile.contains(PokemonVolatileStatus::PROTOSYNTHESISSPE)
        || volatile.contains(PokemonVolatileStatus::QUARKDRIVESPE));
    let s = Ratio::whole(base);
    let s = times_if(s, compute_fast_in_weather(state.weather_type, pokemon.ability), 2, 1);
    let s = times_if(
        s,
        pokemon.ability == Abilities::SURGESURFER && state.terrain_type == Terrain::ELECTRICTERRAIN,
        2,
        1,
    );
    let s = times_if(
        s,
        pokemon.ability == Abilities::QUICKFEET && pokemon.status != PokemonStatus::NONE,
        3,
        2,
    );
    let s = times_if(s, active && volatile.contains(PokemonVolatileStatus::UNBURDEN), 2, 1);
    let s = times_if(s, active && volatile.contains(PokemonVolatileStatus::SLOWSTART), 1, 2);
    let s = times_if(s, boosted, 3, 2);
    let s = times_if(s, side.side_conditions.tailwind > 0, 2, 1);
    let s = times_if(s, pokemon.item == Items::IRONBALL, 1, 2);
    let s = times_if(s, pokemon.item == Items::CHOICESCARF, 3, 2);
    let left: u64 = match state.generation {
        Generation::Gen3 | Generation::Gen4 | Generation::Gen5 | Generation::Gen6 => 4,
        _ => 2,
    };
    let s = times_if(
        s,
        pokemon.status == PokemonStatus::PARALYZE && pokemon.ability != Abilities::QUICKFEET,
        1,
        left,
    );
    let whole: u64 = s.num / s.den;
    if whole > i16::MAX as u64 {
        i16::MAX
    } else {
        whole as i16
    }
}

/// Whether the slot holds a damaging move that can be used.
pub open spec fn slot_attacks(pokemon: Pokemon, slot: int) -> bool {
    let mv = pokemon.moves@[slot];
    !mv.disabled && mv.pp > 0 && mv.choice.category != MoveCategory::Status && mv.choice.category
        != MoveCategory::Switch
}

/// One ordered pair in a position: who attacks whom, and where they stand.
pub struct Duelists {
    pub state: State,
    pub attacking_side: Side,
    pub attacker: Pokemon,
    pub attacker_active: bool,
    pub defending_side: Side,
    pub defender: Pokemon,
    pub defender_active: bool,
}

impl Duelists {
    /// The move in a slot as it hits in this pair.
    pub open spec fn attack(self, slot: int) -> Choice {
        crate::matchup::power::normalized_choice(
            self.state,
            self.attacking_side,
            self.attacker,
            self.defending_side,
            self.defender,
            self.attacker.moves@[slot].choice,
            self.attacker_active,
        )
    }

    pub open spec fn attack_priority(self, slot: int) -> int {
        priority_in_matchup(self.state, self.attacker, self.attack(slot))
    }

    /// The damage the move in a slot does, all hits together.
    pub open spec fn attack_damage(self, slot: int, calc: DamageFn) -> int {
        let c = self.attack(slot);
        if is_immune(self.attacker, self.defender, c) {
            0
        } else {
            match c.move_id {
                Choices::NIGHTSHADE | Choices::SEISMICTOSS => self.attacker.level as int,
                Choices::SUPERFANG | Choices::RUINATION => self.defender.hp as int / 2,
                _ => match calc(
                    self.state,
                    self.attacking_side,
                    self.attacker,
                    self.attacker_active,
                    self.defending_side,
                    self.defender,
                    self.defender_active,
                    c,
                ) {
                    Some(v) => if v > 0 {
                        v * hits_per_use(self.attacker, c)
                    } else {
                        0
                    },
                    None => 0,
                },
            }
        }
    }

    /// Whether an attack beats the best one so far: more damage, or the same
    /// damage earlier in the turn, or the same again from an earlier slot.
    pub open spec fn improves(self, slot: int, best: PairResult, calc: DamageFn) -> bool {
        let damage = self.attack_damage(slot, calc);
        let priority = self.attack_priority(slot);
        damage > best.damage || (damage == best.damage && (priority > best.priority || (priority
            == best.priority && slot < best.move_slot)))
    }

    /// The best attack among the first `n` slots.
    pub open spec fn best_of(self, n: int, calc: DamageFn) -> PairResult
        decreases n,
    {
        if n <= 0 {
            PairResult {
                speed: matchup_speed(
                    self.state,
                    self.attacking_side,
                    self.attacker,
                    self.attacker_active,
                ) as i16,
                ..PairResult::harmless()
            }
        } else {
            let best = self.best_of(n - 1, calc);
            if slot_attacks(self.attacker, n - 1) && self.improves(n - 1, best, calc) {
                PairResult {
                    damage: self.attack_damage(n - 1, calc) as i16,
                    priority: self.attack_priority(n - 1) as i8,
                    move_slot: (n - 1) as u8,
                    ..best
                }
            } else {
                best
            }
        }
    }

    /// The best attack of the attacker on the defender, before the hits to a
    /// knock-out are counted.
    pub open spec fn best(self, calc: DamageFn) -> PairResult {
        self.best_of(4, calc)
    }
}

/// Finds the best attack of `attacker` on `defender` by trying every slot.
pub fn ordered_pair_uncached<
    F: Fn(&State, &Side, &Pokemon, bool, &Side, &Pokemon, bool, &Choice) -> Option<i16>,
>(
    state: &State,
    a_side: &Side,
    attacker: &Pokemon,
    a_active: bool,
    d_side: &Side,
    defender: &Pokemon,
    d_active: bool,
    damage_formula: &F,
) -> (best: PairResult)
    requires
        a_side.wf(),
        attacker.wf(),
        defender.wf(),
        answers(*damage_formula),
        fits(*damage_formula),
    ensures
        best.wf(),
        best.hits is None,
        forall|calc: DamageFn|
            computes(*damage_formula, calc) ==> best == (Duelists {
                state: *state,
                attacking_side: *a_side,
                attacker: *attacker,
                attacker_active: a_active,
                defending_side: *d_side,
                defender: *defender,
                defender_active: d_active,
            }).best(calc),
{
    let ghost pair = Duelists {
        state: *state,
        attacking_side: *a_side,
        attacker: *attacker,
        attacker_active: a_active,
        defending_side: *d_side,
        defender: *defender,
        defender_active: d_active,
    };
    let mut best = PairResult {
        damage: 0,
        hits: None,
        priority: 0,
        speed: effective_speed(state, a_side, attacker, a_active),
        move_slot: 0,
    };
    let mut slot: usize = 0;
    while slot < 4
        invariant
            slot <= 4,
            a_side.wf(),
            attacker.wf(),
            defender.wf(),
            answers(*damage_formula),
            fits(*damage_formula),
            pair == (Duelists {
                state: *state,
                attacking_side: *a_side,
                attacker: *attacker,
                attacker_active: a_active,
                defending_side: *d_side,
                defender: *defender,
                defender_active: d_active,
            }),
            best.wf(),
            best.hits is None,
            forall|calc: DamageFn|
                computes(*damage_formula, calc) ==> best == #[trigger] pair.best_of(
                    slot as int,
                    calc,
                ),
        decreases 4 - slot,
    {
        let mv = &attacker.moves[slot];
        let ghost before = best;
        if !mv.disabled && mv.pp > 0 && mv.choice.category != MoveCategory::Status
            && mv.choice.category != MoveCategory::Switch {
            let c = normalize_choice(
                state,
                a_side,
                attacker,
                d_side,
                defender,
                &mv.choice,
                a_active,
            );
            let priority: i8 = effective_priority(state, attacker, &c);
            let damage: i16 = if immune(attacker, defender, &c) {
                0
            } else if c.move_id == Choices::NIGHTSHADE || c.move_id == Choices::SEISMICTOSS {
                attacker.level as i16
            } else if c.move_id == Choices::SUPERFANG || c.move_id == Choices::RUINATION {
                defender.hp / 2
            } else {
                let dealt = damage_formula(
                    state,
                    a_side,
                    attacker,
                    a_active,
                    d_side,
                    defender,
                    d_active,
                    &c,
                );
                match dealt {
                    Some(v) => if v > 0 {
                        let hits: i16 = hit_multiplier(attacker, &c);
                        proof {
                            assert(v * hits >= 0) by (nonlinear_arith)
                                requires
                                    v > 0,
                                    hits >= 1,
                            ;
                        }
                        v * hits
                    } else {
                        0
                    },
                    None => 0,
                }
            };
            assert(forall|calc: DamageFn|
                computes(*damage_formula, calc) ==> damage == pair.attack_damage(
                    slot as int,
                    calc,
                ));
            if damage > best.damage || (damage == best.damage && (priority > best.priority || (
            priority == best.priority && slot < best.move_slot as usize))) {
                best.damage = damage;
                best.priority = priority;
                best.move_slot = slot as u8;
            }
        }
        proof {
            assert forall|calc: DamageFn| computes(*damage_formula, calc) implies best
                == #[trigger] pair.best_of(slot + 1, calc) by {
                assert(before == pair.best_of(slot as int, calc));
            }
        }
        slot = slot + 1;
    }
    best
}

/// How many hits of `damage` take away `hp`: rounded up, none if it never hurts.
pub open spec fn hits_to_faint(damage: i16, hp: i16) -> Option<i16> {
    if damage > 0 {
        Some(((hp + damage - 1) / damage as int) as i16)
    } else {
        None
    }
}

/// Counts the hits that the attack needs against a target with `defender_hp`.
pub fn with_hits(result: PairResult, defender_hp: i16) -> (r: PairResult)
    requires
        0 <= defender_hp,
    ensures
        r == (PairResult { hits: hits_to_faint(result.damage, defender_hp), ..result }),
        result.damage > 0 ==> (r.hits matches Some(n) && n * result.damage >= defender_hp && (n
            - 1) * result.damage < defender_hp),
{
    let mut r = result;
    r.hits = if result.damage > 0 {
        let total: i32 = defender_hp as i32 + result.damage as i32 - 1;
        let hits: i32 = total / result.damage as i32;
        proof {
            let d = result.damage as int;
            let t = total as int;
            vstd::arithmetic::div_mod::lemma_fundamental_div_mod(t, d);
            assert(0 <= t / d <= defender_hp) by (nonlinear_arith)
                requires
                    d >= 1,
                    t == defender_hp + d - 1,
                    0 <= defender_hp,
            ;
            assert((t / d) * d == d * (t / d)) by (nonlinear_arith);
            assert((t / d - 1) * d == (t / d) * d - d) by (nonlinear_arith);
        }
        Some(hits as i16)
    } else {
        None
    };
    r
}

} // verus!
