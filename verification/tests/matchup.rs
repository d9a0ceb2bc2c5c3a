use poke_search::float32::Float32;
use poke_search::matchup::cache::{ordered_pair, ordered_pair_keyed, PairCache};
use poke_search::matchup::fingerprint::{
    hp_sensitive_defender, hp_sensitivity, mix, pair_key, participant_fingerprint, HpSensitivity,
};
use poke_search::matchup::kernel::{
    at, duel, entry_hp, is_counter, moves_before, spikes_are_few, DuelResult, MatchupKernel,
};
use poke_search::matchup::pair::{
    effective_priority, effective_speed, hit_multiplier, immune, ordered_pair_uncached, with_hits,
    PairResult,
};
use poke_search::matchup::power::{compact_choice, normalize_choice};
use poke_search::ratio::Ratio;
use poke_search::state::{
    is_stage, Abilities, Choice, Choices, Flags, Generation, Items, Move, MoveCategory, MoveTarget,
    MultiHitMove, Pokemon, PokemonStatus, PokemonType, PokemonVolatileStatus, Side, SideConditions,
    State, Terrain, VolatileStatuses, Weather,
};

fn float(x: f32) -> Float32 {
    Float32 { bits: x.to_bits() }
}

const TACKLE: Choices = Choices::OTHER(1);

fn choice(id: Choices, kind: PokemonType, category: MoveCategory, power: u64) -> Choice {
    Choice {
        move_id: id,
        move_index: 0,
        move_type: kind,
        accuracy: 100,
        category,
        base_power: Ratio::whole(power),
        priority: 0,
        flags: Flags { bite: false, contact: false, pulse: false, punch: false, slicing: false, sound: false },
        target: MoveTarget::Opponent,
        multi_hit: MultiHitMove::SingleHit,
        first_move: true,
    }
}

fn no_move() -> Move {
    Move {
        id: Choices::NONE,
        pp: 32,
        disabled: false,
        choice: choice(Choices::NONE, PokemonType::TYPELESS, MoveCategory::Status, 0),
    }
}

fn pokemon() -> Pokemon {
    Pokemon {
        id: 0,
        level: 100,
        types: (PokemonType::NORMAL, PokemonType::TYPELESS),
        hp: 100,
        maxhp: 100,
        ability: Abilities::NONE,
        item: Items::NONE,
        attack: 100,
        defense: 100,
        special_attack: 100,
        special_defense: 100,
        speed: 100,
        status: PokemonStatus::NONE,
        weight_kg: float(1.0),
        terastallized: false,
        tera_type: PokemonType::NORMAL,
        moves: [no_move(); 4],
        grounded: true,
        effectiveness: [4; 20],
    }
}

fn side() -> Side {
    Side {
        active_index: 0,
        pokemon: [pokemon(); 6],
        side_conditions: SideConditions {
            aurora_veil: 0,
            healing_wish: 0,
            light_screen: 0,
            reflect: 0,
            safeguard: 0,
            spikes: 0,
            stealth_rock: 0,
            sticky_web: 0,
            tailwind: 0,
            toxic_spikes: 0,
        },
        volatile_statuses: VolatileStatuses(0),
        attack_boost: 0,
        defense_boost: 0,
        special_attack_boost: 0,
        special_defense_boost: 0,
        speed_boost: 0,
    }
}

fn state() -> State {
    State {
        side_one: side(),
        side_two: side(),
        weather_type: Weather::NONE,
        weather_turns_remaining: 0,
        terrain_type: Terrain::NONE,
        terrain_turns_remaining: 0,
        trick_room_active: false,
        generation: Generation::Gen9,
    }
}

fn tackle_state() -> State {
    let mut state = state();
    let tackle = choice(TACKLE, PokemonType::NORMAL, MoveCategory::Physical, 40);
    state.side_one.pokemon[0].moves[0].choice = compact_choice(&tackle);
    state.side_one.pokemon[0].moves[0].id = TACKLE;
    state.side_two.pokemon[0].moves[0].choice = compact_choice(&tackle);
    state.side_two.pokemon[0].moves[0].id = TACKLE;
    for i in 1..6 {
        state.side_one.pokemon[i].hp = 0;
        state.side_two.pokemon[i].hp = 0;
    }
    state
}

fn boosted(stat: i16, boost: i8) -> f32 {
    let stat = stat as f32;
    if boost < 0 {
        stat * 2.0 / (2.0 - boost as f32)
    } else {
        stat * (2.0 + boost as f32) / 2.0
    }
}

/// The battle damage formula with average rolls.
fn damage(
    _state: &State,
    a_side: &Side,
    a: &Pokemon,
    a_active: bool,
    d_side: &Side,
    d: &Pokemon,
    d_active: bool,
    c: &Choice,
) -> Option<i16> {
    if c.category == MoveCategory::Status || c.category == MoveCategory::Switch || c.base_power.num == 0 {
        return None;
    }
    let power = c.base_power.num as f32 / c.base_power.den as f32;
    let (attack, defense) = if c.category == MoveCategory::Physical {
        (
            boosted(a.attack, if a_active { a_side.attack_boost } else { 0 }),
            boosted(d.defense, if d_active { d_side.defense_boost } else { 0 }),
        )
    } else {
        (
            boosted(a.special_attack, if a_active { a_side.special_attack_boost } else { 0 }),
            boosted(d.special_defense, if d_active { d_side.special_defense_boost } else { 0 }),
        )
    };
    let mut total = (2.0 * a.level as f32 / 5.0).floor() + 2.0;
    total = (total * power).floor() * attack / defense;
    total = (total / 50.0).floor() + 2.0;
    if a.types.0 == c.move_type || a.types.1 == c.move_type {
        total = total * 1.5;
    }
    total = total * d.type_effectiveness(c.move_type) as f32 / 4.0;
    Some((total * 0.925) as i16)
}

fn kernel(state: &State) -> MatchupKernel {
    let mut cache = PairCache::new();
    MatchupKernel::new(state, &mut cache, &damage)
}

#[test]
fn active_damage_matches_battle_damage_api() {
    let state = tackle_state();
    let attacker = &state.side_one.pokemon[0];
    let choice = &attacker.moves[0].choice;
    let direct = damage(
        &state,
        &state.side_one,
        attacker,
        true,
        &state.side_two,
        &state.side_two.pokemon[0],
        true,
        choice,
    )
    .unwrap();
    assert!(direct > 0);
    assert_eq!(direct, kernel(&state).one(0, 0).damage);
}

#[test]
fn bench_does_not_inherit_active_attack_boost() {
    let mut state = tackle_state();
    state.side_one.pokemon[1] = state.side_one.pokemon[0];
    state.side_one.pokemon[1].hp = 100;
    state.side_one.attack_boost = 6;
    let kernel = kernel(&state);
    assert!(kernel.one(0, 0).damage > kernel.one(1, 0).damage);
}

#[test]
fn true_speed_tie_draws() {
    let mut state = tackle_state();
    state.side_two.pokemon[0].speed = state.side_one.pokemon[0].speed;
    let kernel = kernel(&state);
    assert_eq!(DuelResult::Draw, kernel.duel_one(&state, 0, 0));
}

#[test]
fn exact_one_hp_ko_threshold_changes_hits() {
    let mut state = tackle_state();
    let damage = kernel(&state).one(0, 0).damage;
    state.side_two.pokemon[0].hp = damage;
    assert_eq!(Some(1), kernel(&state).one(0, 0).hits);
    state.side_two.pokemon[0].hp = damage + 1;
    assert_eq!(Some(2), kernel(&state).one(0, 0).hits);
}

#[test]
fn cached_and_uncached_pairs_match() {
    let mut state = tackle_state();
    let mut cache = PairCache::new();
    for hp in [1, 31, 32, 33, 100] {
        state.side_two.pokemon[0].hp = hp;
        for boost in [-2, 0, 3] {
            state.side_one.attack_boost = boost;
            let a = &state.side_one.pokemon[0];
            let d = &state.side_two.pokemon[0];
            let cached = ordered_pair(
                &mut cache,
                &state,
                &state.side_one,
                a,
                true,
                &state.side_two,
                d,
                true,
                &damage,
            );
            let uncached = with_hits(
                ordered_pair_uncached(
                    &state,
                    &state.side_one,
                    a,
                    true,
                    &state.side_two,
                    d,
                    true,
                    &damage,
                ),
                d.hp,
            );
            assert_eq!(cached, uncached);
        }
    }
}

#[test]
fn cache_key_tracks_attacker_hp_for_eruption() {
    let mut state = tackle_state();
    let mut cache = PairCache::new();
    let eruption = choice(Choices::ERUPTION, PokemonType::FIRE, MoveCategory::Special, 150);
    state.side_one.pokemon[0].moves[0].choice = compact_choice(&eruption);
    state.side_one.pokemon[0].moves[0].id = Choices::ERUPTION;
    state.side_one.pokemon[0].hp = state.side_one.pokemon[0].maxhp;
    let full_hp_damage = MatchupKernel::new(&state, &mut cache, &damage).one(0, 0).damage;
    state.side_one.pokemon[0].hp /= 2;
    let half_hp_damage = MatchupKernel::new(&state, &mut cache, &damage).one(0, 0).damage;
    assert!(full_hp_damage > half_hp_damage);
}

#[test]
fn cache_key_tracks_target_hp_for_brine() {
    let mut state = tackle_state();
    let mut cache = PairCache::new();
    let brine = choice(Choices::BRINE, PokemonType::WATER, MoveCategory::Special, 65);
    state.side_one.pokemon[0].moves[0].choice = compact_choice(&brine);
    state.side_one.pokemon[0].moves[0].id = Choices::BRINE;
    state.side_two.pokemon[0].hp = state.side_two.pokemon[0].maxhp;
    let full_hp_damage = MatchupKernel::new(&state, &mut cache, &damage).one(0, 0).damage;
    state.side_two.pokemon[0].hp = state.side_two.pokemon[0].maxhp / 2;
    let half_hp_damage = MatchupKernel::new(&state, &mut cache, &damage).one(0, 0).damage;
    assert!(half_hp_damage > full_hp_damage);
}

#[test]
fn cache_key_tracks_full_hp_defensive_abilities() {
    let mut state = tackle_state();
    let mut cache = PairCache::new();
    state.side_two.pokemon[0].ability = Abilities::MULTISCALE;
    state.side_two.pokemon[0].hp = state.side_two.pokemon[0].maxhp;
    let full_hp_damage = MatchupKernel::new(&state, &mut cache, &damage).one(0, 0).damage;
    state.side_two.pokemon[0].hp -= 1;
    let damaged_damage = MatchupKernel::new(&state, &mut cache, &damage).one(0, 0).damage;
    assert!(damaged_damage > full_hp_damage);
}

#[test]
fn entry_hazards_honor_boots_grounding_and_magic_guard() {
    let mut state = tackle_state();
    let p = state.side_two.pokemon[0];
    state.side_two.side_conditions.stealth_rock = 1;
    state.side_two.side_conditions.spikes = 1;
    assert!(entry_hp(&state.side_two, &p) < p.hp);
    let mut protected = p;
    protected.item = Items::HEAVYDUTYBOOTS;
    assert_eq!(protected.hp, entry_hp(&state.side_two, &protected));
    protected.item = Items::NONE;
    protected.ability = Abilities::MAGICGUARD;
    assert_eq!(protected.hp, entry_hp(&state.side_two, &protected));
    // a levitating Pokemon does not touch the ground
    protected.ability = Abilities::LEVITATE;
    protected.grounded = false;
    assert_eq!(protected.hp - protected.maxhp / 8, entry_hp(&state.side_two, &protected));
}

#[test]
fn rocks_and_spikes_add_up() {
    let mut s = side();
    let mut p = pokemon();
    s.side_conditions.stealth_rock = 1;
    s.side_conditions.spikes = 2;
    assert_eq!(100 - 12 - 25, entry_hp(&s, &p));
    // a rock weakness doubles the rocks
    p.effectiveness[12] = 8;
    assert_eq!(100 - 25 - 25, entry_hp(&s, &p));
    // spikes are not met by what the rocks already took
    p.hp = 20;
    assert_eq!(-5, entry_hp(&s, &p));
}

#[test]
fn duels_are_seen_alike_from_both_chairs() {
    let s = state();
    let fast = PairResult { damage: 50, hits: Some(2), priority: 0, speed: 120, move_slot: 0 };
    let slow = PairResult { damage: 50, hits: Some(2), priority: 0, speed: 80, move_slot: 1 };
    let idle = PairResult { damage: 0, hits: None, priority: 0, speed: 200, move_slot: 0 };
    assert_eq!(DuelResult::Win, duel(&s, fast, slow));
    assert_eq!(DuelResult::Loss, duel(&s, slow, fast));
    assert_eq!(DuelResult::Win, duel(&s, slow, idle));
    assert_eq!(DuelResult::Loss, duel(&s, idle, slow));
    assert_eq!(DuelResult::Draw, duel(&s, idle, idle));
}

#[test]
fn priority_beats_speed_and_trick_room_turns_it() {
    let mut s = state();
    let fast = PairResult { damage: 1, hits: Some(9), priority: 0, speed: 120, move_slot: 0 };
    let slow = PairResult { speed: 80, ..fast };
    let quick = PairResult { priority: 1, ..slow };
    assert_eq!(Some(true), moves_before(&s, fast, slow));
    assert_eq!(Some(false), moves_before(&s, fast, quick));
    assert_eq!(None, moves_before(&s, fast, fast));
    s.trick_room_active = true;
    assert_eq!(Some(false), moves_before(&s, fast, slow));
}

#[test]
fn hits_round_up() {
    let hit = PairResult { damage: 33, hits: None, priority: 0, speed: 1, move_slot: 0 };
    assert_eq!(Some(4), with_hits(hit, 100).hits);
    assert_eq!(Some(3), with_hits(hit, 99).hits);
    assert_eq!(None, with_hits(PairResult { damage: 0, ..hit }, 100).hits);
}

#[test]
fn fainted_pokemon_have_no_matchups() {
    let state = tackle_state();
    let k = kernel(&state);
    assert_eq!((1, 1), (k.count_one, k.count_two));
    assert_eq!([true, false, false, false, false, false], k.alive_one);
    assert_eq!(PairResult::default(), k.one(1, 0));
    assert_eq!(PairResult::default(), k.two(0, 1));
    assert_eq!(8, at(1, 2));
}

#[test]
fn speed_factors_multiply_exactly() {
    let mut s = state();
    let mut p = pokemon();
    p.speed = 101;
    assert_eq!(101, effective_speed(&s, &s.side_one, &p, true));
    p.item = Items::CHOICESCARF;
    assert_eq!(151, effective_speed(&s, &s.side_one, &p, true));
    p.status = PokemonStatus::PARALYZE;
    assert_eq!(75, effective_speed(&s, &s.side_one, &p, true));
    s.generation = Generation::Gen4;
    assert_eq!(37, effective_speed(&s, &s.side_one, &p, true));
    p.status = PokemonStatus::NONE;
    s.side_one.speed_boost = 2;
    s.side_one.side_conditions.tailwind = 1;
    assert_eq!(606, effective_speed(&s, &s.side_one, &p, true));
    // stages belong to the active Pokemon, tailwind to the side
    assert_eq!(303, effective_speed(&s, &s.side_one, &p, false));
    s.weather_type = Weather::RAIN;
    p.ability = Abilities::SWIFTSWIM;
    assert_eq!(606, effective_speed(&s, &s.side_one, &p, false));
}

#[test]
fn normalized_power_follows_the_rules() {
    let s = state();
    let mut a = pokemon();
    let mut d = pokemon();
    let tackle = choice(TACKLE, PokemonType::NORMAL, MoveCategory::Physical, 60);
    let plain = normalize_choice(&s, &s.side_one, &a, &s.side_two, &d, &tackle, true);
    assert_eq!(60 * plain.base_power.den, plain.base_power.num);
    a.ability = Abilities::TECHNICIAN;
    let strong = normalize_choice(&s, &s.side_one, &a, &s.side_two, &d, &tackle, true);
    assert_eq!(90 * strong.base_power.den, strong.base_power.num);
    a.ability = Abilities::NONE;
    let eruption = choice(Choices::ERUPTION, PokemonType::FIRE, MoveCategory::Special, 150);
    a.hp = 50;
    let weak = normalize_choice(&s, &s.side_one, &a, &s.side_two, &d, &eruption, true);
    assert_eq!(75 * weak.base_power.den, weak.base_power.num);
    let brine = choice(Choices::BRINE, PokemonType::WATER, MoveCategory::Special, 65);
    d.hp = 50;
    let doubled = normalize_choice(&s, &s.side_one, &a, &s.side_two, &d, &brine, true);
    assert_eq!(130 * doubled.base_power.den, doubled.base_power.num);
    let kick = choice(Choices::LOWKICK, PokemonType::FIGHTING, MoveCategory::Physical, 0);
    d.weight_kg = float(100.0);
    let heavy = normalize_choice(&s, &s.side_one, &a, &s.side_two, &d, &kick, true);
    assert_eq!(100 * heavy.base_power.den, heavy.base_power.num);
}

#[test]
fn abilities_grant_immunity_unless_broken() {
    let mut a = pokemon();
    let mut d = pokemon();
    let quake = choice(Choices::OTHER(9), PokemonType::GROUND, MoveCategory::Physical, 100);
    assert!(!immune(&a, &d, &quake));
    d.ability = Abilities::LEVITATE;
    assert!(immune(&a, &d, &quake));
    assert!(!immune(
        &a,
        &d,
        &choice(Choices::THOUSANDARROWS, PokemonType::GROUND, MoveCategory::Physical, 90)
    ));
    a.ability = Abilities::MOLDBREAKER;
    assert!(!immune(&a, &d, &quake));
    a.ability = Abilities::NONE;
    d.ability = Abilities::WONDERGUARD;
    assert!(immune(&a, &d, &quake));
    d.effectiveness[8] = 8;
    assert!(!immune(&a, &d, &quake));
}

#[test]
fn multi_hit_moves_count_their_hits() {
    let mut a = pokemon();
    let mut c = choice(Choices::OTHER(2), PokemonType::ROCK, MoveCategory::Physical, 25);
    assert_eq!(1, hit_multiplier(&a, &c));
    c.multi_hit = MultiHitMove::TwoToFiveHits;
    assert_eq!(3, hit_multiplier(&a, &c));
    a.item = Items::LOADEDDICE;
    assert_eq!(4, hit_multiplier(&a, &c));
    a.ability = Abilities::SKILLLINK;
    assert_eq!(5, hit_multiplier(&a, &c));
    let mut state = tackle_state();
    let single = kernel(&state).one(0, 0).damage;
    state.side_one.pokemon[0].moves[0].choice.multi_hit = MultiHitMove::DoubleHit;
    assert_eq!(2 * single, kernel(&state).one(0, 0).damage);
}

#[test]
fn gale_wings_and_grassy_glide_come_first() {
    let mut s = state();
    let mut p = pokemon();
    let gust = choice(Choices::OTHER(3), PokemonType::FLYING, MoveCategory::Special, 40);
    assert_eq!(0, effective_priority(&s, &p, &gust));
    p.ability = Abilities::GALEWINGS;
    assert_eq!(1, effective_priority(&s, &p, &gust));
    p.hp = 99;
    assert_eq!(0, effective_priority(&s, &p, &gust));
    let glide = choice(Choices::GRASSYGLIDE, PokemonType::GRASS, MoveCategory::Physical, 55);
    s.terrain_type = Terrain::GRASSYTERRAIN;
    assert_eq!(1, effective_priority(&s, &p, &glide));
}

fn power_by_weight(id: Choices, user: f32, target: f32) -> u64 {
    let s = state();
    let mut a = pokemon();
    let mut d = pokemon();
    a.weight_kg = float(user);
    d.weight_kg = float(target);
    let c = choice(id, PokemonType::STEEL, MoveCategory::Physical, 0);
    let power = normalize_choice(&s, &s.side_one, &a, &s.side_two, &d, &c, true).base_power;
    assert_eq!(0, power.num % power.den);
    power.num / power.den
}

#[test]
fn weights_are_compared_as_machine_numbers() {
    for (kg, power) in
        [(9.9, 20), (10.0, 40), (24.9, 40), (25.0, 60), (50.0, 80), (100.0, 100), (200.0, 120)]
    {
        assert_eq!(power, power_by_weight(Choices::LOWKICK, 1.0, kg));
        assert_eq!(power, power_by_weight(Choices::GRASSKNOT, 1.0, kg));
    }
    assert_eq!(20, power_by_weight(Choices::LOWKICK, 1.0, f32::NAN));
    // three times as heavy on paper, a little less as machine numbers
    assert_eq!(60, power_by_weight(Choices::HEAVYSLAM, 30.3, 10.1));
    assert_eq!(80, power_by_weight(Choices::HEAVYSLAM, 30.0, 10.0));
    // no target is lighter than a tenth of a kilogram
    assert_eq!(100, power_by_weight(Choices::HEATCRASH, 0.4, 0.0));
    assert_eq!(120, power_by_weight(Choices::HEATCRASH, f32::INFINITY, 5.0));
    assert_eq!(40, power_by_weight(Choices::HEATCRASH, f32::INFINITY, f32::INFINITY));
    assert_eq!(40, power_by_weight(Choices::HEATCRASH, -7.0, 1.0));
    assert_eq!(40, power_by_weight(Choices::HEATCRASH, f32::NAN, 1.0));
    assert_eq!(120, power_by_weight(Choices::HEATCRASH, 50.0, f32::NAN));
    for tenths in 1..2000u32 {
        for times in 1..7u32 {
            let target = tenths as f32 / 10.0;
            let user = (tenths * times) as f32 / 10.0;
            let ratio = user / target.max(0.1);
            let power = if ratio >= 5.0 {
                120
            } else if ratio >= 4.0 {
                100
            } else if ratio >= 3.0 {
                80
            } else if ratio >= 2.0 {
                60
            } else {
                40
            };
            assert_eq!(power, power_by_weight(Choices::HEAVYSLAM, user, target));
        }
    }
}

#[test]
fn keys_follow_what_a_pair_depends_on() {
    let mut s = tackle_state();
    let a = s.side_one.pokemon[0];
    let d = s.side_two.pokemon[0];
    let fa = participant_fingerprint(&s, &s.side_one, &a, true);
    let fd = participant_fingerprint(&s, &s.side_two, &d, true);
    let calm = hp_sensitivity(&a);
    assert_eq!(HpSensitivity { attacker: false, defender: false }, calm);
    let key = pair_key(fa, fd, &a, &d, calm);
    // hit points do not matter to a plain move
    let mut hurt = a;
    hurt.hp = 50;
    assert_eq!(fa, participant_fingerprint(&s, &s.side_one, &hurt, true));
    assert_eq!(key, pair_key(fa, fd, &hurt, &d, calm));
    // the attack stage and the stats do
    s.side_one.attack_boost = 1;
    assert_ne!(fa, participant_fingerprint(&s, &s.side_one, &a, true));
    assert!(!hp_sensitive_defender(&d));
    let mut scaled = d;
    scaled.ability = Abilities::MULTISCALE;
    assert!(hp_sensitive_defender(&scaled));
    let mut h: u64 = 1;
    mix(&mut h, 2);
    assert_eq!(3u64.wrapping_mul(0x100000001b3), h);
}

#[test]
fn a_remembered_pair_is_not_worked_out_again() {
    let s = tackle_state();
    let a = s.side_one.pokemon[0];
    let d = s.side_two.pokemon[0];
    let fa = participant_fingerprint(&s, &s.side_one, &a, true);
    let fd = participant_fingerprint(&s, &s.side_two, &d, true);
    let mut cache = PairCache::new();
    let first = ordered_pair_keyed(
        &mut cache, &s, &s.side_one, &a, true, &s.side_two, &d, true, fa, fd, hp_sensitivity(&a), &damage,
    );
    let silent = |_: &State, _: &Side, _: &Pokemon, _: bool, _: &Side, _: &Pokemon, _: bool, _: &Choice| None;
    let second = ordered_pair_keyed(
        &mut cache, &s, &s.side_one, &a, true, &s.side_two, &d, true, fa, fd, hp_sensitivity(&a), &silent,
    );
    assert_eq!(first, second);
    assert!(second.damage > 0);
}

#[test]
fn a_counter_comes_in_and_wins() {
    let mut s = tackle_state();
    let k = kernel(&s);
    // the same Pokemon taking a free hit first does not win
    assert!(!is_counter(&s, &k, true, 0, 0));
    // one that hits hard enough does
    s.side_two.pokemon[0].attack = 1000;
    let k = kernel(&s);
    assert!(is_counter(&s, &k, true, 0, 0));
    // unless hazards take it on entry
    s.side_two.pokemon[0].hp = 10;
    s.side_two.side_conditions.stealth_rock = 1;
    let k = kernel(&s);
    assert!(!is_counter(&s, &k, true, 0, 0));
}

#[test]
fn swapping_sides_swaps_the_tables() {
    let mut s = tackle_state();
    s.side_one.pokemon[0].attack = 250;
    s.side_two.pokemon[1] = s.side_two.pokemon[0];
    s.side_two.pokemon[1].speed = 30;
    s.side_two.attack_boost = -1;
    let k = kernel(&s);
    let mut swapped = s;
    swapped.side_one = s.side_two;
    swapped.side_two = s.side_one;
    let l = kernel(&swapped);
    for i in 0..6 {
        for j in 0..6 {
            assert_eq!(k.one(i, j), l.two(i, j));
            assert_eq!(k.two(i, j), l.one(i, j));
        }
    }
}

#[test]
fn volatile_statuses_are_kept_apart() {
    let mut v = VolatileStatuses(0);
    v.insert(PokemonVolatileStatus::SUBSTITUTE);
    assert!(v.contains(PokemonVolatileStatus::SUBSTITUTE));
    assert!(!v.contains(PokemonVolatileStatus::LEECHSEED));
    let mut s = side();
    s.pokemon[2].hp = 0;
    assert_eq!(1, s.count_fainted());
}

#[test]
fn numbers_that_no_battle_has_are_told() {
    let good = tackle_state();
    assert!(good.is_valid());
    let mut s = good;
    s.side_two.speed_boost = 7;
    assert!(!s.is_valid());
    assert!(is_stage(-6) && is_stage(6) && !is_stage(-7));
    let mut s = good;
    s.side_one.active_index = 6;
    assert!(!s.is_valid());
    let mut s = good;
    s.side_one.pokemon[5].hp = -1;
    assert!(!s.is_valid());
    let mut s = good;
    s.side_one.pokemon[5].effectiveness[19] = 17;
    assert!(!s.is_valid());
    let mut s = good;
    s.side_one.pokemon[3].moves[3].choice.base_power = Ratio { num: 1, den: 0 };
    assert!(!s.is_valid());
    let mut side = side();
    side.side_conditions.spikes = 3;
    assert!(spikes_are_few(&side));
    side.pokemon[4].maxhp = 10923;
    assert!(!spikes_are_few(&side));
    side.pokemon[4].maxhp = 10922;
    assert!(spikes_are_few(&side));
}

#[test]
fn paralysis_slows_by_generation() {
    let mut s = state();
    let mut p = pokemon();
    p.status = PokemonStatus::PARALYZE;
    assert_eq!(50, effective_speed(&s, &s.side_one, &p, false));
    for generation in [Generation::Gen3, Generation::Gen4, Generation::Gen5, Generation::Gen6] {
        s.generation = generation;
        assert_eq!(25, effective_speed(&s, &s.side_one, &p, false));
    }
    s.generation = Generation::Gen7;
    assert_eq!(50, effective_speed(&s, &s.side_one, &p, false));
}
