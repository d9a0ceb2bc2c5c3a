use poke_search::evaluate::config::{
    EvalConfig, EvalPlan, DEFAULT_BENCH_SCALE, DEFAULT_EVAL_WEIGHTS,
};
use poke_search::evaluate::context::{parse_eval_context_model, parse_model_vector};
use poke_search::evaluate::feat;
use poke_search::evaluate::matchups::{walk_matchups, SideMatchups};
use poke_search::evaluate::schema::{eval_feature_schema, EVAL_FEATURE_NAMES, NUM_EVAL_FEATURES};
use poke_search::evaluate::tree::{parse_eval_tree_model, EvalTreeModel, EvalTreeNode};
use poke_search::evaluate::walk::{
    burn_multiplier, eval_walk_base, get_boost_multiplier, poison_feature, EvalEvent,
};
use poke_search::evaluate::weights::parse_eval_weights;
use poke_search::float32::Float32;
use poke_search::matchup::cache::PairCache;
use poke_search::matchup::power::compact_choice;
use poke_search::ratio::Ratio;
use poke_search::state::{
    Abilities, Choice, Choices, Flags, Generation, Items, Move, MoveCategory, MoveTarget,
    MultiHitMove, Pokemon, PokemonStatus, PokemonType, PokemonVolatileStatus, Side, SideConditions,
    State, Terrain, VolatileStatuses, Weather,
};

fn choice(id: Choices, kind: PokemonType, category: MoveCategory, power: u64) -> Choice {
    Choice {
        move_id: id,
        move_index: 0,
        move_type: kind,
        accuracy: 100,
        category,
        base_power: Ratio::whole(power),
        priority: 0,
        flags: Flags { bite: false, contact: false, pulse: false, punch: false, slicing: false, sound: false },
        target: MoveTarget::Opponent,
        multi_hit: MultiHitMove::SingleHit,
        first_move: true,
    }
}

fn no_move() -> Move {
    Move {
        id: Choices::NONE,
        pp: 32,
        disabled: false,
        choice: choice(Choices::NONE, PokemonType::TYPELESS, MoveCategory::Status, 0),
    }
}

fn pokemon() -> Pokemon {
    Pokemon {
        id: 0,
        level: 100,
        types: (PokemonType::NORMAL, PokemonType::TYPELESS),
        hp: 100,
        maxhp: 100,
        ability: Abilities::NONE,
        item: Items::NONE,
        attack: 100,
        defense: 100,
        special_attack: 100,
        special_defense: 100,
        speed: 100,
        status: PokemonStatus::NONE,
        weight_kg: float(1.0),
        terastallized: false,
        tera_type: PokemonType::NORMAL,
        moves: [no_move(); 4],
        grounded: true,
        effectiveness: [4; 20],
    }
}

fn side() -> Side {
    Side {
        active_index: 0,
        pokemon: [pokemon(); 6],
        side_conditions: SideConditions {
            aurora_veil: 0,
            healing_wish: 0,
            light_screen: 0,
            reflect: 0,
            safeguard: 0,
            spikes: 0,
            stealth_rock: 0,
            sticky_web: 0,
            tailwind: 0,
            toxic_spikes: 0,
        },
        volatile_statuses: VolatileStatuses(0),
        attack_boost: 0,
        defense_boost: 0,
        special_attack_boost: 0,
        special_defense_boost: 0,
        speed_boost: 0,
    }
}

fn state() -> State {
    State {
        side_one: side(),
        side_two: side(),
        weather_type: Weather::NONE,
        weather_turns_remaining: 0,
        terrain_type: Terrain::NONE,
        terrain_turns_remaining: 0,
        trick_room_active: false,
        generation: Generation::Gen9,
    }
}

fn boosted(stat: i16, boost: i8) -> f32 {
    let stat = stat as f32;
    if boost < 0 {
        stat * 2.0 / (2.0 - boost as f32)
    } else {
        stat * (2.0 + boost as f32) / 2.0
    }
}

/// The battle damage formula with average rolls.
fn damage(
    _state: &State,
    a_side: &Side,
    a: &Pokemon,
    a_active: bool,
    d_side: &Side,
    d: &Pokemon,
    d_active: bool,
    c: &Choice,
) -> Option<i16> {
    if c.category == MoveCategory::Status || c.category == MoveCategory::Switch || c.base_power.num == 0 {
        return None;
    }
    let power = c.base_power.num as f32 / c.base_power.den as f32;
    let (attack, defense) = if c.category == MoveCategory::Physical {
        (
            boosted(a.attack, if a_active { a_side.attack_boost } else { 0 }),
            boosted(d.defense, if d_active { d_side.defense_boost } else { 0 }),
        )
    } else {
        (
            boosted(a.special_attack, if a_active { a_side.special_attack_boost } else { 0 }),
            boosted(d.special_defense, if d_active { d_side.special_defense_boost } else { 0 }),
        )
    };
    let mut total = (2.0 * a.level as f32 / 5.0).floor() + 2.0;
    total = (total * power).floor() * attack / defense;
    total = (total / 50.0).floor() + 2.0;
    if a.types.0 == c.move_type || a.types.1 == c.move_type {
        total = total * 1.5;
    }
    total = total * d.type_effectiveness(c.move_type) as f32 / 4.0;
    Some((total * 0.925) as i16)
}


/// Positions with varied teams: strong and weak attackers of both kinds,
/// fast and slow, with and without items.
fn bundled_states() -> Vec<State> {
    let mut states = vec![];
    for seed in 0..8u32 {
        let mut s = state();
        let mut x = seed.wrapping_mul(2654435761).wrapping_add(12345);
        for team in 0..2 {
            for i in 0..6 {
                let mut p = pokemon();
                let mut roll = |n: u32| {
                    x = x.wrapping_mul(1664525).wrapping_add(1013904223);
                    (x >> 8) % n
                };
                p.id = (team * 6 + i) as u16;
                p.maxhp = 200 + roll(200) as i16;
                p.hp = p.maxhp - roll(100) as i16;
                p.attack = 60 + roll(250) as i16;
                p.defense = 60 + roll(200) as i16;
                p.special_attack = 60 + roll(250) as i16;
                p.special_defense = 60 + roll(200) as i16;
                p.speed = 50 + roll(300) as i16;
                p.grounded = roll(4) != 0;
                p.item = match roll(5) {
                    0 => Items::NONE,
                    1 => Items::HEAVYDUTYBOOTS,
                    2 => Items::CHOICESCARF,
                    3 => Items::LIFEORB,
                    _ => Items::OTHER(7),
                };
                p.ability = match roll(8) {
                    0 => Abilities::GUTS,
                    1 => Abilities::MAGICGUARD,
                    2 => Abilities::POISONHEAL,
                    3 => Abilities::TOXICBOOST,
                    _ => Abilities::OTHER(3),
                };
                for m in 0..4 {
                    let category = match roll(3) {
                        0 => MoveCategory::Physical,
                        1 => MoveCategory::Special,
                        _ => MoveCategory::Status,
                    };
                    let power = if category == MoveCategory::Status { 0 } else { 40 + 10 * roll(9) as u64 };
                    let kind = if roll(2) == 0 { PokemonType::FIRE } else { PokemonType::NORMAL };
                    let c = choice(Choices::OTHER(1 + roll(50) as u16), kind, category, power);
                    p.moves[m].id = c.move_id;
                    p.moves[m].choice = compact_choice(&c);
                }
                p.effectiveness[PokemonType::FIRE.index()] = [2, 4, 8][roll(3) as usize];
                if team == 0 {
                    s.side_one.pokemon[i] = p;
                } else {
                    s.side_two.pokemon[i] = p;
                }
            }
        }
        states.push(s);
    }
    states
}

/// Mutations that exercise every feature: statuses, low hp, hazards, screens,
/// boosts, volatiles, tera, fainted Pokemon.
fn mutated_variants(base: &State) -> Vec<State> {
    let mut variants = vec![base.clone()];

    let mut s = base.clone();
    s.side_one.side_conditions.stealth_rock = 1;
    s.side_one.side_conditions.spikes = 2;
    s.side_one.side_conditions.toxic_spikes = 1;
    s.side_two.side_conditions.sticky_web = 1;
    s.side_two.side_conditions.stealth_rock = 1;
    s.side_two.side_conditions.reflect = 1;
    s.side_two.side_conditions.light_screen = 1;
    s.side_one.side_conditions.aurora_veil = 1;
    s.side_one.side_conditions.safeguard = 1;
    s.side_one.side_conditions.tailwind = 2;
    s.side_two.side_conditions.healing_wish = 1;
    variants.push(s);

    let mut s = base.clone();
    s.side_one.pokemon[0].status = PokemonStatus::BURN;
    s.side_one.pokemon[0].hp = 1;
    s.side_one.pokemon[1].status = PokemonStatus::TOXIC;
    s.side_one.pokemon[1].hp = 1;
    s.side_one.pokemon[2].status = PokemonStatus::FREEZE;
    s.side_two.pokemon[0].status = PokemonStatus::PARALYZE;
    s.side_two.pokemon[1].status = PokemonStatus::POISON;
    s.side_two.pokemon[2].status = PokemonStatus::SLEEP;
    s.side_two.pokemon[3].hp = 0;
    s.side_one.pokemon[5].hp = 0;
    variants.push(s);

    let mut s = base.clone();
    s.side_one.attack_boost = 2;
    s.side_one.speed_boost = -1;
    s.side_one.special_defense_boost = 1;
    s.side_two.defense_boost = -3;
    s.side_two.special_attack_boost = 6;
    s.side_one.volatile_statuses.insert(PokemonVolatileStatus::LEECHSEED);
    s.side_two.volatile_statuses.insert(PokemonVolatileStatus::SUBSTITUTE);
    s.side_two.volatile_statuses.insert(PokemonVolatileStatus::CONFUSION);
    s.side_one.pokemon[0].terastallized = true;
    s.side_two.pokemon[1].item = Items::NONE;
    variants.push(s);

    variants
}

fn number(x: Float32) -> f32 {
    f32::from_bits(x.bits)
}

fn float(x: f32) -> Float32 {
    Float32 { bits: x.to_bits() }
}

fn default_weights() -> [f32; NUM_EVAL_FEATURES] {
    DEFAULT_EVAL_WEIGHTS.map(f32::from_bits)
}

fn bench_scale() -> f32 {
    f32::from_bits(DEFAULT_BENCH_SCALE)
}

fn read(text: &str) -> Result<Float32, String> {
    text.parse::<f32>().map(float).map_err(|e| e.to_string())
}

/// The six matchup features of side one, and of side two.
fn matchup_features(state: &State, bench_scale: f32) -> [[f32; 6]; 2] {
    let tally = walk_matchups(state, &mut PairCache::new(), &damage);
    let mut one = [0.0f32; 6];
    let mut two = [0.0f32; 6];
    for i in 0..6 {
        credit(&tally.one, i, bench_scale, &mut one, &mut two);
        credit(&tally.two, i, bench_scale, &mut two, &mut one);
    }
    for (m, f) in [(&tally.one, &mut one), (&tally.two, &mut two)] {
        f[4] = m.wins_duel as u8 as f32;
        f[5] = m.pressures as u8 as f32;
    }
    [one, two]
}

fn credit(m: &SideMatchups, i: usize, bench_scale: f32, own: &mut [f32; 6], other: &mut [f32; 6]) {
    if m.alive[i] {
        let scale = if i == m.active { 1.0 } else { bench_scale };
        other[0] += m.revenged[i] as u8 as f32;
        if m.opponents > 0 {
            own[1] += scale * m.wins[i] as f32 / m.opponents as f32;
            own[2] += scale * (m.wins[i] == m.opponents) as u8 as f32;
            own[3] += scale * (m.answered[i] == 0) as u8 as f32;
        }
    }
}

/// The weighted sum of what the walk sees.
fn score(state: &State, weights: &[f32; NUM_EVAL_FEATURES], clamp: bool) -> f32 {
    let mut sign = 1.0f32;
    let mut mon = 0.0f32;
    let mut group: Option<f32> = None;
    let mut total = 0.0f32;
    for event in eval_walk_base(state) {
        match event {
            EvalEvent::Sign { positive } => sign = if positive { 1.0 } else { -1.0 },
            EvalEvent::Hp { hp, maxhp } => mon += weights[feat::HP] * hp as f32 / maxhp as f32,
            EvalEvent::Mon { feature, hundredths } => mon += weights[feature] * (hundredths as f32 / 100.0),
            EvalEvent::FinishMon => {
                let mut subtotal = mon;
                mon = 0.0;
                if clamp && subtotal < 0.0 {
                    subtotal = 0.0;
                }
                subtotal += weights[feat::ALIVE];
                total += sign * subtotal;
            }
            EvalEvent::Global { feature, hundredths } => {
                let contribution = (hundredths as f32 / 100.0) * weights[feature];
                match group.as_mut() {
                    Some(subtotal) => *subtotal += contribution,
                    None => total += sign * contribution,
                }
            }
            EvalEvent::StartGroup => group = Some(0.0),
            EvalEvent::FinishGroup => total += sign * group.take().unwrap(),
        }
    }
    let matchups = matchup_features(state, bench_scale());
    for (sign, features) in [(1.0f32, matchups[0]), (-1.0, matchups[1])] {
        for i in 0..6 {
            total += sign * (features[i] * weights[feat::REVENGE_COVERAGE + i]);
        }
    }
    total
}

fn score_with_clamp(state: &State, clamp: bool) -> f32 {
    score(state, &default_weights(), clamp)
}

/// Each side's features, one by one.
fn eval_pair_features(state: &State) -> [[f32; NUM_EVAL_FEATURES]; 2] {
    let mut side = 0;
    let mut pair = [[0.0f32; NUM_EVAL_FEATURES]; 2];
    for event in eval_walk_base(state) {
        match event {
            EvalEvent::Sign { positive } => side = if positive { 0 } else { 1 },
            EvalEvent::Hp { hp, maxhp } => pair[side][feat::HP] += hp as f32 / maxhp as f32,
            EvalEvent::FinishMon => pair[side][feat::ALIVE] += 1.0,
            EvalEvent::Mon { feature, hundredths } | EvalEvent::Global { feature, hundredths } => {
                pair[side][feature] += hundredths as f32 / 100.0
            }
            EvalEvent::StartGroup | EvalEvent::FinishGroup => {}
        }
    }
    let matchups = matchup_features(state, bench_scale());
    for side in 0..2 {
        for i in 0..6 {
            pair[side][feat::REVENGE_COVERAGE + i] += matchups[side][i];
        }
    }
    pair
}

/// The difference features, side one minus side two.
fn eval_features(state: &State) -> [f32; NUM_EVAL_FEATURES] {
    let mut sign = 1.0f32;
    let mut features = [0.0f32; NUM_EVAL_FEATURES];
    for event in eval_walk_base(state) {
        match event {
            EvalEvent::Sign { positive } => sign = if positive { 1.0 } else { -1.0 },
            EvalEvent::Hp { hp, maxhp } => features[feat::HP] += sign * hp as f32 / maxhp as f32,
            EvalEvent::FinishMon => features[feat::ALIVE] += sign,
            EvalEvent::Mon { feature, hundredths } | EvalEvent::Global { feature, hundredths } => {
                features[feature] += sign * (hundredths as f32 / 100.0)
            }
            EvalEvent::StartGroup | EvalEvent::FinishGroup => {}
        }
    }
    let matchups = matchup_features(state, bench_scale());
    for i in 0..6 {
        features[feat::REVENGE_COVERAGE + i] += matchups[0][i];
        features[feat::REVENGE_COVERAGE + i] -= matchups[1][i];
    }
    features
}

fn dot(weights: &[f32; NUM_EVAL_FEATURES], features: &[f32; NUM_EVAL_FEATURES]) -> f32 {
    weights.iter().zip(features.iter()).map(|(w, f)| w * f).sum()
}

/// The handcrafted evaluator, written out feature by feature.
fn reference_evaluate(state: &State) -> f32 {
    let mut score = 0.0f32;
    score = reference_side(&state.side_one, score, false);
    score = reference_side(&state.side_two, score, true);
    let c = &state.side_one.side_conditions;
    score += c.reflect as f32 * 20.0;
    score += c.light_screen as f32 * 20.0;
    score += c.aurora_veil as f32 * 40.0;
    score += c.safeguard as f32 * 5.0;
    score += c.tailwind as f32 * 7.0;
    score += c.healing_wish as f32 * 30.0;
    let c = &state.side_two.side_conditions;
    score -= c.reflect as f32 * 20.0;
    score -= c.light_screen as f32 * 20.0;
    score -= c.aurora_veil as f32 * 40.0;
    score -= c.safeguard as f32 * 5.0;
    score -= c.tailwind as f32 * 7.0;
    score -= c.healing_wish as f32 * 30.0;
    score
}

fn reference_side(side: &Side, start: f32, minus: bool) -> f32 {
    let mut score = start;
    let mut plus = |x: f32| if minus { score -= x } else { score += x };
    let mut used_tera = false;
    for (i, p) in side.pokemon.iter().enumerate() {
        if p.hp > 0 {
            plus(reference_pokemon(p));
            plus(reference_hazards(p, side));
            if i == side.active_index {
                if side.volatile_statuses.contains(PokemonVolatileStatus::LEECHSEED) {
                    plus(-30.0);
                }
                if side.volatile_statuses.contains(PokemonVolatileStatus::SUBSTITUTE) {
                    plus(40.0);
                }
                if side.volatile_statuses.contains(PokemonVolatileStatus::CONFUSION) {
                    plus(-20.0);
                }
                plus(reference_boost(side.attack_boost) * 30.0);
                plus(reference_boost(side.defense_boost) * 15.0);
                plus(reference_boost(side.special_attack_boost) * 30.0);
                plus(reference_boost(side.special_defense_boost) * 15.0);
                plus(reference_boost(side.speed_boost) * 30.0);
            }
        }
        if p.terastallized {
            used_tera = true;
        }
    }
    if used_tera {
        plus(-75.0);
    }
    score
}

fn reference_boost(boost: i8) -> f32 {
    [-3.3, -3.15, -3.0, -2.5, -2.0, -1.0, 0.0, 1.0, 2.0, 2.5, 3.0, 3.15, 3.3][(boost + 6) as usize]
}

fn reference_poison(p: &Pokemon, base_score: f32) -> f32 {
    match p.ability {
        Abilities::POISONHEAL => 15.0,
        Abilities::GUTS
        | Abilities::MARVELSCALE
        | Abilities::QUICKFEET
        | Abilities::TOXICBOOST
        | Abilities::MAGICGUARD => 10.0,
        _ => base_score,
    }
}

fn reference_burned(p: &Pokemon) -> f32 {
    match p.ability {
        Abilities::GUTS | Abilities::MARVELSCALE | Abilities::QUICKFEET => return -2.0 * -25.0,
        _ => {}
    }
    let mut multiplier = 0.0;
    for mv in p.moves.iter() {
        if mv.choice.category == MoveCategory::Physical {
            multiplier += 1.0;
        }
    }
    if p.special_attack > p.attack {
        multiplier /= 2.0;
    }
    multiplier * -25.0
}

fn reference_hazards(p: &Pokemon, side: &Side) -> f32 {
    let mut score = 0.0;
    if p.item != Items::HEAVYDUTYBOOTS {
        if p.ability != Abilities::MAGICGUARD {
            score += side.side_conditions.stealth_rock as f32 * -10.0;
            if p.grounded {
                score += side.side_conditions.spikes as f32 * -7.0;
                score += side.side_conditions.toxic_spikes as f32 * -7.0;
            }
        }
        if p.grounded {
            score += side.side_conditions.sticky_web as f32 * -25.0;
        }
    }
    score
}

fn reference_pokemon(p: &Pokemon) -> f32 {
    let mut score = 0.0;
    score += 100.0 * p.hp as f32 / p.maxhp as f32;
    match p.status {
        PokemonStatus::BURN => score += reference_burned(p),
        PokemonStatus::FREEZE => score += -40.0,
        PokemonStatus::SLEEP => score += -25.0,
        PokemonStatus::PARALYZE => score += -25.0,
        PokemonStatus::TOXIC => score += reference_poison(p, -30.0),
        PokemonStatus::POISON => score += reference_poison(p, -10.0),
        PokemonStatus::NONE => {}
    }
    if p.item != Items::NONE {
        score += 10.0;
    }
    if score < 0.0 {
        score = 0.0;
    }
    score + 30.0
}

#[test]
fn weighted_walk_matches_reference_eval() {
    let mut historical = [0.0f32; NUM_EVAL_FEATURES];
    historical[..30].copy_from_slice(&[
        30.0, 100.0, 10.0, -40.0, -25.0, -25.0, -30.0, -10.0, -25.0, 15.0, 10.0, 30.0, 15.0, 30.0, 15.0,
        30.0, -30.0, 40.0, -20.0, 20.0, 20.0, 40.0, 5.0, 7.0, 30.0, -10.0, -7.0, -7.0, -25.0, -75.0,
    ]);
    for state in bundled_states().iter() {
        for variant in mutated_variants(state) {
            let expected = reference_evaluate(&variant);
            let actual = score(&variant, &historical, true);
            assert_eq!(expected, actual, "state={:?}", variant);
        }
    }
}

#[test]
fn features_dot_weights_matches_unclamped_score() {
    for state in bundled_states().iter() {
        for variant in mutated_variants(state) {
            let expected = score_with_clamp(&variant, false);
            let actual = dot(&default_weights(), &eval_features(&variant));
            assert!(
                expected == actual || (expected - actual).abs() < 0.05,
                "mismatch: unclamped={} dot={} state={:?}",
                expected,
                actual,
                variant
            );
        }
    }
}

#[test]
fn pair_features_reconstruct_difference_features() {
    for state in bundled_states() {
        let difference = eval_features(&state);
        let pair = eval_pair_features(&state);
        for i in 0..NUM_EVAL_FEATURES {
            let reconstructed = pair[0][i] - pair[1][i];
            assert!(
                (difference[i] - reconstructed).abs() < 1e-5,
                "feature {} differs: {} vs {}",
                EVAL_FEATURE_NAMES[i],
                difference[i],
                reconstructed
            );
        }
    }
}

#[test]
fn clamp_binds_on_negative_mon_subtotal() {
    let mut state = bundled_states().remove(0);
    let mon = &mut state.side_one.pokemon[1];
    mon.hp = 1;
    mon.status = PokemonStatus::TOXIC;
    mon.ability = Abilities::NONE;
    mon.item = Items::NONE;
    assert_ne!(state.side_one.active_index, 1);

    let clamped = score_with_clamp(&state, true);
    let unclamped = score_with_clamp(&state, false);
    assert!(
        clamped > unclamped,
        "clamp should raise the score: clamped={} unclamped={}",
        clamped,
        unclamped
    );
}

fn weights_text() -> String {
    let mut text = String::from("# tuned weights\n\n");
    for (name, weight) in EVAL_FEATURE_NAMES.iter().zip(default_weights().iter()) {
        text.push_str(&format!("{} {}\n", name, weight));
    }
    text
}

#[test]
fn parse_eval_weights_roundtrip() {
    let text = weights_text();
    let parsed = parse_eval_weights(&text, &read).unwrap();
    assert_eq!(parsed.map(number), default_weights());

    assert!(parse_eval_weights("POKEMON_ALIVE 30.0", &read).is_err()); // missing names
    assert!(parse_eval_weights(&format!("{}\nNOT_A_WEIGHT 1.0\n", text), &read).is_err());
    assert!(parse_eval_weights(&format!("{}POKEMON_ALIVE 30.0\n", text), &read).is_err());
    // duplicate
    let alive_line = format!("POKEMON_ALIVE {}", default_weights()[feat::ALIVE]);
    assert!(parse_eval_weights(&text.replace(&alive_line, "POKEMON_ALIVE NaN"), &read).is_err());
    assert!(parse_eval_weights(&text.replace(&alive_line, "POKEMON_ALIVE inf"), &read).is_err());
}

fn tree_text() -> String {
    let mut text = format!(
        "poke-engine-tree-eval-v1\nfeature_schema {}\nk 80\ncorrection_clip 1\n",
        eval_feature_schema()
    );
    for (name, weight) in EVAL_FEATURE_NAMES.iter().zip(default_weights().iter()) {
        text.push_str(&format!("base {} {}\n", name, weight));
    }
    text.push_str("trees 1\ntree 3\nsplit 0 0 1 2\nleaf 0.25\nleaf -0.25\n");
    text
}

fn evaluate_trees(model: &EvalTreeModel, features: &[f32; NUM_EVAL_FEATURES]) -> f32 {
    let base = dot(&model.base_weights.map(number), features);
    let features = features.map(float);
    let sum = |turned: bool| -> f32 {
        model.tree_leaves(&features, turned).iter().fold(0.0, |total, leaf| total + number(*leaf))
    };
    let clip = number(model.correction_clip);
    base + number(model.k) * (0.5 * (sum(false) - sum(true))).clamp(-clip, clip)
}

#[test]
fn parse_tree_model_and_preserve_side_symmetry() {
    let text = tree_text();
    let model = parse_eval_tree_model(&text, &read).unwrap();
    let mut features = [0.0; NUM_EVAL_FEATURES];
    features[feat::ALIVE] = 1.0;
    let one = evaluate_trees(&model, &features);
    for feature in &mut features {
        *feature = -*feature;
    }
    let two = evaluate_trees(&model, &features);
    assert_eq!(one, -two);
    assert!(parse_eval_tree_model(&text.replace(&eval_feature_schema(), "wrong"), &read).is_err());
}

#[test]
fn matchup_features_are_side_swap_symmetric() {
    for state in bundled_states() {
        let original = eval_features(&state);
        let mut swapped = state.clone();
        std::mem::swap(&mut swapped.side_one, &mut swapped.side_two);
        let mirrored = eval_features(&swapped);
        for i in feat::REVENGE_COVERAGE..NUM_EVAL_FEATURES {
            assert!(
                (original[i] + mirrored[i]).abs() < 1e-5,
                "feature {} is not symmetric: {} vs {}",
                EVAL_FEATURE_NAMES[i],
                original[i],
                mirrored[i]
            );
        }
    }
}

#[test]
fn matchup_features_are_linear_in_the_bench_scale() {
    for state in bundled_states() {
        let active = matchup_features(&state, 0.0);
        let whole = matchup_features(&state, 1.0);
        let part = matchup_features(&state, 0.25);
        for side in 0..2 {
            for f in 0..6 {
                let line = active[side][f] + 0.25 * (whole[side][f] - active[side][f]);
                assert!((part[side][f] - line).abs() < 1e-4);
            }
        }
    }
}

#[test]
fn default_config_uses_unclamped_tuned_weights() {
    let mut state = bundled_states().remove(0);
    let mon = &mut state.side_one.pokemon[1];
    mon.hp = 1;
    mon.status = PokemonStatus::TOXIC;
    mon.ability = Abilities::NONE;
    mon.item = Items::NONE;

    let config = EvalConfig::default();
    assert_eq!(EvalPlan::Linear { matchups: true }, config.plan());
    assert_eq!(bench_scale(), number(config.bench_scale));
    let evaluated = score(&state, &config.weights.map(number), config.mon_clamp);
    assert_eq!(evaluated, score_with_clamp(&state, false));
}

#[test]
fn the_default_weights_are_the_tuned_ones() {
    let tuned: [f32; 36] = [
        62.7669384, 41.0806585, 0.0, -90.2561015, -0.408866373, -25.6112665, -75.4539139, -24.6924447,
        0.0, 52.9131556, 0.0, 1.34682091, 4.54921779, 0.0, 24.9293773, 23.6278393, -32.9769423,
        104.108085, -10.196138, 0.0, 0.0, 0.0, 0.0, 0.0, 60.0, -2.97986335, -17.3453197, -30.0, 0.0,
        -48.5478855, 3.1326059, 40.5900329, 14.4660979, 20.1621173, 4.86702255, 3.7430539,
    ];
    assert_eq!(tuned, default_weights());
    assert_eq!(0.5, bench_scale());
}

#[test]
fn the_schema_hashes_the_names() {
    let mut hash = 0xcbf29ce484222325u64;
    for name in EVAL_FEATURE_NAMES {
        for byte in name.bytes() {
            hash ^= byte as u64;
            hash = hash.wrapping_mul(0x100000001b3);
        }
        hash ^= 0xff;
        hash = hash.wrapping_mul(0x100000001b3);
    }
    assert_eq!(format!("fnv1a64:{hash:016x}"), eval_feature_schema());
}

#[test]
fn stages_burns_and_poisons_are_weighed() {
    let stages = [-330, -315, -300, -250, -200, -100, 0, 100, 200, 250, 300, 315, 330];
    for (i, expected) in stages.iter().enumerate() {
        assert_eq!(*expected, get_boost_multiplier(i as i8 - 6));
    }
    let mut p = pokemon();
    p.moves[0].choice.category = MoveCategory::Physical;
    p.moves[2].choice.category = MoveCategory::Physical;
    p.moves[3].choice.category = MoveCategory::Physical;
    assert_eq!(300, burn_multiplier(&p));
    p.special_attack = 101;
    assert_eq!(150, burn_multiplier(&p));
    p.ability = Abilities::QUICKFEET;
    assert_eq!(-200, burn_multiplier(&p));
    assert_eq!(feat::STATUS_ABILITY_BONUS, poison_feature(&p, feat::TOXIC));
    p.ability = Abilities::POISONHEAL;
    assert_eq!(feat::POISON_HEAL, poison_feature(&p, feat::TOXIC));
    p.ability = Abilities::NONE;
    assert_eq!(feat::POISONED, poison_feature(&p, feat::POISONED));
}

#[test]
fn a_base_evaluation_turns_with_the_sides() {
    for state in bundled_states().iter() {
        for variant in mutated_variants(state) {
            let mut swapped = variant;
            std::mem::swap(&mut swapped.side_one, &mut swapped.side_two);
            let a = eval_features(&variant);
            let b = eval_features(&swapped);
            for i in 0..NUM_EVAL_FEATURES {
                assert!((a[i] + b[i]).abs() < 1e-4);
            }
        }
    }
}

fn weights_error(text: &str) -> String {
    parse_eval_weights(text, &read).unwrap_err()
}

#[test]
fn each_fault_of_a_weights_file_is_named() {
    let text = weights_text();
    assert_eq!("line 1: missing value for REFLECT", weights_error("REFLECT # 20"));
    assert_eq!("line 2: trailing tokens", weights_error("\r\nREFLECT 1 2"));
    assert_eq!("line 1: unknown weight name Reflect", weights_error("  Reflect\t1  "));
    assert_eq!("line 2: duplicate weight REFLECT", weights_error("REFLECT 1\nREFLECT 1"));
    assert_eq!(
        "line 1: bad value for REFLECT: invalid float literal",
        weights_error("REFLECT one")
    );
    assert_eq!("line 1: non-finite value for REFLECT", weights_error("REFLECT -inf"));
    assert_eq!("missing weight POKEMON_ALIVE", weights_error("#REFLECT 1"));
    assert_eq!(
        "missing weight PIVOT_PRESSURE",
        weights_error(&text.replace("PIVOT_PRESSURE", "#PIVOT_PRESSURE"))
    );
}

#[test]
fn finite_values_are_read_from_weights() {
    let text = weights_text().replace("REFLECT 0\n", "\u{a0}REFLECT\u{3000}-1e-3 # screens\n");
    let parsed = parse_eval_weights(&text, &read).unwrap();
    assert_eq!(-0.001f32, number(parsed[feat::REFLECT]));
}

#[test]
fn weights_are_read_in_any_order() {
    let text = weights_text();
    let mut lines: Vec<&str> = text.lines().collect();
    lines.reverse();
    lines.insert(7, "   # between  ");
    lines.insert(12, "\t");
    let parsed = parse_eval_weights(&lines.join("\n"), &read).unwrap();
    assert_eq!(parsed.map(number), default_weights());
}

fn tree_error(text: &str) -> String {
    parse_eval_tree_model(text, &read).unwrap_err()
}

fn changed(from: &str, to: &str) -> String {
    let text = tree_text();
    assert!(text.contains(from));
    tree_error(&text.replace(from, to))
}

#[test]
fn idle_lines_of_a_tree_model_do_not_count() {
    let text = tree_text();
    let model = parse_eval_tree_model(&text, &read).unwrap();
    let mut busy = String::from("# a model\n\n");
    for line in text.lines() {
        busy.push_str(&format!("  \t{}  \n   \n  # {}\n", line, line));
    }
    let same = parse_eval_tree_model(&busy, &read).unwrap();
    assert_eq!(model.trees, same.trees);
    assert_eq!(model.base_weights.map(number), same.base_weights.map(number));
    assert_eq!((number(model.k), number(model.correction_clip)), (number(same.k), number(same.correction_clip)));
}

#[test]
fn a_tree_model_has_neither_a_line_more_nor_a_line_less() {
    let text = tree_text();
    assert!(parse_eval_tree_model(&text, &read).is_ok());
    let lines: Vec<&str> = text.lines().collect();
    for dropped in 0..lines.len() {
        let mut rest = lines.clone();
        rest.remove(dropped);
        assert!(parse_eval_tree_model(&rest.join("\n"), &read).is_err());
    }
    assert_eq!("trailing tree model content", tree_error(&format!("{}leaf 0.5\n", text)));
}

#[test]
fn a_tree_model_holds_what_is_written() {
    let text = tree_text().replace("trees 1\n", "# a comment\n\n  trees +1  \n");
    let model = parse_eval_tree_model(&text, &read).unwrap();
    assert_eq!(80.0, number(model.k));
    assert_eq!(1.0, number(model.correction_clip));
    assert_eq!(default_weights(), model.base_weights.map(number));
    assert_eq!(
        vec![vec![
            EvalTreeNode::Split { feature: 0, threshold: float(0.0), yes: 1, no: 2 },
            EvalTreeNode::Leaf(float(0.25)),
            EvalTreeNode::Leaf(float(-0.25)),
        ]],
        model.trees
    );
    let mut features = [0.0f32; NUM_EVAL_FEATURES];
    assert_eq!(vec![float(-0.25)], model.tree_leaves(&features.map(float), false));
    features[0] = 2.0;
    assert_eq!(vec![float(-0.25)], model.tree_leaves(&features.map(float), false));
    assert_eq!(vec![float(0.25)], model.tree_leaves(&features.map(float), true));
    assert_eq!(2.0 * default_weights()[0] + 80.0 * -0.25, evaluate_trees(&model, &features));
    features[0] = f32::NAN;
    assert_eq!(vec![float(-0.25)], model.tree_leaves(&features.map(float), true));
}

#[test]
fn a_tree_correction_is_clipped() {
    let text = tree_text().replace("leaf 0.25", "leaf 5").replace("leaf -0.25", "leaf -5");
    let model = parse_eval_tree_model(&text, &read).unwrap();
    let mut features = [0.0f32; NUM_EVAL_FEATURES];
    features[0] = 2.0;
    let base = 2.0 * default_weights()[0];
    assert_eq!(base - 80.0, evaluate_trees(&model, &features));
    features[0] = -2.0;
    assert_eq!(-base + 80.0, evaluate_trees(&model, &features));
}

#[test]
fn each_fault_of_a_tree_model_is_named() {
    let schema = eval_feature_schema();
    assert_eq!("unexpected end of tree model", tree_error(""));
    assert_eq!("unsupported tree model format", tree_error("tree"));
    assert_eq!("missing feature_schema", changed("feature_schema ", "schema "));
    assert_eq!(
        format!("tree model feature schema wrong, expected {}", schema),
        changed(&schema, "wrong")
    );
    assert_eq!("missing k", changed("k 80", "kk 80"));
    assert_eq!("bad k value x: invalid float literal", changed("k 80", "k x"));
    assert_eq!("k must be finite", changed("k 80", "k nan"));
    assert_eq!("k must be positive", changed("k 80", "k -0"));
    assert_eq!("missing correction_clip", changed("correction_clip 1", "clip 1"));
    assert_eq!("correction_clip must be positive", changed("correction_clip 1", "correction_clip -1"));
    assert_eq!("expected base weight", changed("base REFLECT 0", "REFLECT 0"));
    assert_eq!("missing base weight name", changed("base REFLECT 0", "base"));
    assert_eq!("missing base weight value", changed("base REFLECT 0", "base REFLECT"));
    assert_eq!("trailing base weight tokens", changed("base REFLECT 0", "base REFLECT 0 0"));
    assert_eq!("unknown base weight MIRROR", changed("base REFLECT", "base MIRROR"));
    assert_eq!("duplicate base weight LIGHT_SCREEN", changed("base AURORA_VEIL", "base LIGHT_SCREEN"));
    assert_eq!("REFLECT must be finite", changed("base REFLECT 0", "base REFLECT inf"));
    assert_eq!("missing trees count", changed("trees 1", "tree 1"));
    assert_eq!("bad trees count: invalid digit found in string", changed("trees 1", "trees -1"));
    assert_eq!("missing tree 0 header", changed("tree 3", "leaf 3"));
    assert_eq!("bad tree 0 node count: invalid digit found in string", changed("tree 3", "tree 3a"));
    assert_eq!(
        "bad tree 0 node count: number too large to fit in target type",
        changed("tree 3", "tree 18446744073709551616")
    );
    assert_eq!("tree 0 has invalid node count 0", changed("tree 3", "tree 0"));
    assert_eq!("tree 0 has invalid node count 65536", changed("tree 3", "tree 65536"));
    assert_eq!("missing leaf value", changed("leaf 0.25", "leaf"));
    assert_eq!("trailing leaf tokens", changed("leaf 0.25", "leaf 0.25 1"));
    assert_eq!("leaf must be finite", changed("leaf 0.25", "leaf inf"));
    assert_eq!("missing split feature", changed("split 0 0 1 2", "split"));
    assert_eq!(
        "bad split feature: invalid digit found in string",
        changed("split 0 0 1 2", "split x 0 1 2")
    );
    assert_eq!("missing split threshold", changed("split 0 0 1 2", "split 0"));
    assert_eq!("split threshold must be finite", changed("split 0 0 1 2", "split 0 inf 1 2"));
    assert_eq!("missing yes child", changed("split 0 0 1 2", "split 0 0"));
    assert_eq!(
        "bad yes child: invalid digit found in string",
        changed("split 0 0 1 2", "split 0 0 - 2")
    );
    assert_eq!("missing no child", changed("split 0 0 1 2", "split 0 0 1"));
    assert_eq!(
        "bad no child: invalid digit found in string",
        changed("split 0 0 1 2", "split 0 0 1 2.0")
    );
    assert_eq!("trailing split tokens", changed("split 0 0 1 2", "split 0 0 1 2 3"));
    assert_eq!("split feature 36 out of range", changed("split 0 0 1 2", "split 36 0 1 2"));
    assert_eq!("tree 0 node 0 has invalid children", changed("split 0 0 1 2", "split 0 0 0 2"));
    assert_eq!("tree 0 node 0 has invalid children", changed("split 0 0 1 2", "split 0 0 1 3"));
    assert_eq!("unknown tree node token Some(\"le\\\"af\")", changed("leaf 0.25", "le\"af 1"));
    assert_eq!("unexpected end of tree model", changed("leaf -0.25\n", ""));
    assert_eq!("trailing tree model content", changed("leaf -0.25\n", "leaf -0.25\nleaf 1\n"));
}

fn row(label: &str, value: &str, count: usize) -> String {
    let mut line = label.to_string();
    for _ in 0..count {
        line.push(' ');
        line.push_str(value);
    }
    line.push('\n');
    line
}

fn context_text() -> String {
    let mut text = format!(
        "poke-engine-context-mlp-v1\nfeature_schema {}\nk 80\ncorrection_clip 2\n",
        eval_feature_schema()
    );
    for (name, weight) in EVAL_FEATURE_NAMES.iter().zip(default_weights().iter()) {
        text.push_str(&format!("base {} {}\n", name, weight));
    }
    text.push_str(&row("diff_scale", "4", 36));
    text.push_str(&row("total_mean", "-3", 36));
    text.push_str(&row("total_scale", "5", 36));
    text.push_str("hidden 2\n");
    text.push_str(&row("difference", "6", 36));
    text.push_str(&row("difference", "7", 36));
    text.push_str(&row("context", "8", 37));
    text.push_str(&row("context", "9", 37));
    text.push_str("output 0.5 -0.5\n");
    text
}

fn context_fault(from: &str, to: &str) -> String {
    let text = context_text();
    assert!(text.contains(from));
    parse_eval_context_model(&text.replace(from, to), &read).unwrap_err()
}

#[test]
fn a_context_model_holds_what_is_written() {
    let model = parse_eval_context_model(&context_text(), &read).unwrap();
    assert_eq!(80.0, number(model.k));
    assert_eq!(2.0, number(model.correction_clip));
    assert_eq!(vec![float(4.0); 36], model.diff_scale);
    assert_eq!(vec![float(-3.0); 36], model.total_mean);
    assert_eq!(vec![float(5.0); 36], model.total_scale);
    assert_eq!(2, model.difference_weights.len());
    assert!(model.difference_weights[1].iter().all(|x| number(*x) == 7.0));
    assert_eq!(2, model.context_weights.len());
    assert!(model.context_weights[0].iter().all(|x| number(*x) == 8.0));
    assert_eq!(36, model.context_weights[0].len());
    assert_eq!(vec![float(8.0), float(9.0)], model.context_bias);
    assert_eq!(vec![float(0.5), float(-0.5)], model.output_weights);
    assert_eq!(EvalPlan::Context, EvalConfig::from_context_model(model).plan());
}

#[test]
fn each_fault_of_a_context_model_is_named() {
    let schema = eval_feature_schema();
    assert_eq!(
        "unexpected end of context model",
        parse_eval_context_model("# nothing", &read).unwrap_err()
    );
    assert_eq!("unsupported context model format", context_fault("mlp-v1", "mlp-v2"));
    assert_eq!("missing feature_schema", context_fault("feature_schema ", "schema "));
    assert_eq!(
        format!("context model feature schema {}0, expected {}", schema, schema),
        context_fault(&schema, &format!("{}0", schema))
    );
    assert_eq!("missing k", context_fault("k 80", "k80"));
    assert_eq!("missing correction_clip", context_fault("correction_clip 2", "clip 2"));
    assert_eq!("k and correction_clip must be positive", context_fault("k 80", "k 0"));
    assert_eq!(
        "k and correction_clip must be positive",
        context_fault("correction_clip 2", "correction_clip -2")
    );
    assert_eq!("expected base weight", context_fault("base REFLECT 0", "REFLECT 0"));
    assert_eq!("expected total_mean", context_fault("total_mean", "mean"));
    assert_eq!("total_mean must be finite", context_fault("total_mean -3", "total_mean inf"));
    assert_eq!("diff_scale has 35 values, expected 36", context_fault("diff_scale 4", "diff_scale"));
    assert_eq!("model scales must be positive", context_fault("diff_scale 4", "diff_scale 0"));
    assert_eq!("model scales must be positive", context_fault("total_scale 5", "total_scale -5"));
    assert_eq!("missing hidden size", context_fault("hidden 2", "hide 2"));
    assert_eq!(
        "bad hidden size: invalid digit found in string",
        context_fault("hidden 2", "hidden  2")
    );
    assert_eq!("hidden size 0 is out of range", context_fault("hidden 2", "hidden 0"));
    assert_eq!("hidden size 65 is out of range", context_fault("hidden 2", "hidden 65"));
    assert_eq!("expected difference", context_fault("hidden 2", "hidden 3"));
    assert_eq!("expected context", context_fault("hidden 2", "hidden 1"));
    assert_eq!("context has 38 values, expected 37", context_fault("context 8", "context 8 8"));
    assert_eq!("output has 3 values, expected 2", context_fault("output 0.5", "output 0.5 1"));
    assert_eq!("trailing context model content", context_fault("output 0.5 -0.5", "output 0.5 -0.5\nx"));
}

#[test]
fn a_model_vector_needs_its_label_and_length() {
    let line = |text: &str| text.chars().collect::<Vec<char>>();
    assert_eq!(
        vec![float(1.0), float(2.5)],
        parse_model_vector(&line("output 1 2.5"), "output", 2, &read).unwrap()
    );
    assert_eq!(
        "bad output value x: invalid float literal",
        parse_model_vector(&line("output x"), "output", 2, &read).unwrap_err()
    );
    assert_eq!("expected output", parse_model_vector(&line(""), "output", 0, &read).unwrap_err());
}

#[test]
fn the_plan_follows_the_models_and_weights() {
    let mut weights = DEFAULT_EVAL_WEIGHTS.map(|bits| Float32 { bits });
    for i in feat::REVENGE_COVERAGE..NUM_EVAL_FEATURES {
        weights[i] = float(if i % 2 == 0 { 0.0 } else { -0.0 });
    }
    assert_eq!(EvalPlan::Linear { matchups: false }, EvalConfig::new(weights, true).plan());
    weights[feat::WINCON] = float(1e-40);
    assert_eq!(EvalPlan::Linear { matchups: true }, EvalConfig::new(weights, true).plan());
    let model = parse_eval_tree_model(&tree_text(), &read).unwrap();
    assert_eq!(EvalPlan::Trees, EvalConfig::from_tree_model(model).plan());
}

#[test]
fn configs_are_compared_by_their_numbers() {
    let a = EvalConfig::default();
    assert!(a.same_as(&EvalConfig::default()));
    assert!(!a.same_as(&EvalConfig::default().with_bench_scale(float(1.0))));
    let mut b = EvalConfig::default();
    b.weights[feat::REFLECT] = float(-0.0);
    assert!(a.same_as(&b));
    b.weights[feat::REFLECT] = float(f32::NAN);
    let c = b.clone();
    assert!(!b.same_as(&c));
    let mut d = EvalConfig::default();
    d.mon_clamp = true;
    assert!(!a.same_as(&d));
    let model = parse_eval_tree_model(&tree_text(), &read).unwrap();
    let mut other = model.clone();
    other.trees[0][1] = EvalTreeNode::Leaf(float(0.5));
    let t = EvalConfig::from_tree_model(model.clone());
    assert!(t.same_as(&EvalConfig::from_tree_model(model)));
    assert!(!t.same_as(&EvalConfig::from_tree_model(other)));
    assert!(!t.same_as(&a));
}

#[test]
fn bit_patterns_are_ordered_as_numbers() {
    let values = [
        f32::NEG_INFINITY,
        f32::MIN,
        -1.0,
        -f32::MIN_POSITIVE,
        -1e-45,
        -0.0,
        0.0,
        1e-45,
        f32::MIN_POSITIVE,
        0.99999994,
        1.0,
        f32::MAX,
        f32::INFINITY,
        f32::NAN,
        -f32::NAN,
    ];
    for a in values {
        let x = float(a);
        assert_eq!(a.is_finite(), x.is_finite());
        assert_eq!(a.is_nan(), x.is_nan());
        assert_eq!(a == 0.0, x.is_zero());
        assert_eq!(a > 0.0, x.is_positive());
        assert_eq!((-a).to_bits(), x.negated().bits);
        for b in values {
            assert_eq!(a < b, x.is_below(&float(b)));
            assert_eq!(a == b, x.is_equal(&float(b)));
        }
    }
}
