//! What makes a Pokemon faster or slower in a matchup, and what brings its
//! move forward.

use crate::matchup::pair::{
    exact_speed, fast_in_weather, matchup_speed, paralysis_factor, priority_in_matchup, product_if,
    staged_speed,
};
use crate::matchup::power_laws::times_as;
use crate::ratio::product;
use crate::state::{
    Abilities, Choice, Choices, Generation, Items, Pokemon, PokemonStatus, PokemonType,
    PokemonVolatileStatus, Side, State, Terrain, Weather,
};
use vstd::prelude::*;

verus! {

/// A factor, and whether it applies.
pub struct Influence {
    pub applies: bool,
    pub factor: (nat, nat),
}

/// The first `n` influences on a number, one after the other.
spec fn under(base: (nat, nat), list: Seq<Influence>, n: int) -> (nat, nat)
    decreases n,
{
    if n <= 0 {
        base
    } else {
        product_if(under(base, list, n - 1), list[n - 1].applies, list[n - 1].factor)
    }
}

spec fn base_speed(side: Side, p: Pokemon, active: bool) -> (nat, nat) {
    (
        (if active {
            staged_speed(p.speed as int, side.speed_boost as int)
        } else {
            p.speed as int
        }) as nat,
        1,
    )
}

spec fn influences(state: State, side: Side, p: Pokemon, active: bool) -> Seq<Influence> {
    let has = |status: PokemonVolatileStatus| active && side.volatile_statuses.has(status);
    seq![
        Influence {
            applies: fast_in_weather(state.weather_type, p.ability),
            factor: (2, 1),
        },
        Influence {
            applies: p.ability == Abilities::SURGESURFER && state.terrain_type
                == Terrain::ELECTRICTERRAIN,
            factor: (2, 1),
        },
        Influence {
            applies: p.ability == Abilities::QUICKFEET && p.status != PokemonStatus::NONE,
            factor: (3, 2),
        },
        Influence { applies: has(PokemonVolatileStatus::UNBURDEN), factor: (2, 1) },
        Influence { applies: has(PokemonVolatileStatus::SLOWSTART), factor: (1, 2) },
        Influence {
            applies: has(PokemonVolatileStatus::PROTOSYNTHESISSPE) || has(
                PokemonVolatileStatus::QUARKDRIVESPE,
            ),
            factor: (3, 2),
        },
        Influence { applies: side.side_conditions.tailwind > 0, factor: (2, 1) },
        Influence { applies: p.item == Items::IRONBALL, factor: (1, 2) },
        Influence { applies: p.item == Items::CHOICESCARF, factor: (3, 2) },
        Influence {
            applies: p.status == PokemonStatus::PARALYZE && p.ability != Abilities::QUICKFEET,
            factor: paralysis_factor(state.generation),
        },
    ]
}

proof fn lemma_speed_is_under_influences(state: State, side: Side, p: Pokemon, active: bool)
    ensures
        exact_speed(state, side, p, active) == under(
            base_speed(side, p, active),
            influences(state, side, p, active),
            10,
        ),
{
    let list = influences(state, side, p, active);
    let base = base_speed(side, p, active);
    assert(under(base, list, 0) == base);
    assert(under(base, list, 1) == product_if(base, list[0].applies, list[0].factor));
    let s2 = under(base, list, 2);
    assert(s2 == product_if(under(base, list, 1), list[1].applies, list[1].factor));
    let s3 = under(base, list, 3);
    assert(s3 == product_if(s2, list[2].applies, list[2].factor));
    let s4 = under(base, list, 4);
    assert(s4 == product_if(s3, list[3].applies, list[3].factor));
    let s5 = under(base, list, 5);
    assert(s5 == product_if(s4, list[4].applies, list[4].factor));
    let s6 = under(base, list, 6);
    assert(s6 == product_if(s5, list[5].applies, list[5].factor));
    let s7 = under(base, list, 7);
    assert(s7 == product_if(s6, list[6].applies, list[6].factor));
    let s8 = under(base, list, 8);
    assert(s8 == product_if(s7, list[7].applies, list[7].factor));
    let s9 = under(base, list, 9);
    assert(s9 == product_if(s8, list[8].applies, list[8].factor));
    assert(under(base, list, 10) == product_if(s9, list[9].applies, list[9].factor));
}

proof fn lemma_one_influence(
    base: (nat, nat),
    with: Seq<Influence>,
    without: Seq<Influence>,
    k: int,
    n: int,
)
    requires
        0 <= k < 10,
        k < n <= 10,
        with.len() == 10,
        without.len() == 10,
        with[k].applies,
        !without[k].applies,
        forall|i: int| 0 <= i < 10 && i != k ==> #[trigger] with[i] == without[i],
    ensures
        times_as(
            under(base, with, n),
            under(base, without, n),
            with[k].factor.0,
            with[k].factor.1,
        ),
    decreases n,
{
    reveal(product_if);
    let f = with[k].factor;
    if n == k + 1 {
        lemma_same_influences(base, with, without, k);
        let x = under(base, with, k);
        assert(under(base, with, n) == product(x, f));
        assert(under(base, without, n) == x);
        assert((x.0 * f.0) * x.1 * f.1 == x.0 * (x.1 * f.1) * f.0) by (nonlinear_arith);
    } else {
        lemma_one_influence(base, with, without, k, n - 1);
        assert(with[n - 1] == without[n - 1]);
        let a = under(base, with, n - 1);
        let b = under(base, without, n - 1);
        let g = with[n - 1].factor;
        if with[n - 1].applies {
            assert((a.0 * g.0) * (b.1 * g.1) * f.1 == (a.0 * b.1 * f.1) * (g.0 * g.1))
                by (nonlinear_arith);
            assert((b.0 * g.0) * (a.1 * g.1) * f.0 == (b.0 * a.1 * f.0) * (g.0 * g.1))
                by (nonlinear_arith);
        }
    }
}

proof fn lemma_same_influences(
    base: (nat, nat),
    a: Seq<Influence>,
    b: Seq<Influence>,
    n: int,
)
    requires
        0 <= n <= 10,
        forall|i: int| 0 <= i < n ==> #[trigger] a[i] == b[i],
    ensures
        under(base, a, n) == under(base, b, n),
    decreases n,
{
    if n > 0 {
        lemma_same_influences(base, a, b, n - 1);
        assert(a[n - 1] == b[n - 1]);
    }
}

proof fn lemma_influence_tells(
    with: (State, Side, Pokemon),
    without: (State, Side, Pokemon),
    active: bool,
    k: int,
)
    requires
        0 <= k < 10,
        base_speed(with.1, with.2, active) == base_speed(without.1, without.2, active),
        influences(with.0, with.1, with.2, active)[k].applies,
        !influences(without.0, without.1, without.2, active)[k].applies,
        forall|i: int|
            0 <= i < 10 && i != k ==> #[trigger] influences(with.0, with.1, with.2, active)[i]
                == influences(without.0, without.1, without.2, active)[i],
    ensures
        ({
            let f = influences(with.0, with.1, with.2, active)[k].factor;
            times_as(
                exact_speed(with.0, with.1, with.2, active),
                exact_speed(without.0, without.1, without.2, active),
                f.0,
                f.1,
            )
        }),
{
    lemma_speed_is_under_influences(with.0, with.1, with.2, active);
    lemma_speed_is_under_influences(without.0, without.1, without.2, active);
    lemma_one_influence(
        base_speed(with.1, with.2, active),
        influences(with.0, with.1, with.2, active),
        influences(without.0, without.1, without.2, active),
        k,
        10,
    );
}

/// What an item does to the speed: a scarf makes it half as much again, an
/// iron ball half.
pub proof fn lemma_items_and_speed(state: State, side: Side, p: Pokemon, active: bool)
    ensures
        ({
            let bare = exact_speed(state, side, Pokemon { item: Items::NONE, ..p }, active);
            let scarf = exact_speed(state, side, Pokemon { item: Items::CHOICESCARF, ..p }, active);
            let ball = exact_speed(state, side, Pokemon { item: Items::IRONBALL, ..p }, active);
            times_as(scarf, bare, 3, 2) && times_as(ball, bare, 1, 2)
        }),
{
    let bare = Pokemon { item: Items::NONE, ..p };
    let scarf = Pokemon { item: Items::CHOICESCARF, ..p };
    let ball = Pokemon { item: Items::IRONBALL, ..p };
    lemma_influence_tells((state, side, scarf), (state, side, bare), active, 8);
    lemma_influence_tells((state, side, ball), (state, side, bare), active, 7);
}

/// A tailwind doubles the speed of its side.
pub proof fn lemma_tailwind_doubles(state: State, side: Side, calm: Side, p: Pokemon, active: bool)
    requires
        side.side_conditions.tailwind > 0,
        calm.side_conditions.tailwind <= 0,
        side.speed_boost == calm.speed_boost,
        side.volatile_statuses == calm.volatile_statuses,
    ensures
        times_as(exact_speed(state, side, p, active), exact_speed(state, calm, p, active), 2, 1),
{
    lemma_influence_tells((state, side, p), (state, calm, p), active, 6);
}

/// Paralysis leaves half the speed, and a quarter in the generations from the
/// third to the sixth; quick feet run faster with any ailment, and are not
/// slowed by paralysis.
pub proof fn lemma_ailments_and_speed(state: State, side: Side, p: Pokemon, active: bool)
    ensures
        ({
            let well = exact_speed(
                state,
                side,
                Pokemon { status: PokemonStatus::NONE, ..p },
                active,
            );
            let stiff = exact_speed(
                state,
                side,
                Pokemon { status: PokemonStatus::PARALYZE, ..p },
                active,
            );
            let quarter = state.generation == Generation::Gen3 || state.generation
                == Generation::Gen4 || state.generation == Generation::Gen5 || state.generation
                == Generation::Gen6;
            if p.ability == Abilities::QUICKFEET {
                times_as(stiff, well, 3, 2)
            } else {
                times_as(
                    stiff,
                    well,
                    1,
                    if quarter {
                        4
                    } else {
                        2
                    },
                )
            }
        }),
{
    let well = Pokemon { status: PokemonStatus::NONE, ..p };
    let stiff = Pokemon { status: PokemonStatus::PARALYZE, ..p };
    let k: int = if p.ability == Abilities::QUICKFEET {
        2
    } else {
        9
    };
    let a = influences(state, side, stiff, active);
    let b = influences(state, side, well, active);
    assert(a[2].factor == (3nat, 2nat));
    assert(a[9].factor == paralysis_factor(state.generation));
    assert(a[k].applies && !b[k].applies);
    assert(base_speed(side, stiff, active) == base_speed(side, well, active));
    lemma_influence_tells((state, side, stiff), (state, side, well), active, k);
}

/// Abilities that run with the weather double the speed in their weather, and
/// surf surge on electric terrain.
pub proof fn lemma_weather_and_speed(state: State, side: Side, p: Pokemon, active: bool)
    ensures
        ({
            let slow = exact_speed(state, side, Pokemon { ability: Abilities::NONE, ..p }, active);
            let own = exact_speed(state, side, p, active);
            let w = state.weather_type;
            let fast = (p.ability == Abilities::CHLOROPHYLL && (w == Weather::SUN || w
                == Weather::HARSHSUN)) || (p.ability == Abilities::SWIFTSWIM && (w == Weather::RAIN
                || w == Weather::HEAVYRAIN)) || (p.ability == Abilities::SANDRUSH && w
                == Weather::SAND) || (p.ability == Abilities::SLUSHRUSH && (w == Weather::HAIL || w
                == Weather::SNOW));
            let surging = p.ability == Abilities::SURGESURFER && state.terrain_type
                == Terrain::ELECTRICTERRAIN;
            &&& fast || surging ==> times_as(own, slow, 2, 1)
            &&& !fast && !surging && p.ability != Abilities::QUICKFEET ==> own == slow
        }),
{
    let slow = Pokemon { ability: Abilities::NONE, ..p };
    if fast_in_weather(state.weather_type, p.ability) {
        lemma_influence_tells((state, side, p), (state, side, slow), active, 0);
    } else if p.ability == Abilities::SURGESURFER && state.terrain_type
        == Terrain::ELECTRICTERRAIN {
        lemma_influence_tells((state, side, p), (state, side, slow), active, 1);
    } else if p.ability != Abilities::QUICKFEET {
        lemma_speed_is_under_influences(state, side, p, active);
        lemma_speed_is_under_influences(state, side, slow, active);
        lemma_same_influences(
            base_speed(side, p, active),
            influences(state, side, p, active),
            influences(state, side, slow, active),
            10,
        );
    }
}

/// What sticks to the active Pokemon alone: conditions and stages do nothing
/// to the speed of one on the bench.
pub proof fn lemma_the_bench_keeps_its_speed(state: State, side: Side, other: Side, p: Pokemon)
    requires
        side.side_conditions.tailwind > 0 <==> other.side_conditions.tailwind > 0,
    ensures
        exact_speed(state, side, p, false) == exact_speed(state, other, p, false),
{
    lemma_speed_is_under_influences(state, side, p, false);
    lemma_speed_is_under_influences(state, other, p, false);
    lemma_same_influences(
        base_speed(side, p, false),
        influences(state, side, p, false),
        influences(state, other, p, false),
        10,
    );
}

/// Conditions of the active Pokemon: an unburdened one is twice as fast, a
/// slow starter half, and one whose speed is driven up half as fast again.
pub proof fn lemma_conditions_and_speed(state: State, side: Side, plain: Side, p: Pokemon)
    requires
        side.speed_boost == plain.speed_boost,
        side.side_conditions == plain.side_conditions,
        !plain.volatile_statuses.has(PokemonVolatileStatus::UNBURDEN),
        !plain.volatile_statuses.has(PokemonVolatileStatus::SLOWSTART),
        !plain.volatile_statuses.has(PokemonVolatileStatus::PROTOSYNTHESISSPE),
        !plain.volatile_statuses.has(PokemonVolatileStatus::QUARKDRIVESPE),
    ensures
        ({
            let own = exact_speed(state, side, p, true);
            let bare = exact_speed(state, plain, p, true);
            let light = side.volatile_statuses.has(PokemonVolatileStatus::UNBURDEN);
            let slow = side.volatile_statuses.has(PokemonVolatileStatus::SLOWSTART);
            let driven = side.volatile_statuses.has(PokemonVolatileStatus::PROTOSYNTHESISSPE)
                || side.volatile_statuses.has(PokemonVolatileStatus::QUARKDRIVESPE);
            &&& light && !slow && !driven ==> times_as(own, bare, 2, 1)
            &&& !light && slow && !driven ==> times_as(own, bare, 1, 2)
            &&& !light && !slow && driven ==> times_as(own, bare, 3, 2)
        }),
{
    let light = side.volatile_statuses.has(PokemonVolatileStatus::UNBURDEN);
    let slow = side.volatile_statuses.has(PokemonVolatileStatus::SLOWSTART);
    let driven = side.volatile_statuses.has(PokemonVolatileStatus::PROTOSYNTHESISSPE)
        || side.volatile_statuses.has(PokemonVolatileStatus::QUARKDRIVESPE);
    let a = influences(state, side, p, true);
    let b = influences(state, plain, p, true);
    assert(a[3].factor == (2nat, 1nat) && a[3].applies == light && !b[3].applies);
    assert(a[4].factor == (1nat, 2nat) && a[4].applies == slow && !b[4].applies);
    assert(a[5].factor == (3nat, 2nat) && a[5].applies == driven && !b[5].applies);
    assert(base_speed(side, p, true) == base_speed(plain, p, true));
    let k: int = if light {
        3
    } else if slow {
        4
    } else {
        5
    };
    if (light && !slow && !driven) || (!light && slow && !driven) || (!light && !slow && driven) {
        assert forall|i: int| 0 <= i < 10 && i != k implies #[trigger] a[i] == b[i] by {}
        lemma_influence_tells((state, side, p), (state, plain, p), true, k);
    }
}

/// Where nothing else has a say, the speed is the stat, and the active
/// Pokemon's is raised by half for each stage up and lowered to two parts of
/// as many as the stages down and two; the rest of a division is dropped.
pub proof fn lemma_stages_and_speed(state: State, side: Side, p: Pokemon, active: bool)
    requires
        p.speed >= 0,
        -6 <= side.speed_boost <= 6,
        p.ability == Abilities::NONE,
        p.item == Items::NONE,
        p.status == PokemonStatus::NONE,
        side.side_conditions.tailwind <= 0,
        !side.volatile_statuses.has(PokemonVolatileStatus::UNBURDEN),
        !side.volatile_statuses.has(PokemonVolatileStatus::SLOWSTART),
        !side.volatile_statuses.has(PokemonVolatileStatus::PROTOSYNTHESISSPE),
        !side.volatile_statuses.has(PokemonVolatileStatus::QUARKDRIVESPE),
    ensures
        ({
            let s = exact_speed(state, side, p, active);
            let b = side.speed_boost as int;
            &&& s.1 == 1
            &&& !active ==> s.0 == p.speed
            &&& active && b >= 0 ==> 2 * s.0 <= p.speed * (2 + b) < 2 * s.0 + 2
            &&& active && b < 0 ==> s.0 * (2 - b) <= p.speed * 2 < (s.0 + 1) * (2 - b)
        }),
{
    lemma_speed_is_under_influences(state, side, p, active);
    let list = influences(state, side, p, active);
    let base = base_speed(side, p, active);
    assert forall|n: int| 0 <= n <= 10 implies #[trigger] under(base, list, n) == base by {
        lemma_uninfluenced(base, list, n);
    }
    assert(under(base, list, 10) == base);
    let b = side.speed_boost as int;
    let x = p.speed as int;
    if active && b >= 0 {
        let y = x * (2 + b);
        assert(y >= 0) by (nonlinear_arith)
            requires
                y == x * (2 + b),
                x >= 0,
                b >= 0,
        ;
    } else if active {
        let d = 2 - b;
        let q = x * 2 / d;
        vstd::arithmetic::div_mod::lemma_fundamental_div_mod(x * 2, d);
        vstd::arithmetic::div_mod::lemma_mod_bound(x * 2, d);
        assert(q >= 0) by (nonlinear_arith)
            requires
                q == x * 2 / d,
                x >= 0,
                d > 0,
        ;
        assert(q * d == d * q && (q + 1) * d == d * q + d) by (nonlinear_arith);
    }
}

proof fn lemma_uninfluenced(base: (nat, nat), list: Seq<Influence>, n: int)
    requires
        0 <= n <= list.len(),
        forall|i: int| 0 <= i < list.len() ==> !(#[trigger] list[i]).applies,
    ensures
        under(base, list, n) == base,
    decreases n,
{
    reveal(product_if);
    if n > 0 {
        lemma_uninfluenced(base, list, n - 1);
        assert(!list[n - 1].applies);
    }
}

/// The speed of a matchup is the exact speed without its fraction, as far as
/// it can be kept.
pub proof fn lemma_matchup_speed_is_rounded_down(
    state: State,
    side: Side,
    p: Pokemon,
    active: bool,
)
    requires
        exact_speed(state, side, p, active).1 > 0,
    ensures
        ({
            let s = exact_speed(state, side, p, active);
            let r = matchup_speed(state, side, p, active);
            &&& 0 <= r <= i16::MAX
            &&& r * s.1 <= s.0
            &&& r < i16::MAX ==> s.0 < (r + 1) * s.1
        }),
{
    let s = exact_speed(state, side, p, active);
    let q = s.0 as int / s.1 as int;
    vstd::arithmetic::div_mod::lemma_fundamental_div_mod(s.0 as int, s.1 as int);
    vstd::arithmetic::div_mod::lemma_mod_bound(s.0 as int, s.1 as int);
    assert(q >= 0) by (nonlinear_arith)
        requires
            q == s.0 as int / s.1 as int,
            s.0 >= 0,
            s.1 > 0,
    ;
    let r = matchup_speed(state, side, p, active);
    assert(q * s.1 == s.1 * q && (q + 1) * s.1 == s.1 * q + s.1) by (nonlinear_arith);
    assert(r * s.1 <= q * s.1) by (nonlinear_arith)
        requires
            r <= q,
            s.1 > 0,
    ;
}

/// What brings a move forward: a glide on grassy terrain, and gale wings a
/// flying move at full hit points, one step each.
pub proof fn lemma_what_brings_a_move_forward(state: State, p: Pokemon, c: Choice)
    ensures
        ({
            let glides = c.move_id == Choices::GRASSYGLIDE && state.terrain_type
                == Terrain::GRASSYTERRAIN;
            let gale = p.ability == Abilities::GALEWINGS && c.move_type == PokemonType::FLYING
                && p.hp == p.maxhp;
            let r = priority_in_matchup(state, p, c);
            &&& !glides && !gale ==> r == c.priority
            &&& glides != gale ==> r == c.priority + 1
            &&& glides && gale ==> r == c.priority + 2
        }),
{
}

} // verus!
