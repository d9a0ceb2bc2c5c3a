//! What each feature of a side counts, told by the side alone.

use crate::evaluate::laws::{contribution, positive_after, side_feature, value_of};
use crate::evaluate::walk::{
    active_events, base_events, boost_event, condition_events, hazard_events,
    mon_events, physical_moves, side_condition_events, slot_events, slots_events, status_events,
    team_events, whole, EvalEvent,
};
use crate::state::{
    Abilities, Items, MoveCategory, Pokemon, PokemonStatus, PokemonVolatileStatus, Side, State,
};
use vstd::prelude::*;

verus! {

/// What some events of one side add to feature `f`.
spec fn gain(events: Seq<EvalEvent>, f: int) -> real
    decreases events.len(),
{
    if events.len() == 0 {
        0 as real
    } else {
        gain(events.drop_last(), f) + contribution(events.last(), f)
    }
}

/// Whether no event changes the side.
spec fn unsigned(events: Seq<EvalEvent>) -> bool {
    forall|i: int| 0 <= i < events.len() ==> !((#[trigger] events[i]) is Sign)
}

proof fn lemma_gain_push(events: Seq<EvalEvent>, e: EvalEvent, f: int)
    ensures
        gain(events.push(e), f) == gain(events, f) + contribution(e, f),
{
    assert(events.push(e).drop_last() =~= events);
}

proof fn lemma_gain_joined(a: Seq<EvalEvent>, b: Seq<EvalEvent>, f: int)
    ensures
        gain(a + b, f) == gain(a, f) + gain(b, f),
    decreases b.len(),
{
    if b.len() == 0 {
        assert(a + b =~= a);
    } else {
        lemma_gain_joined(a, b.drop_last(), f);
        assert((a + b).drop_last() =~= a + b.drop_last());
    }
}

proof fn lemma_same_side(a: Seq<EvalEvent>, b: Seq<EvalEvent>, positive: bool, f: int)
    requires
        unsigned(b),
    ensures
        positive_after(a + b) == positive_after(a),
        side_feature(a + b, positive, f) == side_feature(a, positive, f) + if positive_after(a)
            == positive {
            gain(b, f)
        } else {
            0 as real
        },
    decreases b.len(),
{
    if b.len() == 0 {
        assert(a + b =~= a);
    } else {
        let c = b.drop_last();
        assert(unsigned(c)) by {
            assert forall|i: int| 0 <= i < c.len() implies !((#[trigger] c[i]) is Sign) by {
                assert(c[i] == b[i]);
            }
        }
        lemma_same_side(a, c, positive, f);
        assert((a + b).drop_last() =~= a + c);
        assert(b[b.len() - 1] == b.last());
    }
}

proof fn lemma_side_begins(a: Seq<EvalEvent>, own: bool, positive: bool, f: int)
    ensures
        positive_after(a.push(EvalEvent::Sign { positive: own })) == own,
        side_feature(a.push(EvalEvent::Sign { positive: own }), positive, f) == side_feature(
            a,
            positive,
            f,
        ),
{
    assert(a.push(EvalEvent::Sign { positive: own }).drop_last() =~= a);
}

/// One if it holds.
pub open spec fn one_if(holds: bool) -> real {
    if holds {
        1 as real
    } else {
        0 as real
    }
}

/// What a stat stage is worth: the first two stages one each, the third half
/// of one, the fourth another half, and fifteen hundredths for each of the
/// last; as much is lost by stages down.
pub open spec fn stage_worth(stage: int) -> real {
    if stage < 0 {
        -stage_up_worth(-stage)
    } else {
        stage_up_worth(stage)
    }
}

pub open spec fn stage_up_worth(stage: int) -> real {
    if stage <= 2 {
        stage as real
    } else if stage <= 4 {
        2 as real + (stage - 2) as real / 2 as real
    } else {
        3 as real + (15 * (stage - 4)) as real / 100 as real
    }
}

/// The slots that hold physical moves.
pub open spec fn physical_slots(p: Pokemon, n: int) -> Set<int> {
    Set::new(|k: int| 0 <= k < n && p.moves@[k].choice.category == MoveCategory::Physical)
}

/// Whether an ability makes the best of being poisoned, other than by healing.
pub open spec fn likes_poison(a: Abilities) -> bool {
    a == Abilities::GUTS || a == Abilities::MARVELSCALE || a == Abilities::QUICKFEET || a
        == Abilities::TOXICBOOST || a == Abilities::MAGICGUARD
}

/// Whether rocks and spikes hurt a Pokemon that comes in.
pub open spec fn minds_hazards(p: Pokemon) -> bool {
    p.item != Items::HEAVYDUTYBOOTS && p.ability != Abilities::MAGICGUARD
}

/// What a standing Pokemon of a side adds to feature `f`, whether it is the
/// active one or not.
pub open spec fn mon_worth(side: Side, p: Pokemon, f: int) -> real {
    let plain = p.ability != Abilities::POISONHEAL && !likes_poison(p.ability);
    let sick = p.status == PokemonStatus::TOXIC || p.status == PokemonStatus::POISON;
    let glad = p.ability == Abilities::GUTS || p.ability == Abilities::MARVELSCALE || p.ability
        == Abilities::QUICKFEET;
    if f == 0 {
        1 as real
    } else if f == 1 {
        p.hp as real / p.maxhp as real
    } else if f == 2 {
        one_if(p.item != Items::NONE)
    } else if f == 3 {
        one_if(p.status == PokemonStatus::FREEZE)
    } else if f == 4 {
        one_if(p.status == PokemonStatus::SLEEP)
    } else if f == 5 {
        one_if(p.status == PokemonStatus::PARALYZE)
    } else if f == 6 {
        one_if(p.status == PokemonStatus::TOXIC && plain)
    } else if f == 7 {
        one_if(p.status == PokemonStatus::POISON && plain)
    } else if f == 8 {
        if p.status != PokemonStatus::BURN {
            0 as real
        } else if glad {
            -(2 as real)
        } else if p.special_attack > p.attack {
            physical_slots(p, 4).len() as real / 2 as real
        } else {
            physical_slots(p, 4).len() as real
        }
    } else if f == 9 {
        one_if(sick && p.ability == Abilities::POISONHEAL)
    } else if f == 10 {
        one_if(sick && likes_poison(p.ability))
    } else if f == 25 {
        if minds_hazards(p) {
            side.side_conditions.stealth_rock as real
        } else {
            0 as real
        }
    } else if f == 26 {
        if minds_hazards(p) && p.grounded {
            side.side_conditions.spikes as real
        } else {
            0 as real
        }
    } else if f == 27 {
        if minds_hazards(p) && p.grounded {
            side.side_conditions.toxic_spikes as real
        } else {
            0 as real
        }
    } else if f == 28 {
        if p.item != Items::HEAVYDUTYBOOTS && p.grounded {
            side.side_conditions.sticky_web as real
        } else {
            0 as real
        }
    } else {
        0 as real
    }
}

/// What being active adds to feature `f`.
pub open spec fn active_worth(side: Side, f: int) -> real {
    if f == 11 {
        stage_worth(side.attack_boost as int)
    } else if f == 12 {
        stage_worth(side.defense_boost as int)
    } else if f == 13 {
        stage_worth(side.special_attack_boost as int)
    } else if f == 14 {
        stage_worth(side.special_defense_boost as int)
    } else if f == 15 {
        stage_worth(side.speed_boost as int)
    } else if f == 16 {
        one_if(side.volatile_statuses.has(PokemonVolatileStatus::LEECHSEED))
    } else if f == 17 {
        one_if(side.volatile_statuses.has(PokemonVolatileStatus::SUBSTITUTE))
    } else if f == 18 {
        one_if(side.volatile_statuses.has(PokemonVolatileStatus::CONFUSION))
    } else {
        0 as real
    }
}

/// What the first `n` Pokemon of a side add to feature `f`.
pub open spec fn team_worth(side: Side, f: int, n: int) -> real
    decreases n,
{
    if n <= 0 {
        0 as real
    } else {
        let p = side.pokemon@[n - 1];
        team_worth(side, f, n - 1) + if p.hp > 0 {
            mon_worth(side, p, f) + if n - 1 == side.active_index {
                active_worth(side, f)
            } else {
                0 as real
            }
        } else {
            0 as real
        }
    }
}

/// What is over a whole side adds to feature `f`: its conditions, and whether
/// one of its Pokemon is terastallized.
pub open spec fn side_worth(side: Side, f: int) -> real {
    if f == 19 {
        side.side_conditions.reflect as real
    } else if f == 20 {
        side.side_conditions.light_screen as real
    } else if f == 21 {
        side.side_conditions.aurora_veil as real
    } else if f == 22 {
        side.side_conditions.safeguard as real
    } else if f == 23 {
        side.side_conditions.tailwind as real
    } else if f == 24 {
        side.side_conditions.healing_wish as real
    } else if f == 29 {
        one_if(exists|i: int| 0 <= i < 6 && (#[trigger] side.pokemon@[i]).terastallized)
    } else {
        0 as real
    }
}

proof fn lemma_physical_slots(p: Pokemon, n: int)
    requires
        n >= 0,
    ensures
        physical_slots(p, n).finite(),
        physical_moves(p, n) == physical_slots(p, n).len(),
        physical_moves(p, n) <= n,
    decreases n,
{
    if n == 0 {
        assert(physical_slots(p, 0) =~= Set::<int>::empty());
    } else {
        lemma_physical_slots(p, n - 1);
        if p.moves@[n - 1].choice.category == MoveCategory::Physical {
            assert(physical_slots(p, n) =~= physical_slots(p, n - 1).insert(n - 1));
        } else {
            assert(physical_slots(p, n) =~= physical_slots(p, n - 1));
        }
    }
}

proof fn lemma_mon_gain(p: Pokemon, f: int)
    ensures
        gain(mon_events(p), f) == contribution(EvalEvent::Hp { hp: p.hp, maxhp: p.maxhp }, f) + gain(
            status_events(p),
            f,
        ) + (if f == 2 {
            one_if(p.item != Items::NONE)
        } else {
            0 as real
        }) + (if f == 0 {
            1 as real
        } else {
            0 as real
        }),
{
    let none = Seq::<EvalEvent>::empty();
    let hp = EvalEvent::Hp { hp: p.hp, maxhp: p.maxhp };
    let thing = EvalEvent::Mon { feature: crate::evaluate::feat::ITEM, hundredths: 100 };
    let item: Seq<EvalEvent> = if p.item != Items::NONE {
        seq![thing]
    } else {
        Seq::empty()
    };
    lemma_gain_push(none, hp, f);
    lemma_gain_push(none, thing, f);
    lemma_gain_push(none, EvalEvent::FinishMon, f);
    let a = seq![hp];
    let b = status_events(p);
    lemma_gain_joined(a, b, f);
    lemma_gain_joined(a + b, item, f);
    lemma_gain_joined(a + b + item, seq![EvalEvent::FinishMon], f);
    assert(value_of(100) == 1 as real);
}

proof fn lemma_status_gain(p: Pokemon, side: Side, f: int)
    ensures
        gain(status_events(p), f) == if 3 <= f <= 10 {
            mon_worth(side, p, f)
        } else {
            0 as real
        },
{
    let none = Seq::<EvalEvent>::empty();
    lemma_physical_slots(p, 4);
    let n = physical_moves(p, 4);
    assert(value_of(100) == 1 as real);
    assert(value_of(-200) == -(2 as real));
    assert((50 * n) as real / 100 as real == n as real / 2 as real);
    assert((100 * n) as real / 100 as real == n as real);
    if status_events(p).len() > 0 {
        lemma_gain_push(none, status_events(p)[0], f);
        assert(status_events(p) =~= none.push(status_events(p)[0]));
    }
}

proof fn lemma_whole(feature: usize, count: i8, f: int)
    ensures
        contribution(whole(feature, count), f) == if f == feature {
            count as real
        } else {
            0 as real
        },
{
    assert((100 * count) as real / 100 as real == count as real);
}

proof fn lemma_hazard_gain(p: Pokemon, side: Side, f: int)
    ensures
        gain(hazard_events(p, side), f) == if 25 <= f <= 28 {
            mon_worth(side, p, f)
        } else {
            0 as real
        },
{
    let none = Seq::<EvalEvent>::empty();
    let c = side.side_conditions;
    let r = whole(25, c.stealth_rock);
    let s = whole(26, c.spikes);
    let t = whole(27, c.toxic_spikes);
    let w = whole(28, c.sticky_web);
    lemma_whole(25, c.stealth_rock, f);
    lemma_whole(26, c.spikes, f);
    lemma_whole(27, c.toxic_spikes, f);
    lemma_whole(28, c.sticky_web, f);
    lemma_gain_push(none, r, f);
    lemma_gain_push(none.push(r), s, f);
    lemma_gain_push(none.push(r).push(s), t, f);
    assert(seq![r, s, t] =~= none.push(r).push(s).push(t));
    lemma_gain_push(none, w, f);
    lemma_gain_push(none, EvalEvent::StartGroup, f);
    lemma_gain_push(none, EvalEvent::FinishGroup, f);
    let rocks: Seq<EvalEvent> = if !minds_hazards(p) {
        Seq::empty()
    } else if p.grounded {
        seq![r, s, t]
    } else {
        seq![r]
    };
    let web: Seq<EvalEvent> = if p.item != Items::HEAVYDUTYBOOTS && p.grounded {
        seq![w]
    } else {
        Seq::empty()
    };
    let a = seq![EvalEvent::StartGroup];
    lemma_gain_joined(a, rocks, f);
    lemma_gain_joined(a + rocks, web, f);
    lemma_gain_joined(a + rocks + web, seq![EvalEvent::FinishGroup], f);
    assert(hazard_events(p, side) =~= a + rocks + web + seq![EvalEvent::FinishGroup]);
}

proof fn lemma_boost(feature: usize, boost: i8, f: int)
    requires
        -6 <= boost <= 6,
    ensures
        contribution(boost_event(feature, boost), f) == if f == feature {
            stage_worth(boost as int)
        } else {
            0 as real
        },
{
    assert(value_of(100) == 1 as real && value_of(200) == 2 as real && value_of(0) == 0 as real);
    assert(value_of(250) == 2 as real + 1 as real / 2 as real);
    assert(value_of(300) == 3 as real);
    assert(value_of(315) == 3 as real + 15 as real / 100 as real);
    assert(value_of(330) == 3 as real + 30 as real / 100 as real);
    assert(value_of(-100) == -(1 as real) && value_of(-200) == -(2 as real));
    assert(value_of(-250) == -(2 as real + 1 as real / 2 as real));
    assert(value_of(-300) == -(3 as real));
    assert(value_of(-315) == -(3 as real + 15 as real / 100 as real));
    assert(value_of(-330) == -(3 as real + 30 as real / 100 as real));
}

proof fn lemma_condition_gain(side: Side, status: PokemonVolatileStatus, feature: usize, f: int)
    ensures
        gain(condition_events(side, status, feature), f) == if f == feature {
            one_if(side.volatile_statuses.has(status))
        } else {
            0 as real
        },
{
    let none = Seq::<EvalEvent>::empty();
    lemma_gain_push(none, EvalEvent::Global { feature, hundredths: 100 }, f);
    assert(value_of(100) == 1 as real);
}

proof fn lemma_active_gain(side: Side, f: int)
    requires
        side.wf(),
    ensures
        gain(active_events(side), f) == active_worth(side, f),
{
    let none = Seq::<EvalEvent>::empty();
    let a = condition_events(side, PokemonVolatileStatus::LEECHSEED, 16);
    let b = condition_events(side, PokemonVolatileStatus::SUBSTITUTE, 17);
    let c = condition_events(side, PokemonVolatileStatus::CONFUSION, 18);
    lemma_condition_gain(side, PokemonVolatileStatus::LEECHSEED, 16, f);
    lemma_condition_gain(side, PokemonVolatileStatus::SUBSTITUTE, 17, f);
    lemma_condition_gain(side, PokemonVolatileStatus::CONFUSION, 18, f);
    let v = boost_event(11, side.attack_boost);
    let w = boost_event(12, side.defense_boost);
    let x = boost_event(13, side.special_attack_boost);
    let y = boost_event(14, side.special_defense_boost);
    let z = boost_event(15, side.speed_boost);
    lemma_boost(11, side.attack_boost, f);
    lemma_boost(12, side.defense_boost, f);
    lemma_boost(13, side.special_attack_boost, f);
    lemma_boost(14, side.special_defense_boost, f);
    lemma_boost(15, side.speed_boost, f);
    lemma_gain_push(none, v, f);
    lemma_gain_push(none.push(v), w, f);
    lemma_gain_push(none.push(v).push(w), x, f);
    lemma_gain_push(none.push(v).push(w).push(x), y, f);
    lemma_gain_push(none.push(v).push(w).push(x).push(y), z, f);
    assert(seq![v, w, x, y, z] =~= none.push(v).push(w).push(x).push(y).push(z));
    lemma_gain_joined(a, b, f);
    lemma_gain_joined(a + b, c, f);
    lemma_gain_joined(a + b + c, seq![v, w, x, y, z], f);
}

proof fn lemma_slot_gain(side: Side, i: int, f: int)
    requires
        side.wf(),
        0 <= i < 6,
    ensures
        gain(slot_events(side, i), f) == if side.pokemon@[i].hp > 0 {
            mon_worth(side, side.pokemon@[i], f) + if i == side.active_index {
                active_worth(side, f)
            } else {
                0 as real
            }
        } else {
            0 as real
        },
{
    let p = side.pokemon@[i];
    lemma_mon_gain(p, f);
    lemma_status_gain(p, side, f);
    lemma_hazard_gain(p, side, f);
    lemma_active_gain(side, f);
    let rest = if i == side.active_index {
        active_events(side)
    } else {
        Seq::empty()
    };
    lemma_gain_joined(mon_events(p), hazard_events(p, side), f);
    lemma_gain_joined(mon_events(p) + hazard_events(p, side), rest, f);
}

proof fn lemma_slots_gain(side: Side, n: int, f: int)
    requires
        side.wf(),
        0 <= n <= 6,
    ensures
        gain(slots_events(side, n), f) == team_worth(side, f, n),
        unsigned(slots_events(side, n)),
    decreases n,
{
    if n > 0 {
        lemma_slots_gain(side, n - 1, f);
        lemma_slot_gain(side, n - 1, f);
        lemma_gain_joined(slots_events(side, n - 1), slot_events(side, n - 1), f);
        lemma_slot_is_unsigned(side, n - 1);
        lemma_unsigned_joined(slots_events(side, n - 1), slot_events(side, n - 1));
    }
}

proof fn lemma_unsigned_joined(a: Seq<EvalEvent>, b: Seq<EvalEvent>)
    requires
        unsigned(a),
        unsigned(b),
    ensures
        unsigned(a + b),
{
    let c = a + b;
    assert forall|i: int| 0 <= i < c.len() implies !((#[trigger] c[i]) is Sign) by {
        if i < a.len() {
            assert(c[i] == a[i]);
        } else {
            assert(c[i] == b[i - a.len()]);
        }
    }
}

proof fn lemma_slot_is_unsigned(side: Side, i: int)
    ensures
        unsigned(slot_events(side, i)),
{
    let p = side.pokemon@[i];
    let none = Seq::<EvalEvent>::empty();
    let item: Seq<EvalEvent> = if p.item != Items::NONE {
        seq![EvalEvent::Mon { feature: crate::evaluate::feat::ITEM, hundredths: 100 }]
    } else {
        none
    };
    let a = seq![EvalEvent::Hp { hp: p.hp, maxhp: p.maxhp }];
    assert(unsigned(none) && unsigned(a) && unsigned(item) && unsigned(status_events(p)));
    lemma_unsigned_joined(a, status_events(p));
    lemma_unsigned_joined(a + status_events(p), item);
    lemma_unsigned_joined(a + status_events(p) + item, seq![EvalEvent::FinishMon]);
    assert(unsigned(mon_events(p)));
    assert(unsigned(hazard_events(p, side)));
    lemma_unsigned_joined(mon_events(p), hazard_events(p, side));
    let b = condition_events(side, PokemonVolatileStatus::LEECHSEED, 16);
    let c = condition_events(side, PokemonVolatileStatus::SUBSTITUTE, 17);
    let d = condition_events(side, PokemonVolatileStatus::CONFUSION, 18);
    lemma_unsigned_joined(b, c);
    lemma_unsigned_joined(b + c, d);
    let boosts = seq![
        boost_event(11, side.attack_boost),
        boost_event(12, side.defense_boost),
        boost_event(13, side.special_attack_boost),
        boost_event(14, side.special_defense_boost),
        boost_event(15, side.speed_boost),
    ];
    assert(unsigned(boosts));
    lemma_unsigned_joined(b + c + d, boosts);
    lemma_unsigned_joined(mon_events(p) + hazard_events(p, side), active_events(side));
    lemma_unsigned_joined(mon_events(p) + hazard_events(p, side), none);
}

proof fn lemma_team(a: Seq<EvalEvent>, side: Side, own: bool, positive: bool, f: int)
    requires
        side.wf(),
    ensures
        positive_after(a + team_events(side, own)) == own,
        side_feature(a + team_events(side, own), positive, f) == side_feature(a, positive, f)
            + if own == positive {
            team_worth(side, f, 6) + if f == 29 {
                side_worth(side, f)
            } else {
                0 as real
            }
        } else {
            0 as real
        },
{
    let none = Seq::<EvalEvent>::empty();
    let sign = EvalEvent::Sign { positive: own };
    let slots = slots_events(side, 6);
    let used = EvalEvent::Global { feature: crate::evaluate::feat::USED_TERA, hundredths: 100 };
    let tera: Seq<EvalEvent> = if crate::evaluate::walk::any_terastallized(side, 6) {
        seq![used]
    } else {
        Seq::empty()
    };
    lemma_side_begins(a, own, positive, f);
    lemma_slots_gain(side, 6, f);
    lemma_gain_push(none, used, f);
    assert(value_of(100) == 1 as real);
    lemma_gain_joined(slots, tera, f);
    assert(unsigned(slots + tera));
    lemma_same_side(a.push(sign), slots + tera, positive, f);
    assert(a + team_events(side, own) =~= a.push(sign) + (slots + tera));
}

proof fn lemma_conditions(a: Seq<EvalEvent>, side: Side, own: bool, positive: bool, f: int)
    ensures
        positive_after(a + side_condition_events(side, own)) == own,
        side_feature(a + side_condition_events(side, own), positive, f) == side_feature(
            a,
            positive,
            f,
        ) + if own == positive && f != 29 {
            side_worth(side, f)
        } else {
            0 as real
        },
{
    let none = Seq::<EvalEvent>::empty();
    let sign = EvalEvent::Sign { positive: own };
    let c = side.side_conditions;
    let u = whole(19, c.reflect);
    let v = whole(20, c.light_screen);
    let w = whole(21, c.aurora_veil);
    let x = whole(22, c.safeguard);
    let y = whole(23, c.tailwind);
    let z = whole(24, c.healing_wish);
    lemma_whole(19, c.reflect, f);
    lemma_whole(20, c.light_screen, f);
    lemma_whole(21, c.aurora_veil, f);
    lemma_whole(22, c.safeguard, f);
    lemma_whole(23, c.tailwind, f);
    lemma_whole(24, c.healing_wish, f);
    lemma_gain_push(none, u, f);
    lemma_gain_push(none.push(u), v, f);
    lemma_gain_push(none.push(u).push(v), w, f);
    lemma_gain_push(none.push(u).push(v).push(w), x, f);
    lemma_gain_push(none.push(u).push(v).push(w).push(x), y, f);
    lemma_gain_push(none.push(u).push(v).push(w).push(x).push(y), z, f);
    let all = seq![u, v, w, x, y, z];
    assert(all =~= none.push(u).push(v).push(w).push(x).push(y).push(z));
    lemma_side_begins(a, own, positive, f);
    lemma_same_side(a.push(sign), all, positive, f);
    assert(a + side_condition_events(side, own) =~= a.push(sign) + all);
}

/// What the base features of the two sides are, each told by its own side
/// alone: who stands, how healthy, with what item, ailment and stages, and
/// what lies on the floor and hangs over the side.
pub proof fn lemma_what_base_features_count(state: State, f: int)
    requires
        state.wf(),
    ensures
        side_feature(base_events(state), true, f) == team_worth(state.side_one, f, 6) + side_worth(
            state.side_one,
            f,
        ),
        side_feature(base_events(state), false, f) == team_worth(state.side_two, f, 6) + side_worth(
            state.side_two,
            f,
        ),
{
    let none = Seq::<EvalEvent>::empty();
    let one = state.side_one;
    let two = state.side_two;
    let a = none + team_events(one, true);
    let b = a + team_events(two, false);
    let c = b + side_condition_events(one, true);
    lemma_team(none, one, true, true, f);
    lemma_team(none, one, true, false, f);
    lemma_team(a, two, false, true, f);
    lemma_team(a, two, false, false, f);
    lemma_conditions(b, one, true, true, f);
    lemma_conditions(b, one, true, false, f);
    lemma_conditions(c, two, false, true, f);
    lemma_conditions(c, two, false, false, f);
    assert(base_events(state) =~= c + side_condition_events(two, false));
}

} // verus!
