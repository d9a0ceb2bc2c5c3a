//! What cache keys tell apart, and what they need not.

use crate::matchup::fingerprint::{
    flag, guards_at_full_hp, lemma_hash_tracks_every_word, move_reads_target_hp,
    move_reads_user_hp, participant_hash, participant_words, push_active, push_body, push_moves,
    push_surroundings, sensitivity_of,
};
use crate::matchup::pair::Duelists;
use crate::state::{Choices, Move, Pokemon, Side, State};
use vstd::prelude::*;

verus! {

proof fn lemma_peel(a: Seq<u64>, b: Seq<u64>, x: u64, y: u64)
    requires
        a.push(x) == b.push(y),
    ensures
        a == b,
        x == y,
{
    assert(a.push(x).drop_last() =~= a);
    assert(b.push(y).drop_last() =~= b);
    assert(a.push(x).last() == x && b.push(y).last() == y);
}

proof fn lemma_body_words(p: Pokemon, q: Pokemon, u: Seq<u64>, v: Seq<u64>)
    requires
        push_body(u, p) == push_body(v, q),
    ensures
        u == v,
        p.id as u64 == q.id as u64,
        p.level as u64 == q.level as u64,
        p.types.0.index_spec() as u64 == q.types.0.index_spec() as u64,
        p.types.1.index_spec() as u64 == q.types.1.index_spec() as u64,
        p.maxhp as u64 == q.maxhp as u64,
        p.ability.number() == q.ability.number(),
        p.item.number() == q.item.number(),
        p.attack as u64 == q.attack as u64,
        p.defense as u64 == q.defense as u64,
        p.special_attack as u64 == q.special_attack as u64,
        p.special_defense as u64 == q.special_defense as u64,
        p.speed as u64 == q.speed as u64,
        p.status.number() == q.status.number(),
        p.weight_kg.bits as u64 == q.weight_kg.bits as u64,
        flag(p.terastallized) == flag(q.terastallized),
        p.tera_type.index_spec() as u64 == q.tera_type.index_spec() as u64,
{
    let a0 = u;
    let b0 = v;
    let a1 = a0.push(p.id as u64);
    let b1 = b0.push(q.id as u64);
    let a2 = a1.push(p.level as u64);
    let b2 = b1.push(q.level as u64);
    let a3 = a2.push(p.types.0.index_spec() as u64);
    let b3 = b2.push(q.types.0.index_spec() as u64);
    let a4 = a3.push(p.types.1.index_spec() as u64);
    let b4 = b3.push(q.types.1.index_spec() as u64);
    let a5 = a4.push(p.maxhp as u64);
    let b5 = b4.push(q.maxhp as u64);
    let a6 = a5.push(p.ability.number());
    let b6 = b5.push(q.ability.number());
    let a7 = a6.push(p.item.number());
    let b7 = b6.push(q.item.number());
    let a8 = a7.push(p.attack as u64);
    let b8 = b7.push(q.attack as u64);
    let a9 = a8.push(p.defense as u64);
    let b9 = b8.push(q.defense as u64);
    let a10 = a9.push(p.special_attack as u64);
    let b10 = b9.push(q.special_attack as u64);
    let a11 = a10.push(p.special_defense as u64);
    let b11 = b10.push(q.special_defense as u64);
    let a12 = a11.push(p.speed as u64);
    let b12 = b11.push(q.speed as u64);
    let a13 = a12.push(p.status.number());
    let b13 = b12.push(q.status.number());
    let a14 = a13.push(p.weight_kg.bits as u64);
    let b14 = b13.push(q.weight_kg.bits as u64);
    let a15 = a14.push(flag(p.terastallized));
    let b15 = b14.push(flag(q.terastallized));
    let a16 = a15.push(p.tera_type.index_spec() as u64);
    let b16 = b15.push(q.tera_type.index_spec() as u64);
    lemma_peel(a15, b15, p.tera_type.index_spec() as u64, q.tera_type.index_spec() as u64);
    lemma_peel(a14, b14, flag(p.terastallized), flag(q.terastallized));
    lemma_peel(a13, b13, p.weight_kg.bits as u64, q.weight_kg.bits as u64);
    lemma_peel(a12, b12, p.status.number(), q.status.number());
    lemma_peel(a11, b11, p.speed as u64, q.speed as u64);
    lemma_peel(a10, b10, p.special_defense as u64, q.special_defense as u64);
    lemma_peel(a9, b9, p.special_attack as u64, q.special_attack as u64);
    lemma_peel(a8, b8, p.defense as u64, q.defense as u64);
    lemma_peel(a7, b7, p.attack as u64, q.attack as u64);
    lemma_peel(a6, b6, p.item.number(), q.item.number());
    lemma_peel(a5, b5, p.ability.number(), q.ability.number());
    lemma_peel(a4, b4, p.maxhp as u64, q.maxhp as u64);
    lemma_peel(a3, b3, p.types.1.index_spec() as u64, q.types.1.index_spec() as u64);
    lemma_peel(a2, b2, p.types.0.index_spec() as u64, q.types.0.index_spec() as u64);
    lemma_peel(a1, b1, p.level as u64, q.level as u64);
    lemma_peel(a0, b0, p.id as u64, q.id as u64);
}

proof fn lemma_move_words(m: Seq<Move>, k: Seq<Move>, u: Seq<u64>, v: Seq<u64>, n: int)
    requires
        n >= 0,
        push_moves(u, m, n) == push_moves(v, k, n),
    ensures
        u == v,
        forall|i: int|
            0 <= i < n ==> (#[trigger] m[i]).id.number() == k[i].id.number() && m[i].pp as u64
                == k[i].pp as u64 && m[i].disabled == k[i].disabled,
    decreases n,
{
    if n > 0 {
        let x = m[n - 1];
        let y = k[n - 1];
        let a = push_moves(u, m, n - 1);
        let b = push_moves(v, k, n - 1);
        lemma_peel(
            a.push(x.id.number()).push(x.pp as u64),
            b.push(y.id.number()).push(y.pp as u64),
            flag(x.disabled),
            flag(y.disabled),
        );
        lemma_peel(a.push(x.id.number()), b.push(y.id.number()), x.pp as u64, y.pp as u64);
        lemma_peel(a, b, x.id.number(), y.id.number());
        lemma_move_words(m, k, u, v, n - 1);
    }
}

proof fn lemma_active_words(a: Side, b: Side, active: bool, u: Seq<u64>, v: Seq<u64>)
    requires
        push_active(u, a, active) == push_active(v, b, active),
    ensures
        u == v,
        active ==> {
            &&& a.attack_boost as u64 == b.attack_boost as u64
            &&& a.defense_boost as u64 == b.defense_boost as u64
            &&& a.special_attack_boost as u64 == b.special_attack_boost as u64
            &&& a.special_defense_boost as u64 == b.special_defense_boost as u64
            &&& a.speed_boost as u64 == b.speed_boost as u64
            &&& a.volatile_statuses.0 as u64 == b.volatile_statuses.0 as u64
            &&& (a.volatile_statuses.0 >> 64) as u64 == (b.volatile_statuses.0 >> 64) as u64
        },
{
    if active {
        let a0 = u.push(flag(active));
        let b0 = v.push(flag(active));
        let a1 = a0.push(a.attack_boost as u64);
        let b1 = b0.push(b.attack_boost as u64);
        let a2 = a1.push(a.defense_boost as u64);
        let b2 = b1.push(b.defense_boost as u64);
        let a3 = a2.push(a.special_attack_boost as u64);
        let b3 = b2.push(b.special_attack_boost as u64);
        let a4 = a3.push(a.special_defense_boost as u64);
        let b4 = b3.push(b.special_defense_boost as u64);
        let a5 = a4.push(a.speed_boost as u64);
        let b5 = b4.push(b.speed_boost as u64);
        let a6 = a5.push(a.volatile_statuses.0 as u64);
        let b6 = b5.push(b.volatile_statuses.0 as u64);
        let a7 = a6.push((a.volatile_statuses.0 >> 64) as u64);
        let b7 = b6.push((b.volatile_statuses.0 >> 64) as u64);
        lemma_peel(a6, b6, (a.volatile_statuses.0 >> 64) as u64, (b.volatile_statuses.0 >> 64) as u64);
        lemma_peel(a5, b5, a.volatile_statuses.0 as u64, b.volatile_statuses.0 as u64);
        lemma_peel(a4, b4, a.speed_boost as u64, b.speed_boost as u64);
        lemma_peel(a3, b3, a.special_defense_boost as u64, b.special_defense_boost as u64);
        lemma_peel(a2, b2, a.special_attack_boost as u64, b.special_attack_boost as u64);
        lemma_peel(a1, b1, a.defense_boost as u64, b.defense_boost as u64);
        lemma_peel(a0, b0, a.attack_boost as u64, b.attack_boost as u64);

        lemma_peel(u, v, flag(active), flag(active));
    } else {
        lemma_peel(u, v, flag(active), flag(active));
    }
}

proof fn lemma_surrounding_words(s: State, t: State, a: Side, b: Side, u: Seq<u64>, v: Seq<u64>)
    requires
        push_surroundings(u, s, a) == push_surroundings(v, t, b),
    ensures
        u == v,
        a.side_conditions.reflect as u64 == b.side_conditions.reflect as u64,
        a.side_conditions.light_screen as u64 == b.side_conditions.light_screen as u64,
        a.side_conditions.aurora_veil as u64 == b.side_conditions.aurora_veil as u64,
        a.side_conditions.tailwind as u64 == b.side_conditions.tailwind as u64,
        a.fainted() as u64 == b.fainted() as u64,
        s.weather_type.number() == t.weather_type.number(),
        s.weather_turns_remaining as u64 == t.weather_turns_remaining as u64,
        s.terrain_type.number() == t.terrain_type.number(),
        s.terrain_turns_remaining as u64 == t.terrain_turns_remaining as u64,
{
    let a0 = u;
    let b0 = v;
    let a1 = a0.push(a.side_conditions.reflect as u64);
    let b1 = b0.push(b.side_conditions.reflect as u64);
    let a2 = a1.push(a.side_conditions.light_screen as u64);
    let b2 = b1.push(b.side_conditions.light_screen as u64);
    let a3 = a2.push(a.side_conditions.aurora_veil as u64);
    let b3 = b2.push(b.side_conditions.aurora_veil as u64);
    let a4 = a3.push(a.side_conditions.tailwind as u64);
    let b4 = b3.push(b.side_conditions.tailwind as u64);
    let a5 = a4.push(a.fainted() as u64);
    let b5 = b4.push(b.fainted() as u64);
    let a6 = a5.push(s.weather_type.number());
    let b6 = b5.push(t.weather_type.number());
    let a7 = a6.push(s.weather_turns_remaining as u64);
    let b7 = b6.push(t.weather_turns_remaining as u64);
    let a8 = a7.push(s.terrain_type.number());
    let b8 = b7.push(t.terrain_type.number());
    let a9 = a8.push(s.terrain_turns_remaining as u64);
    let b9 = b8.push(t.terrain_turns_remaining as u64);
    lemma_peel(a8, b8, s.terrain_turns_remaining as u64, t.terrain_turns_remaining as u64);
    lemma_peel(a7, b7, s.terrain_type.number(), t.terrain_type.number());
    lemma_peel(a6, b6, s.weather_turns_remaining as u64, t.weather_turns_remaining as u64);
    lemma_peel(a5, b5, s.weather_type.number(), t.weather_type.number());
    lemma_peel(a4, b4, a.fainted() as u64, b.fainted() as u64);
    lemma_peel(a3, b3, a.side_conditions.tailwind as u64, b.side_conditions.tailwind as u64);
    lemma_peel(a2, b2, a.side_conditions.aurora_veil as u64, b.side_conditions.aurora_veil as u64);
    lemma_peel(a1, b1, a.side_conditions.light_screen as u64, b.side_conditions.light_screen as u64);
    lemma_peel(a0, b0, a.side_conditions.reflect as u64, b.side_conditions.reflect as u64);
}

/// Participants that are hashed by the same words agree in everything that
/// their attacks depend on, hit points apart: kind, level, types, stats,
/// ability, item, status, weight, crystal, moves, for the active ones stages
/// and conditions, and the side and the field around them.
pub proof fn lemma_words_tell_participants_apart(
    s: State,
    t: State,
    a: Side,
    b: Side,
    p: Pokemon,
    q: Pokemon,
    active: bool,
)
    requires
        participant_words(s, a, p, active) == participant_words(t, b, q, active),
    ensures
        p.id as u64 == q.id as u64,
        p.level as u64 == q.level as u64,
        p.types.0.index_spec() as u64 == q.types.0.index_spec() as u64,
        p.types.1.index_spec() as u64 == q.types.1.index_spec() as u64,
        p.maxhp as u64 == q.maxhp as u64,
        p.ability.number() == q.ability.number(),
        p.item.number() == q.item.number(),
        p.attack as u64 == q.attack as u64,
        p.defense as u64 == q.defense as u64,
        p.special_attack as u64 == q.special_attack as u64,
        p.special_defense as u64 == q.special_defense as u64,
        p.speed as u64 == q.speed as u64,
        p.status.number() == q.status.number(),
        p.weight_kg.bits as u64 == q.weight_kg.bits as u64,
        flag(p.terastallized) == flag(q.terastallized),
        p.tera_type.index_spec() as u64 == q.tera_type.index_spec() as u64,
        forall|i: int|
            0 <= i < 4 ==> (#[trigger] p.moves@[i]).id.number() == q.moves@[i].id.number()
                && p.moves@[i].pp as u64 == q.moves@[i].pp as u64 && p.moves@[i].disabled
                == q.moves@[i].disabled,
        active ==> {
            &&& a.attack_boost as u64 == b.attack_boost as u64
            &&& a.defense_boost as u64 == b.defense_boost as u64
            &&& a.special_attack_boost as u64 == b.special_attack_boost as u64
            &&& a.special_defense_boost as u64 == b.special_defense_boost as u64
            &&& a.speed_boost as u64 == b.speed_boost as u64
            &&& a.volatile_statuses.0 as u64 == b.volatile_statuses.0 as u64
            &&& (a.volatile_statuses.0 >> 64) as u64 == (b.volatile_statuses.0 >> 64) as u64
        },
        a.side_conditions.reflect as u64 == b.side_conditions.reflect as u64,
        a.side_conditions.light_screen as u64 == b.side_conditions.light_screen as u64,
        a.side_conditions.aurora_veil as u64 == b.side_conditions.aurora_veil as u64,
        a.side_conditions.tailwind as u64 == b.side_conditions.tailwind as u64,
        a.fainted() as u64 == b.fainted() as u64,
        s.weather_type.number() == t.weather_type.number(),
        s.weather_turns_remaining as u64 == t.weather_turns_remaining as u64,
        s.terrain_type.number() == t.terrain_type.number(),
        s.terrain_turns_remaining as u64 == t.terrain_turns_remaining as u64,
{
    let none = Seq::<u64>::empty();
    let u1 = push_body(none, p);
    let v1 = push_body(none, q);
    let u2 = push_moves(u1, p.moves@, 4);
    let v2 = push_moves(v1, q.moves@, 4);
    let u3 = push_active(u2, a, active);
    let v3 = push_active(v2, b, active);
    lemma_surrounding_words(s, t, a, b, u3, v3);
    lemma_active_words(a, b, active, u2, v2);
    lemma_move_words(p.moves@, q.moves@, u1, v1, 4);
    lemma_body_words(p, q, none, none);
}

/// A change of one word of a participant changes its hash.
pub proof fn lemma_one_word_changes_the_hash(
    s: State,
    t: State,
    a: Side,
    b: Side,
    p: Pokemon,
    q: Pokemon,
    active: bool,
    place: int,
)
    requires
        ({
            let u = participant_words(s, a, p, active);
            let v = participant_words(t, b, q, active);
            &&& u.len() == v.len()
            &&& 0 <= place < u.len()
            &&& u[place] != v[place]
            &&& forall|i: int| 0 <= i < u.len() && i != place ==> u[i] == v[i]
        }),
    ensures
        participant_hash(s, a, p, active) != participant_hash(t, b, q, active),
{
    lemma_hash_tracks_every_word(
        participant_words(s, a, p, active),
        participant_words(t, b, q, active),
        place,
    );
}

/// Whether every slot is named after the move in it.
pub open spec fn named_after_moves(p: Pokemon) -> bool {
    forall|k: int| 0 <= k < 4 ==> (#[trigger] p.moves@[k]).id == p.moves@[k].choice.move_id
}

/// A Pokemon whose key leaves its hit points out hits the same and as early
/// whatever they are.
pub proof fn lemma_hit_points_left_out_do_not_tell(p: Duelists, hp: i16, slot: int)
    requires
        named_after_moves(p.attacker),
        !sensitivity_of(p.attacker).attacker,
        0 <= slot < 4,
    ensures
        ({
            let q = Duelists { attacker: Pokemon { hp, ..p.attacker }, ..p };
            &&& q.attack(slot) == p.attack(slot)
            &&& q.attack_priority(slot) == p.attack_priority(slot)
        }),
{
    assert(p.attacker.moves@[slot].id == p.attacker.moves@[slot].choice.move_id);
    assert(!move_reads_user_hp(p.attacker.moves@[slot].id));
}

/// A target whose hit points the key of its attacker leaves out is hit the
/// same whatever they are.
pub proof fn lemma_targets_left_out_do_not_tell(p: Duelists, hp: i16, slot: int)
    requires
        named_after_moves(p.attacker),
        !sensitivity_of(p.attacker).defender,
        !guards_at_full_hp(p.defender),
        0 <= slot < 4,
    ensures
        ({
            let q = Duelists { defender: Pokemon { hp, ..p.defender }, ..p };
            &&& q.attack(slot) == p.attack(slot)
            &&& q.attack_priority(slot) == p.attack_priority(slot)
            &&& p.attacker.moves@[slot].id != Choices::SUPERFANG
            &&& p.attacker.moves@[slot].id != Choices::RUINATION
        }),
{
    assert(p.attacker.moves@[slot].id == p.attacker.moves@[slot].choice.move_id);
    assert(!move_reads_target_hp(p.attacker.moves@[slot].id));
}

} // verus!
