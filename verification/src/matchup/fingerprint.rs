//! Cache keys: a 64-bit hash of everything a pair's best attack depends on.

use crate::state::{Abilities, Choices, Move, Pokemon, Side, State};
use vstd::prelude::*;

verus! {

/// The hash of no words at all.
pub const HASH_START: u64 = 0xcbf29ce484222325;

/// The multiplier of the hash.
pub const HASH_PRIME: u64 = 0x100000001b3;

/// One step of the hash.
#[verifier::opaque]
pub open spec fn mixed(hash: u64, value: u64) -> u64 {
    (hash ^ value).wrapping_mul(HASH_PRIME)
}

/// The hash of a list of words.
pub open spec fn hash_of(words: Seq<u64>) -> u64
    decreases words.len(),
{
    if words.len() == 0 {
        HASH_START
    } else {
        mixed(hash_of(words.drop_last()), words.last())
    }
}

/// Takes one more word into the hash.
pub fn mix(hash: &mut u64, value: u64)
    ensures
        *final(hash) == mixed(*old(hash), value),
{
    reveal(mixed);
    *hash = (*hash ^ value).wrapping_mul(HASH_PRIME);
}

/// A hash and the words that went into it.
struct Digest {
    hash: u64,
    words: Ghost<Seq<u64>>,
}

impl Digest {
    spec fn wf(self) -> bool {
        self.hash == hash_of(self.words@)
    }

    fn new() -> (d: Digest)
        ensures
            d.wf(),
            d.words@ == Seq::<u64>::empty(),
    {
        Digest { hash: HASH_START, words: Ghost(Seq::empty()) }
    }

    fn take(&mut self, value: u64)
        requires
            old(self).wf(),
        ensures
            final(self).wf(),
            final(self).words@ == old(self).words@.push(value),
    {
        mix(&mut self.hash, value);
        proof {
            assert(self.words@.push(value).drop_last() =~= self.words@);
            self.words@ = self.words@.push(value);
        }
    }
}

/// A truth value as a word.
pub open spec fn flag(b: bool) -> u64 {
    if b {
        1
    } else {
        0
    }
}

fn flag_word(b: bool) -> (r: u64)
    ensures
        r == flag(b),
{
    if b {
        1
    } else {
        0
    }
}

/// The words of the Pokemon itself, moves apart.
pub open spec fn push_body(w: Seq<u64>, p: Pokemon) -> Seq<u64> {
    w.push(p.id as u64).push(p.level as u64).push(p.types.0.index_spec() as u64).push(
        p.types.1.index_spec() as u64,
    ).push(p.maxhp as u64).push(p.ability.number()).push(p.item.number()).push(
        p.attack as u64,
    ).push(p.defense as u64).push(p.special_attack as u64).push(p.special_defense as u64).push(
        p.speed as u64,
    ).push(p.status.number()).push(p.weight_kg.bits as u64).push(flag(p.terastallized)).push(
        p.tera_type.index_spec() as u64,
    )
}

/// The words of the first `n` moves.
pub open spec fn push_moves(w: Seq<u64>, moves: Seq<Move>, n: int) -> Seq<u64>
    decreases n,
{
    if n <= 0 {
        w
    } else {
        push_moves(w, moves, n - 1).push(moves[n - 1].id.number()).push(moves[n - 1].pp as u64).push(
            flag(moves[n - 1].disabled),
        )
    }
}

/// The words of what an active Pokemon carries: its stages and conditions.
pub open spec fn push_active(w: Seq<u64>, side: Side, active: bool) -> Seq<u64> {
    let marked = w.push(flag(active));
    if active {
        marked.push(side.attack_boost as u64).push(side.defense_boost as u64).push(
            side.special_attack_boost as u64,
        ).push(side.special_defense_boost as u64).push(side.speed_boost as u64).push(
            side.volatile_statuses.0 as u64,
        ).push((side.volatile_statuses.0 >> 64) as u64)
    } else {
        marked
    }
}

/// The words of the side and the field.
pub open spec fn push_surroundings(w: Seq<u64>, state: State, side: Side) -> Seq<u64> {
    w.push(side.side_conditions.reflect as u64).push(side.side_conditions.light_screen as u64).push(
        side.side_conditions.aurora_veil as u64,
    ).push(side.side_conditions.tailwind as u64).push(side.fainted() as u64).push(
        state.weather_type.number(),
    ).push(state.weather_turns_remaining as u64).push(state.terrain_type.number()).push(
        state.terrain_turns_remaining as u64,
    )
}

/// Everything about one participant that a pair's result can depend on, its
/// current hit points apart.
pub open spec fn participant_words(
    state: State,
    side: Side,
    pokemon: Pokemon,
    active: bool,
) -> Seq<u64> {
    push_surroundings(
        push_active(push_moves(push_body(seq![], pokemon), pokemon.moves@, 4), side, active),
        state,
        side,
    )
}

/// The hash of a participant.
pub open spec fn participant_hash(state: State, side: Side, pokemon: Pokemon, active: bool) -> u64 {
    hash_of(participant_words(state, side, pokemon, active))
}

pub fn participant_fingerprint(state: &State, side: &Side, pokemon: &Pokemon, active: bool) -> (r:
    u64)
    ensures
        r == participant_hash(*state, *side, *pokemon, active),
{
    let mut d = Digest::new();
    d.take(pokemon.id as u64);
    d.take(pokemon.level as u64);
    d.take(pokemon.types.0.index() as u64);
    d.take(pokemon.types.1.index() as u64);
    d.take(pokemon.maxhp as u64);
    d.take(pokemon.ability.code());
    d.take(pokemon.item.code());
    d.take(pokemon.attack as u64);
    d.take(pokemon.defense as u64);
    d.take(pokemon.special_attack as u64);
    d.take(pokemon.special_defense as u64);
    d.take(pokemon.speed as u64);
    d.take(pokemon.status.code());
    d.take(pokemon.weight_kg.bits as u64);
    d.take(flag_word(pokemon.terastallized));
    d.take(pokemon.tera_type.index() as u64);
    let ghost body = push_body(seq![], *pokemon);
    assert(d.words@ == body);
    let mut m: usize = 0;
    while m < 4
        invariant
            m <= 4,
            d.wf(),
            d.words@ == push_moves(body, pokemon.moves@, m as int),
        decreases 4 - m,
    {
        let mv = &pokemon.moves[m];
        d.take(mv.id.code());
        d.take(mv.pp as u64);
        d.take(flag_word(mv.disabled));
        m = m + 1;
    }
    d.take(flag_word(active));
    if active {
        d.take(side.attack_boost as u64);
        d.take(side.defense_boost as u64);
        d.take(side.special_attack_boost as u64);
        d.take(side.special_defense_boost as u64);
        d.take(side.speed_boost as u64);
        d.take(
            #[verifier::truncate]
            (side.volatile_statuses.0 as u64),
        );
        d.take(
            #[verifier::truncate]
            ((side.volatile_statuses.0 >> 64) as u64),
        );
    }
    d.take(side.side_conditions.reflect as u64);
    d.take(side.side_conditions.light_screen as u64);
    d.take(side.side_conditions.aurora_veil as u64);
    d.take(side.side_conditions.tailwind as u64);
    d.take(side.count_fainted() as u64);
    d.take(state.weather_type.code());
    d.take(state.weather_turns_remaining as u64);
    d.take(state.terrain_type.code());
    d.take(state.terrain_turns_remaining as u64);
    d.hash
}

/// Which current hit points an attacker's moves look at.
#[derive(Clone, Copy, Debug, PartialEq, Eq, Structural)]
pub struct HpSensitivity {
    pub attacker: bool,
    pub defender: bool,
}

impl Default for HpSensitivity {
    fn default() -> (r: HpSensitivity)
        ensures
            r == (HpSensitivity { attacker: false, defender: false }),
    {
        HpSensitivity { attacker: false, defender: false }
    }
}

/// Whether the ability acts on its owner's hit points when attacking.
pub open spec fn ability_reads_own_hp(ability: Abilities) -> bool {
    match ability {
        Abilities::BLAZE | Abilities::TORRENT | Abilities::OVERGROW | Abilities::SWARM
        | Abilities::GALEWINGS => true,
        _ => false,
    }
}

/// Whether the move's power depends on its user's hit points.
pub open spec fn move_reads_user_hp(id: Choices) -> bool {
    match id {
        Choices::REVERSAL | Choices::FLAIL | Choices::WATERSPOUT | Choices::ERUPTION => true,
        _ => false,
    }
}

/// Whether the move's damage depends on its target's hit points.
pub open spec fn move_reads_target_hp(id: Choices) -> bool {
    match id {
        Choices::HARDPRESS | Choices::BRINE | Choices::SUPERFANG | Choices::RUINATION => true,
        _ => false,
    }
}

/// Which hit points the attacks of `p` look at.
pub open spec fn sensitivity_of(p: Pokemon) -> HpSensitivity {
    HpSensitivity {
        attacker: ability_reads_own_hp(p.ability) || exists|m: int|
            0 <= m < 4 && move_reads_user_hp((#[trigger] p.moves@[m]).id),
        defender: exists|m: int| 0 <= m < 4 && move_reads_target_hp((#[trigger] p.moves@[m]).id),
    }
}

pub fn hp_sensitivity(pokemon: &Pokemon) -> (r: HpSensitivity)
    ensures
        r == sensitivity_of(*pokemon),
{
    let mut result = HpSensitivity {
        attacker: match pokemon.ability {
            Abilities::BLAZE | Abilities::TORRENT | Abilities::OVERGROW | Abilities::SWARM
            | Abilities::GALEWINGS => true,
            _ => false,
        },
        defender: false,
    };
    let mut m: usize = 0;
    while m < 4
        invariant
            m <= 4,
            result.attacker == (ability_reads_own_hp(pokemon.ability) || exists|k: int|
                0 <= k < m && move_reads_user_hp((#[trigger] pokemon.moves@[k]).id)),
            result.defender == (exists|k: int|
                0 <= k < m && move_reads_target_hp((#[trigger] pokemon.moves@[k]).id)),
        decreases 4 - m,
    {
        let id = pokemon.moves[m].id;
        assert(pokemon.moves@[m as int].id == id);
        let by_user = match id {
            Choices::REVERSAL | Choices::FLAIL | Choices::WATERSPOUT | Choices::ERUPTION => true,
            _ => false,
        };
        let by_target = match id {
            Choices::HARDPRESS | Choices::BRINE | Choices::SUPERFANG | Choices::RUINATION => true,
            _ => false,
        };
        result.attacker = result.attacker || by_user;
        result.defender = result.defender || by_target;
        m = m + 1;
    }
    result
}

/// Whether the defender's ability looks at its own hit points.
pub open spec fn guards_at_full_hp(p: Pokemon) -> bool {
    p.ability == Abilities::MULTISCALE || p.ability == Abilities::SHADOWSHIELD
}

pub fn hp_sensitive_defender(pokemon: &Pokemon) -> (r: bool)
    ensures
        r == guards_at_full_hp(*pokemon),
{
    match pokemon.ability {
        Abilities::MULTISCALE | Abilities::SHADOWSHIELD => true,
        _ => false,
    }
}

/// The words of a pair: both participants, and the hit points that matter.
pub open spec fn pair_words(
    attacker_fingerprint: u64,
    defender_fingerprint: u64,
    attacker: Pokemon,
    defender: Pokemon,
    sensitivity: HpSensitivity,
) -> Seq<u64> {
    let both = seq![attacker_fingerprint, defender_fingerprint];
    let with_user = if sensitivity.attacker {
        both.push(attacker.hp as u64)
    } else {
        both
    };
    if sensitivity.defender || guards_at_full_hp(defender) {
        with_user.push(defender.hp as u64)
    } else {
        with_user
    }
}

/// The key of a pair: the hash of its words, never zero.
pub open spec fn key_of(words: Seq<u64>) -> u64 {
    if hash_of(words) == 0 {
        1
    } else {
        hash_of(words)
    }
}

pub fn pair_key(
    attacker_fingerprint: u64,
    defender_fingerprint: u64,
    attacker: &Pokemon,
    defender: &Pokemon,
    sensitivity: HpSensitivity,
) -> (r: u64)
    ensures
        r == key_of(
            pair_words(
                attacker_fingerprint,
                defender_fingerprint,
                *attacker,
                *defender,
                sensitivity,
            ),
        ),
        r != 0,
{
    let mut d = Digest::new();
    d.take(attacker_fingerprint);
    d.take(defender_fingerprint);
    if sensitivity.attacker {
        d.take(attacker.hp as u64);
    }
    if sensitivity.defender || hp_sensitive_defender(defender) {
        d.take(defender.hp as u64);
    }
    assert(d.words@ =~= pair_words(
        attacker_fingerprint,
        defender_fingerprint,
        *attacker,
        *defender,
        sensitivity,
    ));
    if d.hash == 0 {
        1
    } else {
        d.hash
    }
}

/// A step of the hash loses nothing: with one of its two arguments fixed, it
/// maps different values of the other to different hashes.
pub proof fn lemma_mixed_is_injective(h1: u64, h2: u64, v1: u64, v2: u64)
    requires
        mixed(h1, v1) == mixed(h2, v2),
    ensures
        h1 ^ v1 == h2 ^ v2,
        h1 == h2 ==> v1 == v2,
        v1 == v2 ==> h1 == h2,
{
    reveal(mixed);
    let x = h1 ^ v1;
    let y = h2 ^ v2;
    lemma_prime_is_invertible(x);
    lemma_prime_is_invertible(y);
    assert(h1 == h2 && h1 ^ v1 == h2 ^ v2 ==> v1 == v2) by (bit_vector);
    assert(v1 == v2 && h1 ^ v1 == h2 ^ v2 ==> h1 == h2) by (bit_vector);
}

/// The inverse of the multiplier modulo 2^64.
const HASH_PRIME_INVERSE: u64 = 0xce965057aff6957b;

proof fn lemma_prime_is_invertible(x: u64)
    ensures
        x.wrapping_mul(HASH_PRIME).wrapping_mul(HASH_PRIME_INVERSE) == x,
{
    let m: int = 0x1_0000_0000_0000_0000;
    let p = HASH_PRIME as int;
    let q = HASH_PRIME_INVERSE as int;
    assert((p * q) % m == 1);
    vstd::arithmetic::div_mod::lemma_mul_mod_noop_left(x as int * p, q, m);
    vstd::arithmetic::mul::lemma_mul_is_associative(x as int, p, q);
    vstd::arithmetic::div_mod::lemma_mul_mod_noop_right(x as int, p * q, m);
    assert(x as int % m == x);
}

/// Two lists of words of one length that differ in a single place have
/// different hashes: a change of any one tracked number changes the key.
pub proof fn lemma_hash_tracks_every_word(a: Seq<u64>, b: Seq<u64>, place: int)
    requires
        a.len() == b.len(),
        0 <= place < a.len(),
        a[place] != b[place],
        forall|i: int| 0 <= i < a.len() && i != place ==> a[i] == b[i],
    ensures
        hash_of(a) != hash_of(b),
    decreases a.len(),
{
    if place == a.len() - 1 {
        assert(a.drop_last() =~= b.drop_last());
        if hash_of(a) == hash_of(b) {
            lemma_mixed_is_injective(
                hash_of(a.drop_last()),
                hash_of(b.drop_last()),
                a.last(),
                b.last(),
            );
        }
    } else {
        lemma_hash_tracks_every_word(a.drop_last(), b.drop_last(), place);
        if hash_of(a) == hash_of(b) {
            lemma_mixed_is_injective(
                hash_of(a.drop_last()),
                hash_of(b.drop_last()),
                a.last(),
                b.last(),
            );
        }
    }
}

} // verus!
