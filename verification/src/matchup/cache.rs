//! A direct-mapped cache of pair results.

use crate::matchup::fingerprint::{
    hp_sensitivity, key_of, pair_key, pair_words, participant_fingerprint, participant_hash,
    sensitivity_of, HpSensitivity,
};
use crate::matchup::pair::{
    answers, computes, fits, hits_to_faint, ordered_pair_uncached, with_hits, DamageFn, Duelists,
    PairResult,
};
use crate::state::{Choice, Pokemon, Side, State};
use vstd::prelude::*;

verus! {

/// How many entries the cache has.
pub const CACHE_SIZE: usize = 65536;

/// A remembered pair: the key it was stored under, zero for none, and its
/// best attack without the hit count.
#[derive(Clone, Copy, Debug, PartialEq, Eq, Structural)]
pub struct CacheEntry {
    pub key: u64,
    pub value: PairResult,
}

/// Fixed-size cache; a new result overwrites the one in its place.
pub struct PairCache {
    entries: Vec<CacheEntry>,
}

impl View for PairCache {
    type V = Seq<CacheEntry>;

    closed spec fn view(&self) -> Seq<CacheEntry> {
        self.entries@
    }
}

/// The place a key is kept in.
pub open spec fn place_of(key: u64) -> int {
    key as int % CACHE_SIZE as int
}

/// The contents of a cache nothing was stored in.
pub open spec fn empty_cache() -> Seq<CacheEntry> {
    Seq::new(CACHE_SIZE as nat, |i: int| CacheEntry { key: 0, value: PairResult::harmless() })
}

/// What looking a pair up gives, and the cache afterwards: the remembered
/// attack if the key is there, else the one worked out by `calc`, which is
/// then remembered. Hits are always counted against the current hit points.
#[verifier::opaque]
pub open spec fn look_up(
    cache: Seq<CacheEntry>,
    key: u64,
    pair: Duelists,
    calc: DamageFn,
) -> (PairResult, Seq<CacheEntry>) {
    let entry = cache[place_of(key)];
    if entry.key == key {
        (counted(entry.value, pair.defender.hp), cache)
    } else {
        let value = pair.best(calc);
        (
            counted(value, pair.defender.hp),
            cache.update(place_of(key), CacheEntry { key, value }),
        )
    }
}

/// A best attack with the hits it needs against `hp`.
pub open spec fn counted(value: PairResult, hp: i16) -> PairResult {
    PairResult { hits: hits_to_faint(value.damage, hp), ..value }
}

impl Duelists {
    /// The key of this pair.
    #[verifier::opaque]
    pub open spec fn key(self) -> u64 {
        key_of(
            pair_words(
                participant_hash(
                    self.state,
                    self.attacking_side,
                    self.attacker,
                    self.attacker_active,
                ),
                participant_hash(
                    self.state,
                    self.defending_side,
                    self.defender,
                    self.defender_active,
                ),
                self.attacker,
                self.defender,
                sensitivity_of(self.attacker),
            ),
        )
    }
}

impl PairCache {
    pub closed spec fn wf(self) -> bool {
        &&& self.entries@.len() == CACHE_SIZE
        &&& forall|i: int|
            0 <= i < CACHE_SIZE ==> (#[trigger] self.entries@[i]).value.wf()
                && self.entries@[i].value.hits is None
    }

    pub fn new() -> (cache: PairCache)
        ensures
            cache.wf(),
            cache@ == empty_cache(),
    {
        let blank = CacheEntry { key: 0, value: PairResult::default() };
        let mut entries: Vec<CacheEntry> = Vec::with_capacity(CACHE_SIZE);
        let mut i: usize = 0;
        while i < CACHE_SIZE
            invariant
                i <= CACHE_SIZE,
                entries@.len() == i,
                blank == (CacheEntry { key: 0, value: PairResult::harmless() }),
                forall|k: int| 0 <= k < i ==> entries@[k] == blank,
            decreases CACHE_SIZE - i,
        {
            entries.push(blank);
            i = i + 1;
        }
        assert(entries@ =~= empty_cache());
        PairCache { entries }
    }
}

/// Looks the pair up under the key that its fingerprints make.
pub fn ordered_pair_keyed<
    F: Fn(&State, &Side, &Pokemon, bool, &Side, &Pokemon, bool, &Choice) -> Option<i16>,
>(
    cache: &mut PairCache,
    state: &State,
    a_side: &Side,
    attacker: &Pokemon,
    a_active: bool,
    d_side: &Side,
    defender: &Pokemon,
    d_active: bool,
    attacker_fingerprint: u64,
    defender_fingerprint: u64,
    sensitivity: HpSensitivity,
    damage_formula: &F,
) -> (r: PairResult)
    requires
        old(cache).wf(),
        a_side.wf(),
        attacker.wf(),
        defender.wf(),
        answers(*damage_formula),
        fits(*damage_formula),
    ensures
        final(cache).wf(),
        r.wf(),
        forall|calc: DamageFn|
            computes(*damage_formula, calc) ==> (r, final(cache)@) == look_up(
                old(cache)@,
                key_of(
                    pair_words(
                        attacker_fingerprint,
                        defender_fingerprint,
                        *attacker,
                        *defender,
                        sensitivity,
                    ),
                ),
                Duelists {
                    state: *state,
                    attacking_side: *a_side,
                    attacker: *attacker,
                    attacker_active: a_active,
                    defending_side: *d_side,
                    defender: *defender,
                    defender_active: d_active,
                },
                calc,
            ),
{
    reveal(look_up);
    let key: u64 = pair_key(
        attacker_fingerprint,
        defender_fingerprint,
        attacker,
        defender,
        sensitivity,
    );
    let slot: usize = (key % (CACHE_SIZE as u64)) as usize;
    let entry = cache.entries[slot];
    assert(cache.entries@[slot as int].value.wf());
    if entry.key == key {
        return with_hits(entry.value, defender.hp);
    }
    let value = ordered_pair_uncached(
        state,
        a_side,
        attacker,
        a_active,
        d_side,
        defender,
        d_active,
        damage_formula,
    );
    cache.entries[slot] = CacheEntry { key, value };
    with_hits(value, defender.hp)
}

/// Looks one pair up, working its fingerprints out first.
pub fn ordered_pair<
    F: Fn(&State, &Side, &Pokemon, bool, &Side, &Pokemon, bool, &Choice) -> Option<i16>,
>(
    cache: &mut PairCache,
    state: &State,
    a_side: &Side,
    attacker: &Pokemon,
    a_active: bool,
    d_side: &Side,
    defender: &Pokemon,
    d_active: bool,
    damage_formula: &F,
) -> (r: PairResult)
    requires
        old(cache).wf(),
        a_side.wf(),
        attacker.wf(),
        defender.wf(),
        answers(*damage_formula),
        fits(*damage_formula),
    ensures
        final(cache).wf(),
        r.wf(),
        forall|calc: DamageFn|
            computes(*damage_formula, calc) ==> (r, final(cache)@) == ({
                let pair = Duelists {
                    state: *state,
                    attacking_side: *a_side,
                    attacker: *attacker,
                    attacker_active: a_active,
                    defending_side: *d_side,
                    defender: *defender,
                    defender_active: d_active,
                };
                look_up(old(cache)@, pair.key(), pair, calc)
            }),
{
    reveal(Duelists::key);
    let attacker_fingerprint: u64 = participant_fingerprint(state, a_side, attacker, a_active);
    let defender_fingerprint: u64 = participant_fingerprint(state, d_side, defender, d_active);
    ordered_pair_keyed(
        cache,
        state,
        a_side,
        attacker,
        a_active,
        d_side,
        defender,
        d_active,
        attacker_fingerprint,
        defender_fingerprint,
        hp_sensitivity(attacker),
        damage_formula,
    )
}

/// No two pairs of `world` that share a key have different best attacks.
pub open spec fn collision_free(world: spec_fn(Duelists) -> bool, calc: DamageFn) -> bool {
    forall|p: Duelists, q: Duelists|
        world(p) && world(q) && #[trigger] p.key() == #[trigger] q.key() ==> p.best(calc) == q.best(
            calc,
        )
}

/// Every remembered attack is the best attack of each pair of `world` that
/// has its key.
pub open spec fn truthful(
    cache: Seq<CacheEntry>,
    world: spec_fn(Duelists) -> bool,
    calc: DamageFn,
) -> bool {
    &&& cache.len() == CACHE_SIZE
    &&& forall|p: Duelists|
        world(p) && cache[place_of(#[trigger] p.key())].key == p.key()
            ==> cache[place_of(p.key())].value == p.best(calc)
}

/// The empty cache claims nothing, so it is truthful.
pub proof fn lemma_empty_cache_is_truthful(world: spec_fn(Duelists) -> bool, calc: DamageFn)
    ensures
        truthful(empty_cache(), world, calc),
{
    reveal(Duelists::key);
    assert forall|p: Duelists|
        world(p) && empty_cache()[place_of(#[trigger] p.key())].key == p.key() implies empty_cache()[
    place_of(p.key())].value == p.best(calc) by {
        assert(0 <= place_of(p.key()) < CACHE_SIZE);
    }
}

/// Cached and uncached pairs match: as long as no two pairs met share a key
/// without sharing their best attack, a look-up gives what working the pair
/// out gives, and the cache stays truthful.
pub proof fn lemma_cached_pair_matches_uncached(
    cache: Seq<CacheEntry>,
    world: spec_fn(Duelists) -> bool,
    pair: Duelists,
    calc: DamageFn,
)
    requires
        truthful(cache, world, calc),
        collision_free(world, calc),
        world(pair),
    ensures
        look_up(cache, pair.key(), pair, calc).0 == counted(pair.best(calc), pair.defender.hp),
        truthful(look_up(cache, pair.key(), pair, calc).1, world, calc),
{
    reveal(look_up);
    let place = place_of(pair.key());
    assert(0 <= place < CACHE_SIZE);
    let after = look_up(cache, pair.key(), pair, calc).1;
    if cache[place].key != pair.key() {
        assert forall|p: Duelists|
            world(p) && after[place_of(#[trigger] p.key())].key == p.key() implies after[place_of(
            p.key(),
        )].value == p.best(calc) by {
            assert(0 <= place_of(p.key()) < CACHE_SIZE);
            if place_of(p.key()) == place {
                assert(p.key() == pair.key());
            } else {
                assert(after[place_of(p.key())] == cache[place_of(p.key())]);
            }
        }
    }
}

} // verus!
