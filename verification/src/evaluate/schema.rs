//! The names of the features and the identifier of their order.

use crate::text::{append_hexadecimal, hexadecimal, same};
use vstd::prelude::*;
use vstd::string::StringExecFns;
use vstd::utf8::encode_utf8;

verus! {

pub const NUM_EVAL_FEATURES: usize = 36;

/// The start of the hash.
pub const FNV_OFFSET: u64 = 0xcbf29ce484222325;

/// What each step of the hash multiplies by.
pub const FNV_PRIME: u64 = 0x100000001b3;

/// The byte that closes a name; it occurs in no UTF-8 text.
pub const NAME_END: u8 = 0xff;

pub const EVAL_FEATURE_NAMES: [&'static str; 36] = [
    "POKEMON_ALIVE",
    "POKEMON_HP",
    "POKEMON_ITEM",
    "POKEMON_FROZEN",
    "POKEMON_ASLEEP",
    "POKEMON_PARALYZED",
    "POKEMON_TOXIC",
    "POKEMON_POISONED",
    "POKEMON_BURNED",
    "POISON_HEAL",
    "STATUS_ABILITY_BONUS",
    "POKEMON_ATTACK_BOOST",
    "POKEMON_DEFENSE_BOOST",
    "POKEMON_SPECIAL_ATTACK_BOOST",
    "POKEMON_SPECIAL_DEFENSE_BOOST",
    "POKEMON_SPEED_BOOST",
    "LEECH_SEED",
    "SUBSTITUTE",
    "CONFUSION",
    "REFLECT",
    "LIGHT_SCREEN",
    "AURORA_VEIL",
    "SAFE_GUARD",
    "TAILWIND",
    "HEALING_WISH",
    "STEALTH_ROCK",
    "SPIKES",
    "TOXIC_SPIKES",
    "STICKY_WEB",
    "USED_TERA",
    "REVENGE_COVERAGE",
    "THREAT_BREADTH",
    "WINCON",
    "UNANSWERED",
    "ACTIVE_DUEL",
    "PIVOT_PRESSURE",
];

/// The hash with the next byte mixed in.
pub open spec fn fnv_step(hash: u64, byte: u8) -> u64 {
    (hash ^ (byte as u64)).wrapping_mul(FNV_PRIME)
}

/// The hash with all of `bytes` mixed in.
pub open spec fn fnv_bytes(hash: u64, bytes: Seq<u8>) -> u64
    decreases bytes.len(),
{
    if bytes.len() == 0 {
        hash
    } else {
        fnv_step(fnv_bytes(hash, bytes.drop_last()), bytes.last())
    }
}

/// The hash of the first `n` names, each closed by a byte that no name holds.
pub open spec fn names_hash(n: int) -> u64
    decreases n,
{
    if n <= 0 {
        FNV_OFFSET
    } else {
        fnv_step(
            fnv_bytes(names_hash(n - 1), encode_utf8(EVAL_FEATURE_NAMES@[n - 1]@)),
            NAME_END,
        )
    }
}

/// The identifier of the feature order, as text.
pub open spec fn feature_schema() -> Seq<char> {
    "fnv1a64:"@ + hexadecimal(names_hash(NUM_EVAL_FEATURES as int) as nat, 16)
}

/// Stable identifier for the positional feature vector written to trajectory
/// dumps. It changes if a feature name or its position changes.
pub fn eval_feature_schema() -> (r: String)
    ensures
        r@ == feature_schema(),
{
    let mut hash: u64 = FNV_OFFSET;
    let mut i: usize = 0;
    while i < NUM_EVAL_FEATURES
        invariant
            i <= NUM_EVAL_FEATURES,
            hash == names_hash(i as int),
        decreases NUM_EVAL_FEATURES - i,
    {
        let bytes = EVAL_FEATURE_NAMES[i].as_bytes();
        let ghost start = hash;
        let mut j: usize = 0;
        assert(bytes@.take(0) =~= Seq::<u8>::empty());
        while j < bytes.len()
            invariant
                j <= bytes.len(),
                hash == fnv_bytes(start, bytes@.take(j as int)),
            decreases bytes.len() - j,
        {
            hash = (hash ^ (bytes[j] as u64)).wrapping_mul(FNV_PRIME);
            assert(bytes@.take(j + 1).drop_last() =~= bytes@.take(j as int));
            j = j + 1;
        }
        assert(bytes@.take(bytes.len() as int) =~= bytes@);
        hash = (hash ^ (NAME_END as u64)).wrapping_mul(FNV_PRIME);
        i = i + 1;
    }
    let mut r = String::new();
    r.append("fnv1a64:");
    append_hexadecimal(&mut r, hash, 16);
    assert(r@ =~= feature_schema());
    r
}

/// The first position of a name, from position `i` on.
pub open spec fn position_from(name: Seq<char>, i: int) -> Option<int>
    decreases NUM_EVAL_FEATURES - i,
{
    if i >= NUM_EVAL_FEATURES {
        None
    } else if EVAL_FEATURE_NAMES@[i]@ == name {
        Some(i)
    } else {
        position_from(name, i + 1)
    }
}

/// The position of a feature name, if it is one.
pub open spec fn name_position(name: Seq<char>) -> Option<int> {
    position_from(name, 0)
}

/// A name has the position that it is listed at.
pub proof fn lemma_name_position(name: Seq<char>)
    ensures
        name_position(name) matches Some(i) ==> 0 <= i < NUM_EVAL_FEATURES
            && EVAL_FEATURE_NAMES@[i]@ == name,
        name_position(name) is None ==> forall|i: int|
            0 <= i < NUM_EVAL_FEATURES ==> #[trigger] EVAL_FEATURE_NAMES@[i]@ != name,
{
    lemma_position_from(name, 0);
}

proof fn lemma_position_from(name: Seq<char>, from: int)
    requires
        0 <= from <= NUM_EVAL_FEATURES,
    ensures
        position_from(name, from) matches Some(i) ==> from <= i < NUM_EVAL_FEATURES
            && EVAL_FEATURE_NAMES@[i]@ == name,
        position_from(name, from) is None ==> forall|i: int|
            from <= i < NUM_EVAL_FEATURES ==> #[trigger] EVAL_FEATURE_NAMES@[i]@ != name,
    decreases NUM_EVAL_FEATURES - from,
{
    if from < NUM_EVAL_FEATURES {
        lemma_position_from(name, from + 1);
    }
}

pub fn find_name(name: &Vec<char>) -> (r: Option<usize>)
    ensures
        match r {
            Some(i) => name_position(name@) == Some(i as int) && i < NUM_EVAL_FEATURES,
            None => name_position(name@) is None,
        },
{
    let mut i: usize = 0;
    while i < NUM_EVAL_FEATURES
        invariant
            i <= NUM_EVAL_FEATURES,
            name_position(name@) == position_from(name@, i as int),
        decreases NUM_EVAL_FEATURES - i,
    {
        if same(name, EVAL_FEATURE_NAMES[i]) {
            return Some(i);
        }
        i = i + 1;
    }
    None
}

} // verus!
