//! The battle position as the search reads it: two sides of six Pokemon, the
//! field, and the move data the matchup kernel needs.

use crate::float32::Float32;
use crate::ratio::Ratio;
use vstd::prelude::*;

verus! {

/// How many Pokemon a side has.
pub const TEAM_SIZE: usize = 6;

/// How many elemental types there are, the typeless one and Stellar included.
pub const NUM_TYPES: usize = 20;

/// The ability a Pokemon has. Abilities that no rule here looks at are
/// `OTHER`, told apart by number.
#[derive(Clone, Copy, Debug, PartialEq, Eq, Structural)]
pub enum Abilities {
    NONE,
    ADAPTABILITY,
    AERILATE,
    BEADSOFRUIN,
    BLAZE,
    CHLOROPHYLL,
    DRYSKIN,
    EARTHEATER,
    FILTER,
    FLASHFIRE,
    FLUFFY,
    FURCOAT,
    GALEWINGS,
    GALVANIZE,
    GUTS,
    HEATPROOF,
    HUGEPOWER,
    ICESCALES,
    IRONFIST,
    LEVITATE,
    LIGHTNINGROD,
    LIQUIDVOICE,
    MAGICGUARD,
    MARVELSCALE,
    MEGALAUNCHER,
    MOLDBREAKER,
    MOTORDRIVE,
    MULTISCALE,
    OVERGROW,
    PIXILATE,
    POISONHEAL,
    PRISMARMOR,
    PUREPOWER,
    QUICKFEET,
    REFRIGERATE,
    SANDRUSH,
    SAPSIPPER,
    SHADOWSHIELD,
    SHARPNESS,
    SKILLLINK,
    SLUSHRUSH,
    SOLIDROCK,
    STORMDRAIN,
    STRONGJAW,
    SUPREMEOVERLORD,
    SURGESURFER,
    SWARM,
    SWIFTSWIM,
    SWORDOFRUIN,
    TABLETSOFRUIN,
    TECHNICIAN,
    THICKFAT,
    TINTEDLENS,
    TORRENT,
    TOUGHCLAWS,
    TOXICBOOST,
    VESSELOFRUIN,
    VOLTABSORB,
    WATERABSORB,
    WONDERGUARD,
    OTHER(u16),
}

/// The item a Pokemon holds. Items that no rule here looks at are `OTHER`,
/// told apart by number.
#[derive(Clone, Copy, Debug, PartialEq, Eq, Structural)]
pub enum Items {
    NONE,
    ASSAULTVEST,
    CHOICEBAND,
    CHOICESCARF,
    CHOICESPECS,
    CORNERSTONEMASK,
    EVIOLITE,
    EXPERTBELT,
    HEARTHFLAMEMASK,
    HEAVYDUTYBOOTS,
    IRONBALL,
    LIFEORB,
    LOADEDDICE,
    MUSCLEBAND,
    WELLSPRINGMASK,
    WIDELENS,
    WISEGLASSES,
    OTHER(u16),
}

/// The move a choice stands for. Moves that no rule here looks at are
/// `OTHER`, told apart by number.
#[derive(Clone, Copy, Debug, PartialEq, Eq, Structural)]
pub enum Choices {
    NONE,
    ACROBATICS,
    BRINE,
    ERUPTION,
    FACADE,
    FLAIL,
    GRASSKNOT,
    GRASSYGLIDE,
    HARDPRESS,
    HEATCRASH,
    HEAVYSLAM,
    HEX,
    IVYCUDGEL,
    KNOCKOFF,
    LASTRESPECTS,
    LOWKICK,
    NIGHTSHADE,
    RAGINGBULL,
    REVERSAL,
    RUINATION,
    SEISMICTOSS,
    STOREDPOWER,
    SUPERFANG,
    TERABLAST,
    THOUSANDARROWS,
    WATERSPOUT,
    WEATHERBALL,
    OTHER(u16),
}

#[derive(Clone, Copy, Debug, PartialEq, Eq, Structural)]
pub enum PokemonType {
    NORMAL,
    FIRE,
    WATER,
    ELECTRIC,
    GRASS,
    ICE,
    FIGHTING,
    POISON,
    GROUND,
    FLYING,
    PSYCHIC,
    BUG,
    ROCK,
    GHOST,
    DRAGON,
    DARK,
    STEEL,
    FAIRY,
    STELLAR,
    TYPELESS,
}

#[derive(Clone, Copy, Debug, PartialEq, Eq, Structural)]
pub enum PokemonStatus {
    NONE,
    BURN,
    SLEEP,
    FREEZE,
    PARALYZE,
    POISON,
    TOXIC,
}

#[derive(Clone, Copy, Debug, PartialEq, Eq, Structural)]
pub enum MoveCategory {
    Physical,
    Special,
    Status,
    Switch,
}

#[derive(Clone, Copy, Debug, PartialEq, Eq, Structural)]
pub enum MultiHitMove {
    SingleHit,
    DoubleHit,
    TripleHit,
    TwoToFiveHits,
    PopulationBomb,
    TripleAxel,
}

#[derive(Clone, Copy, Debug, PartialEq, Eq, Structural)]
pub enum MoveTarget {
    User,
    Opponent,
}

#[derive(Clone, Copy, Debug, PartialEq, Eq, Structural)]
pub enum Weather {
    NONE,
    SUN,
    RAIN,
    SAND,
    HAIL,
    SNOW,
    HARSHSUN,
    HEAVYRAIN,
}

#[derive(Clone, Copy, Debug, PartialEq, Eq, Structural)]
pub enum Terrain {
    NONE,
    ELECTRICTERRAIN,
    PSYCHICTERRAIN,
    MISTYTERRAIN,
    GRASSYTERRAIN,
}

/// The rules generation. Only the speed loss under paralysis depends on it.
#[derive(Clone, Copy, Debug, PartialEq, Eq, Structural)]
pub enum Generation {
    Gen3,
    Gen4,
    Gen5,
    Gen6,
    Gen7,
    Gen8,
    Gen9,
}

/// The conditions on an active Pokemon that are looked at here.
#[derive(Clone, Copy, Debug, PartialEq, Eq, Structural)]
pub enum PokemonVolatileStatus {
    CONFUSION,
    LEECHSEED,
    PROTOSYNTHESISSPE,
    QUARKDRIVESPE,
    SLOWSTART,
    SUBSTITUTE,
    UNBURDEN,
}

/// What a move is made of, as far as damage rules ask.
#[derive(Clone, Copy, Debug, PartialEq, Eq, Structural)]
pub struct Flags {
    pub bite: bool,
    pub contact: bool,
    pub pulse: bool,
    pub punch: bool,
    pub slicing: bool,
    pub sound: bool,
}

/// A move as it is about to be used.
#[derive(Clone, Copy, Debug, PartialEq, Eq, Structural)]
pub struct Choice {
    pub move_id: Choices,
    pub move_index: u8,
    pub move_type: PokemonType,
    /// Accuracy in percent.
    pub accuracy: u8,
    pub category: MoveCategory,
    pub base_power: Ratio,
    pub priority: i8,
    pub flags: Flags,
    pub target: MoveTarget,
    pub multi_hit: MultiHitMove,
    pub first_move: bool,
}

/// One of a Pokemon's four move slots.
#[derive(Clone, Copy, Debug, PartialEq, Eq, Structural)]
pub struct Move {
    pub id: Choices,
    pub pp: i8,
    pub disabled: bool,
    pub choice: Choice,
}

#[derive(Clone, Copy, Debug)]
pub struct Pokemon {
    pub id: u16,
    pub level: i8,
    pub types: (PokemonType, PokemonType),
    pub hp: i16,
    pub maxhp: i16,
    pub ability: Abilities,
    pub item: Items,
    pub attack: i16,
    pub defense: i16,
    pub special_attack: i16,
    pub special_defense: i16,
    pub speed: i16,
    pub status: PokemonStatus,
    /// Weight in kilograms.
    pub weight_kg: Float32,
    pub terastallized: bool,
    pub tera_type: PokemonType,
    pub moves: [Move; 4],
    /// Whether the Pokemon touches the ground.
    pub grounded: bool,
    /// How hard each attacking type hits, in quarters: 4 is neutral.
    pub effectiveness: [u8; 20],
}

/// The active Pokemon's conditions, one bit each.
#[derive(Clone, Copy, Debug, PartialEq, Eq, Structural)]
pub struct VolatileStatuses(pub u128);

#[derive(Clone, Copy, Debug, PartialEq, Eq, Structural)]
pub struct SideConditions {
    pub aurora_veil: i8,
    pub healing_wish: i8,
    pub light_screen: i8,
    pub reflect: i8,
    pub safeguard: i8,
    pub spikes: i8,
    pub stealth_rock: i8,
    pub sticky_web: i8,
    pub tailwind: i8,
    pub toxic_spikes: i8,
}

#[derive(Clone, Copy, Debug)]
pub struct Side {
    pub active_index: usize,
    pub pokemon: [Pokemon; 6],
    pub side_conditions: SideConditions,
    pub volatile_statuses: VolatileStatuses,
    pub attack_boost: i8,
    pub defense_boost: i8,
    pub special_attack_boost: i8,
    pub special_defense_boost: i8,
    pub speed_boost: i8,
}

#[derive(Clone, Copy, Debug)]
pub struct State {
    pub side_one: Side,
    pub side_two: Side,
    pub weather_type: Weather,
    pub weather_turns_remaining: i8,
    pub terrain_type: Terrain,
    pub terrain_turns_remaining: i8,
    pub trick_room_active: bool,
    pub generation: Generation,
}

impl PokemonType {
    /// The place of this type in a table indexed by type.
    pub open spec fn index_spec(self) -> int {
        match self {
            PokemonType::NORMAL => 0,
            PokemonType::FIRE => 1,
            PokemonType::WATER => 2,
            PokemonType::ELECTRIC => 3,
            PokemonType::GRASS => 4,
            PokemonType::ICE => 5,
            PokemonType::FIGHTING => 6,
            PokemonType::POISON => 7,
            PokemonType::GROUND => 8,
            PokemonType::FLYING => 9,
            PokemonType::PSYCHIC => 10,
            PokemonType::BUG => 11,
            PokemonType::ROCK => 12,
            PokemonType::GHOST => 13,
            PokemonType::DRAGON => 14,
            PokemonType::DARK => 15,
            PokemonType::STEEL => 16,
            PokemonType::FAIRY => 17,
            PokemonType::STELLAR => 18,
            PokemonType::TYPELESS => 19,
        }
    }

    pub fn index(self) -> (r: usize)
        ensures
            r == self.index_spec(),
            r < NUM_TYPES,
    {
        match self {
            PokemonType::NORMAL => 0,
            PokemonType::FIRE => 1,
            PokemonType::WATER => 2,
            PokemonType::ELECTRIC => 3,
            PokemonType::GRASS => 4,
            PokemonType::ICE => 5,
            PokemonType::FIGHTING => 6,
            PokemonType::POISON => 7,
            PokemonType::GROUND => 8,
            PokemonType::FLYING => 9,
            PokemonType::PSYCHIC => 10,
            PokemonType::BUG => 11,
            PokemonType::ROCK => 12,
            PokemonType::GHOST => 13,
            PokemonType::DRAGON => 14,
            PokemonType::DARK => 15,
            PokemonType::STEEL => 16,
            PokemonType::FAIRY => 17,
            PokemonType::STELLAR => 18,
            PokemonType::TYPELESS => 19,
        }
    }
}

impl PokemonVolatileStatus {
    /// The bit that stands for this condition.
    pub open spec fn bit(self) -> u128 {
        match self {
            PokemonVolatileStatus::CONFUSION => 1,
            PokemonVolatileStatus::LEECHSEED => 2,
            PokemonVolatileStatus::PROTOSYNTHESISSPE => 4,
            PokemonVolatileStatus::QUARKDRIVESPE => 8,
            PokemonVolatileStatus::SLOWSTART => 16,
            PokemonVolatileStatus::SUBSTITUTE => 32,
            PokemonVolatileStatus::UNBURDEN => 64,
        }
    }

    pub fn mask(self) -> (r: u128)
        ensures
            r == self.bit(),
    {
        match self {
            PokemonVolatileStatus::CONFUSION => 1,
            PokemonVolatileStatus::LEECHSEED => 2,
            PokemonVolatileStatus::PROTOSYNTHESISSPE => 4,
            PokemonVolatileStatus::QUARKDRIVESPE => 8,
            PokemonVolatileStatus::SLOWSTART => 16,
            PokemonVolatileStatus::SUBSTITUTE => 32,
            PokemonVolatileStatus::UNBURDEN => 64,
        }
    }
}

impl VolatileStatuses {
    /// Whether the condition is on.
    pub open spec fn has(self, status: PokemonVolatileStatus) -> bool {
        self.0 & status.bit() != 0
    }

    pub fn contains(&self, status: PokemonVolatileStatus) -> (r: bool)
        ensures
            r == self.has(status),
    {
        self.0 & status.mask() != 0
    }

    /// Turns the condition on.
    pub fn insert(&mut self, status: PokemonVolatileStatus)
        ensures
            final(self).0 == old(self).0 | status.bit(),
            final(self).has(status),
            forall|other: PokemonVolatileStatus|
                other != status ==> (final(self).has(other) <==> old(self).has(other)),
    {
        let mask: u128 = status.mask();
        let ghost before = self.0;
        self.0 = self.0 | mask;
        proof {
            assert(mask != 0 ==> (before | mask) & mask != 0) by (bit_vector);
            assert forall|other: PokemonVolatileStatus| other != status implies (self.has(other)
                <==> before & other.bit() != 0) by {
                let b = other.bit();
                assert(b & mask == 0) by {
                    lemma_bits_are_apart(status, other);
                }
                assert(b & mask == 0 ==> (before | mask) & b == before & b) by (bit_vector);
            }
        }
    }
}

proof fn lemma_bits_are_apart(a: PokemonVolatileStatus, b: PokemonVolatileStatus)
    requires
        a != b,
    ensures
        b.bit() & a.bit() == 0,
{
    let x = a.bit();
    let y = b.bit();
    assert((x == 1 || x == 2 || x == 4 || x == 8 || x == 16 || x == 32 || x == 64) && (y == 1 || y
        == 2 || y == 4 || y == 8 || y == 16 || y == 32 || y == 64) && x != y ==> y & x == 0)
        by (bit_vector);
}

impl Pokemon {
    /// Numbers that can occur in a battle: no negative stat, a type chart row
    /// between immune and quadruple damage, and move power that is a proper
    /// fraction of two 32-bit numbers.
    pub open spec fn wf(self) -> bool {
        &&& 0 <= self.hp
        &&& 0 <= self.maxhp
        &&& 0 <= self.attack
        &&& 0 <= self.special_attack
        &&& 0 <= self.speed
        &&& 0 <= self.level
        &&& forall|t: int| 0 <= t < NUM_TYPES ==> self.effectiveness@[t] <= 16
        &&& forall|m: int| 0 <= m < 4 ==> (#[trigger] self.moves@[m]).choice.wf()
    }

    /// Whether the numbers can occur in a battle.
    pub fn is_valid(&self) -> (r: bool)
        ensures
            r == self.wf(),
    {
        if self.hp < 0 || self.maxhp < 0 || self.attack < 0 || self.special_attack < 0 || self.speed
            < 0 || self.level < 0 {
            return false;
        }
        let mut t: usize = 0;
        while t < NUM_TYPES
            invariant
                t <= NUM_TYPES,
                forall|u: int| 0 <= u < t ==> self.effectiveness@[u] <= 16,
            decreases NUM_TYPES - t,
        {
            if self.effectiveness[t] > 16 {
                return false;
            }
            t = t + 1;
        }
        let mut m: usize = 0;
        while m < 4
            invariant
                m <= 4,
                forall|k: int| 0 <= k < m ==> (#[trigger] self.moves@[k]).choice.wf(),
            decreases 4 - m,
        {
            if !self.moves[m].choice.is_valid() {
                assert(!self.moves@[m as int].choice.wf());
                return false;
            }
            m = m + 1;
        }
        true
    }

    /// How hard an attack of type `t` hits this Pokemon, in quarters.
    pub open spec fn taken(self, t: PokemonType) -> int {
        self.effectiveness@[t.index_spec()] as int
    }

    pub fn type_effectiveness(&self, t: PokemonType) -> (r: u8)
        ensures
            r == self.taken(t),
    {
        self.effectiveness[t.index()]
    }
}

impl Choice {
    pub open spec fn wf(self) -> bool {
        &&& self.base_power.wf()
        &&& self.base_power.num <= u32::MAX
        &&& self.base_power.den <= u32::MAX
        &&& -100 <= self.priority <= 100
    }

    /// Whether the power is a proper fraction and the priority one that occurs.
    pub fn is_valid(&self) -> (r: bool)
        ensures
            r == self.wf(),
    {
        self.base_power.den > 0 && self.base_power.num <= u32::MAX as u64 && self.base_power.den
            <= u32::MAX as u64 && -100 <= self.priority && self.priority <= 100
    }
}

/// A stat stage is between -6 and 6.
pub open spec fn stage_in_range(boost: i8) -> bool {
    -6 <= boost <= 6
}

pub fn is_stage(boost: i8) -> (r: bool)
    ensures
        r == stage_in_range(boost),
{
    -6 <= boost && boost <= 6
}

impl Side {
    pub open spec fn wf(self) -> bool {
        &&& self.active_index < TEAM_SIZE
        &&& forall|i: int| 0 <= i < TEAM_SIZE ==> (#[trigger] self.pokemon@[i]).wf()
        &&& stage_in_range(self.attack_boost)
        &&& stage_in_range(self.defense_boost)
        &&& stage_in_range(self.special_attack_boost)
        &&& stage_in_range(self.special_defense_boost)
        &&& stage_in_range(self.speed_boost)
    }

    /// Whether someone is active, every Pokemon is valid and every stat stage
    /// is in its range.
    pub fn is_valid(&self) -> (r: bool)
        ensures
            r == self.wf(),
    {
        if self.active_index >= TEAM_SIZE {
            return false;
        }
        let mut i: usize = 0;
        while i < TEAM_SIZE
            invariant
                i <= TEAM_SIZE,
                forall|k: int| 0 <= k < i ==> (#[trigger] self.pokemon@[k]).wf(),
            decreases TEAM_SIZE - i,
        {
            if !self.pokemon[i].is_valid() {
                assert(!self.pokemon@[i as int].wf());
                return false;
            }
            i = i + 1;
        }
        is_stage(self.attack_boost) && is_stage(self.defense_boost) && is_stage(
            self.special_attack_boost,
        ) && is_stage(self.special_defense_boost) && is_stage(self.speed_boost)
    }

    /// How many of the first `n` Pokemon have fainted.
    pub open spec fn fainted_among(self, n: int) -> int
        decreases n,
    {
        if n <= 0 {
            0
        } else {
            self.fainted_among(n - 1) + if self.pokemon@[n - 1].hp == 0 {
                1int
            } else {
                0
            }
        }
    }

    /// How many Pokemon of this side have fainted.
    pub open spec fn fainted(self) -> int {
        self.fainted_among(TEAM_SIZE as int)
    }

    pub fn count_fainted(&self) -> (r: usize)
        ensures
            r == self.fainted(),
            r <= TEAM_SIZE,
    {
        let mut count: usize = 0;
        let mut i: usize = 0;
        while i < TEAM_SIZE
            invariant
                i <= TEAM_SIZE,
                count <= i,
                count == self.fainted_among(i as int),
            decreases TEAM_SIZE - i,
        {
            if self.pokemon[i].hp == 0 {
                count = count + 1;
            }
            i = i + 1;
        }
        count
    }
}

impl State {
    pub open spec fn wf(self) -> bool {
        self.side_one.wf() && self.side_two.wf()
    }

    /// Whether both sides are valid.
    pub fn is_valid(&self) -> (r: bool)
        ensures
            r == self.wf(),
    {
        self.side_one.is_valid() && self.side_two.is_valid()
    }

    /// The same position seen from the other chair.
    pub open spec fn swapped(self) -> State {
        State { side_one: self.side_two, side_two: self.side_one, ..self }
    }
}

} // verus!
