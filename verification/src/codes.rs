//! Numbers for the battle's names, so that they can be hashed.

use crate::state::{
    Abilities, Choices, Items, PokemonStatus, PokemonType, Terrain, Weather,
};
use vstd::prelude::*;

verus! {

impl Abilities {
    /// The number of this ability; no two share one.
    pub open spec fn number(self) -> u64 {
        match self {
            Abilities::NONE => 0,
            Abilities::ADAPTABILITY => 1,
            Abilities::AERILATE => 2,
            Abilities::BEADSOFRUIN => 3,
            Abilities::BLAZE => 4,
            Abilities::CHLOROPHYLL => 5,
            Abilities::DRYSKIN => 6,
            Abilities::EARTHEATER => 7,
            Abilities::FILTER => 8,
            Abilities::FLASHFIRE => 9,
            Abilities::FLUFFY => 10,
            Abilities::FURCOAT => 11,
            Abilities::GALEWINGS => 12,
            Abilities::GALVANIZE => 13,
            Abilities::GUTS => 14,
            Abilities::HEATPROOF => 15,
            Abilities::HUGEPOWER => 16,
            Abilities::ICESCALES => 17,
            Abilities::IRONFIST => 18,
            Abilities::LEVITATE => 19,
            Abilities::LIGHTNINGROD => 20,
            Abilities::LIQUIDVOICE => 21,
            Abilities::MAGICGUARD => 22,
            Abilities::MARVELSCALE => 23,
            Abilities::MEGALAUNCHER => 24,
            Abilities::MOLDBREAKER => 25,
            Abilities::MOTORDRIVE => 26,
            Abilities::MULTISCALE => 27,
            Abilities::OVERGROW => 28,
            Abilities::PIXILATE => 29,
            Abilities::POISONHEAL => 30,
            Abilities::PRISMARMOR => 31,
            Abilities::PUREPOWER => 32,
            Abilities::QUICKFEET => 33,
            Abilities::REFRIGERATE => 34,
            Abilities::SANDRUSH => 35,
            Abilities::SAPSIPPER => 36,
            Abilities::SHADOWSHIELD => 37,
            Abilities::SHARPNESS => 38,
            Abilities::SKILLLINK => 39,
            Abilities::SLUSHRUSH => 40,
            Abilities::SOLIDROCK => 41,
            Abilities::STORMDRAIN => 42,
            Abilities::STRONGJAW => 43,
            Abilities::SUPREMEOVERLORD => 44,
            Abilities::SURGESURFER => 45,
            Abilities::SWARM => 46,
            Abilities::SWIFTSWIM => 47,
            Abilities::SWORDOFRUIN => 48,
            Abilities::TABLETSOFRUIN => 49,
            Abilities::TECHNICIAN => 50,
            Abilities::THICKFAT => 51,
            Abilities::TINTEDLENS => 52,
            Abilities::TORRENT => 53,
            Abilities::TOUGHCLAWS => 54,
            Abilities::TOXICBOOST => 55,
            Abilities::VESSELOFRUIN => 56,
            Abilities::VOLTABSORB => 57,
            Abilities::WATERABSORB => 58,
            Abilities::WONDERGUARD => 59,
            Abilities::OTHER(n) => (1000 + n) as u64,
        }
    }

    pub fn code(self) -> (r: u64)
        ensures
            r == self.number(),
    {
        match self {
            Abilities::NONE => 0,
            Abilities::ADAPTABILITY => 1,
            Abilities::AERILATE => 2,
            Abilities::BEADSOFRUIN => 3,
            Abilities::BLAZE => 4,
            Abilities::CHLOROPHYLL => 5,
            Abilities::DRYSKIN => 6,
            Abilities::EARTHEATER => 7,
            Abilities::FILTER => 8,
            Abilities::FLASHFIRE => 9,
            Abilities::FLUFFY => 10,
            Abilities::FURCOAT => 11,
            Abilities::GALEWINGS => 12,
            Abilities::GALVANIZE => 13,
            Abilities::GUTS => 14,
            Abilities::HEATPROOF => 15,
            Abilities::HUGEPOWER => 16,
            Abilities::ICESCALES => 17,
            Abilities::IRONFIST => 18,
            Abilities::LEVITATE => 19,
            Abilities::LIGHTNINGROD => 20,
            Abilities::LIQUIDVOICE => 21,
            Abilities::MAGICGUARD => 22,
            Abilities::MARVELSCALE => 23,
            Abilities::MEGALAUNCHER => 24,
            Abilities::MOLDBREAKER => 25,
            Abilities::MOTORDRIVE => 26,
            Abilities::MULTISCALE => 27,
            Abilities::OVERGROW => 28,
            Abilities::PIXILATE => 29,
            Abilities::POISONHEAL => 30,
            Abilities::PRISMARMOR => 31,
            Abilities::PUREPOWER => 32,
            Abilities::QUICKFEET => 33,
            Abilities::REFRIGERATE => 34,
            Abilities::SANDRUSH => 35,
            Abilities::SAPSIPPER => 36,
            Abilities::SHADOWSHIELD => 37,
            Abilities::SHARPNESS => 38,
            Abilities::SKILLLINK => 39,
            Abilities::SLUSHRUSH => 40,
            Abilities::SOLIDROCK => 41,
            Abilities::STORMDRAIN => 42,
            Abilities::STRONGJAW => 43,
            Abilities::SUPREMEOVERLORD => 44,
            Abilities::SURGESURFER => 45,
            Abilities::SWARM => 46,
            Abilities::SWIFTSWIM => 47,
            Abilities::SWORDOFRUIN => 48,
            Abilities::TABLETSOFRUIN => 49,
            Abilities::TECHNICIAN => 50,
            Abilities::THICKFAT => 51,
            Abilities::TINTEDLENS => 52,
            Abilities::TORRENT => 53,
            Abilities::TOUGHCLAWS => 54,
            Abilities::TOXICBOOST => 55,
            Abilities::VESSELOFRUIN => 56,
            Abilities::VOLTABSORB => 57,
            Abilities::WATERABSORB => 58,
            Abilities::WONDERGUARD => 59,
            Abilities::OTHER(n) => 1000 + n as u64,
        }
    }
}

impl Items {
    /// The number of this item; no two share one.
    pub open spec fn number(self) -> u64 {
        match self {
            Items::NONE => 0,
            Items::ASSAULTVEST => 1,
            Items::CHOICEBAND => 2,
            Items::CHOICESCARF => 3,
            Items::CHOICESPECS => 4,
            Items::CORNERSTONEMASK => 5,
            Items::EVIOLITE => 6,
            Items::EXPERTBELT => 7,
            Items::HEARTHFLAMEMASK => 8,
            Items::HEAVYDUTYBOOTS => 9,
            Items::IRONBALL => 10,
            Items::LIFEORB => 11,
            Items::LOADEDDICE => 12,
            Items::MUSCLEBAND => 13,
            Items::WELLSPRINGMASK => 14,
            Items::WIDELENS => 15,
            Items::WISEGLASSES => 16,
            Items::OTHER(n) => (1000 + n) as u64,
        }
    }

    pub fn code(self) -> (r: u64)
        ensures
            r == self.number(),
    {
        match self {
            Items::NONE => 0,
            Items::ASSAULTVEST => 1,
            Items::CHOICEBAND => 2,
            Items::CHOICESCARF => 3,
            Items::CHOICESPECS => 4,
            Items::CORNERSTONEMASK => 5,
            Items::EVIOLITE => 6,
            Items::EXPERTBELT => 7,
            Items::HEARTHFLAMEMASK => 8,
            Items::HEAVYDUTYBOOTS => 9,
            Items::IRONBALL => 10,
            Items::LIFEORB => 11,
            Items::LOADEDDICE => 12,
            Items::MUSCLEBAND => 13,
            Items::WELLSPRINGMASK => 14,
            Items::WIDELENS => 15,
            Items::WISEGLASSES => 16,
            Items::OTHER(n) => 1000 + n as u64,
        }
    }
}

impl Choices {
    /// The number of this move; no two share one.
    pub open spec fn number(self) -> u64 {
        match self {
            Choices::NONE => 0,
            Choices::ACROBATICS => 1,
            Choices::BRINE => 2,
            Choices::ERUPTION => 3,
            Choices::FACADE => 4,
            Choices::FLAIL => 5,
            Choices::GRASSKNOT => 6,
            Choices::GRASSYGLIDE => 7,
            Choices::HARDPRESS => 8,
            Choices::HEATCRASH => 9,
            Choices::HEAVYSLAM => 10,
            Choices::HEX => 11,
            Choices::IVYCUDGEL => 12,
            Choices::KNOCKOFF => 13,
            Choices::LASTRESPECTS => 14,
            Choices::LOWKICK => 15,
            Choices::NIGHTSHADE => 16,
            Choices::RAGINGBULL => 17,
            Choices::REVERSAL => 18,
            Choices::RUINATION => 19,
            Choices::SEISMICTOSS => 20,
            Choices::STOREDPOWER => 21,
            Choices::SUPERFANG => 22,
            Choices::TERABLAST => 23,
            Choices::THOUSANDARROWS => 24,
            Choices::WATERSPOUT => 25,
            Choices::WEATHERBALL => 26,
            Choices::OTHER(n) => (1000 + n) as u64,
        }
    }

    pub fn code(self) -> (r: u64)
        ensures
            r == self.number(),
    {
        match self {
            Choices::NONE => 0,
            Choices::ACROBATICS => 1,
            Choices::BRINE => 2,
            Choices::ERUPTION => 3,
            Choices::FACADE => 4,
            Choices::FLAIL => 5,
            Choices::GRASSKNOT => 6,
            Choices::GRASSYGLIDE => 7,
            Choices::HARDPRESS => 8,
            Choices::HEATCRASH => 9,
            Choices::HEAVYSLAM => 10,
            Choices::HEX => 11,
            Choices::IVYCUDGEL => 12,
            Choices::KNOCKOFF => 13,
            Choices::LASTRESPECTS => 14,
            Choices::LOWKICK => 15,
            Choices::NIGHTSHADE => 16,
            Choices::RAGINGBULL => 17,
            Choices::REVERSAL => 18,
            Choices::RUINATION => 19,
            Choices::SEISMICTOSS => 20,
            Choices::STOREDPOWER => 21,
            Choices::SUPERFANG => 22,
            Choices::TERABLAST => 23,
            Choices::THOUSANDARROWS => 24,
            Choices::WATERSPOUT => 25,
            Choices::WEATHERBALL => 26,
            Choices::OTHER(n) => 1000 + n as u64,
        }
    }
}

impl PokemonStatus {
    /// The number of this status condition; no two share one.
    pub open spec fn number(self) -> u64 {
        match self {
            PokemonStatus::NONE => 0,
            PokemonStatus::BURN => 1,
            PokemonStatus::SLEEP => 2,
            PokemonStatus::FREEZE => 3,
            PokemonStatus::PARALYZE => 4,
            PokemonStatus::POISON => 5,
            PokemonStatus::TOXIC => 6,
        }
    }

    pub fn code(self) -> (r: u64)
        ensures
            r == self.number(),
    {
        match self {
            PokemonStatus::NONE => 0,
            PokemonStatus::BURN => 1,
            PokemonStatus::SLEEP => 2,
            PokemonStatus::FREEZE => 3,
            PokemonStatus::PARALYZE => 4,
            PokemonStatus::POISON => 5,
            PokemonStatus::TOXIC => 6,
        }
    }
}

impl Weather {
    /// The number of this weather; no two share one.
    pub open spec fn number(self) -> u64 {
        match self {
            Weather::NONE => 0,
            Weather::SUN => 1,
            Weather::RAIN => 2,
            Weather::SAND => 3,
            Weather::HAIL => 4,
            Weather::SNOW => 5,
            Weather::HARSHSUN => 6,
            Weather::HEAVYRAIN => 7,
        }
    }

    pub fn code(self) -> (r: u64)
        ensures
            r == self.number(),
    {
        match self {
            Weather::NONE => 0,
            Weather::SUN => 1,
            Weather::RAIN => 2,
            Weather::SAND => 3,
            Weather::HAIL => 4,
            Weather::SNOW => 5,
            Weather::HARSHSUN => 6,
            Weather::HEAVYRAIN => 7,
        }
    }
}

impl Terrain {
    /// The number of this terrain; no two share one.
    pub open spec fn number(self) -> u64 {
        match self {
            Terrain::NONE => 0,
            Terrain::ELECTRICTERRAIN => 1,
            Terrain::PSYCHICTERRAIN => 2,
            Terrain::MISTYTERRAIN => 3,
            Terrain::GRASSYTERRAIN => 4,
        }
    }

    pub fn code(self) -> (r: u64)
        ensures
            r == self.number(),
    {
        match self {
            Terrain::NONE => 0,
            Terrain::ELECTRICTERRAIN => 1,
            Terrain::PSYCHICTERRAIN => 2,
            Terrain::MISTYTERRAIN => 3,
            Terrain::GRASSYTERRAIN => 4,
        }
    }
}

/// No two names of a kind share a number.
pub proof fn lemma_numbers_tell_names_apart(
    abilities: (Abilities, Abilities),
    items: (Items, Items),
    choices: (Choices, Choices),
    statuses: (PokemonStatus, PokemonStatus),
    weathers: (Weather, Weather),
    terrains: (Terrain, Terrain),
)
    ensures
        abilities.0.number() == abilities.1.number() ==> abilities.0 == abilities.1,
        items.0.number() == items.1.number() ==> items.0 == items.1,
        choices.0.number() == choices.1.number() ==> choices.0 == choices.1,
        statuses.0.number() == statuses.1.number() ==> statuses.0 == statuses.1,
        weathers.0.number() == weathers.1.number() ==> weathers.0 == weathers.1,
        terrains.0.number() == terrains.1.number() ==> terrains.0 == terrains.1,
{
}

/// No two types share a place, and there are twenty.
pub proof fn lemma_types_have_their_places(a: PokemonType, b: PokemonType)
    ensures
        a.index_spec() == b.index_spec() ==> a == b,
        0 <= a.index_spec() < 20,
{
}

} // verus!
